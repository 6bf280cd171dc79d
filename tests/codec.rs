use wireguard_nt::codec::{
    decode, encode, AllowedIp, CodecError, Configuration, Endpoint, Peer, IF_COUNT, INTERFACE_HEADER_LEN, IP_RECORD_LEN,
    PEER_HEADER_LEN,
};

fn v4_range(a: [u8; 4], cidr: u8) -> AllowedIp {
    AllowedIp { v6: false, address: a.to_vec(), cidr }
}

fn demo_peer() -> Peer {
    Peer {
        public_key: vec![7u8; 34],
        preshared_key: None,
        persistent_keepalive: None,
        endpoint: None,
        replace_allowed_ips: false,
        allowed_ips: vec![v4_range([10, 0, 0, 0], 24)],
    }
}

fn empty_config() -> Configuration {
    Configuration { listen_port: None, private_key: None, public_key: None, replace_peers: false, peers: vec![] }
}

#[test]
fn one_peer_with_one_allowed_ip_round_trips() {
    let mut c = empty_config();
    c.private_key = Some(vec![1u8; 34]);
    c.peers.push(demo_peer());
    let bytes = encode(&c).unwrap();
    assert_eq!(bytes.len(), INTERFACE_HEADER_LEN + PEER_HEADER_LEN + IP_RECORD_LEN);
    let back = decode(&bytes).unwrap();
    assert_eq!(back.peers.len(), 1);
    assert_eq!(back.peers[0].allowed_ips.len(), 1);
    assert_eq!(back.peers[0].allowed_ips[0], v4_range([10, 0, 0, 0], 24));
    assert_eq!(back, c);
}

#[test]
fn full_configuration_round_trips() {
    let c = Configuration {
        listen_port: Some(51820),
        private_key: Some(vec![3u8; 34]),
        public_key: Some(vec![4u8; 34]),
        replace_peers: true,
        peers: vec![
            Peer {
                public_key: (0u8..34).collect(),
                preshared_key: Some(vec![9u8; 34]),
                persistent_keepalive: Some(25),
                endpoint: Some(Endpoint { v6: true, address: (100u8..116).collect(), port: 443 }),
                replace_allowed_ips: true,
                allowed_ips: vec![
                    v4_range([192, 168, 1, 0], 24),
                    AllowedIp { v6: true, address: vec![0xfd; 16], cidr: 128 },
                ],
            },
            Peer {
                public_key: vec![0xaa; 34],
                preshared_key: None,
                persistent_keepalive: None,
                endpoint: Some(Endpoint { v6: false, address: vec![1, 2, 3, 4], port: 65535 }),
                replace_allowed_ips: false,
                allowed_ips: vec![],
            },
        ],
    };
    let bytes = encode(&c).unwrap();
    assert_eq!(bytes.len(), INTERFACE_HEADER_LEN + 2 * PEER_HEADER_LEN + 2 * IP_RECORD_LEN);
    assert_eq!(decode(&bytes).unwrap(), c);
}

#[test]
fn empty_configuration_round_trips() {
    let c = empty_config();
    let bytes = encode(&c).unwrap();
    assert_eq!(bytes, vec![0u8; INTERFACE_HEADER_LEN]);
    assert_eq!(decode(&bytes).unwrap(), c);
}

#[test]
fn interface_header_bytes() {
    let mut c = empty_config();
    c.listen_port = Some(51820);
    let bytes = encode(&c).unwrap();
    let mut expected = vec![0u8; INTERFACE_HEADER_LEN];
    expected[0] = 1;
    expected[1] = 0x6c;
    expected[2] = 0xca;
    assert_eq!(bytes, expected);
}

#[test]
fn allowed_ip_record_bytes() {
    let mut c = empty_config();
    c.peers.push(demo_peer());
    let bytes = encode(&c).unwrap();
    assert_eq!(&bytes[IF_COUNT..IF_COUNT + 4], &[1, 0, 0, 0]);
    let p = INTERFACE_HEADER_LEN;
    assert_eq!(bytes[p], 0);
    assert_eq!(&bytes[p + 1..p + 35], &[7u8; 34][..]);
    assert_eq!(&bytes[p + 90..p + 94], &[1, 0, 0, 0]);
    let r = p + PEER_HEADER_LEN;
    let mut record = vec![4u8, 24, 10, 0, 0, 0];
    record.extend_from_slice(&[0u8; 12]);
    assert_eq!(&bytes[r..], &record[..]);
}

#[test]
fn peer_with_no_allowed_ips_is_valid() {
    let mut c = empty_config();
    let mut p = demo_peer();
    p.allowed_ips.clear();
    c.peers.push(p);
    let bytes = encode(&c).unwrap();
    assert_eq!(decode(&bytes).unwrap(), c);
}

#[test]
fn prefix_length_over_family_bound_is_rejected() {
    let mut c = empty_config();
    let mut p = demo_peer();
    p.allowed_ips = vec![v4_range([10, 0, 0, 0], 33)];
    c.peers.push(p);
    assert_eq!(encode(&c), Err(CodecError::InvalidConfiguration));
}

#[test]
fn short_public_key_is_rejected() {
    let mut c = empty_config();
    let mut p = demo_peer();
    p.public_key = vec![7u8; 32];
    c.peers.push(p);
    assert_eq!(encode(&c), Err(CodecError::InvalidConfiguration));
}

#[test]
fn long_public_key_is_rejected() {
    let mut c = empty_config();
    let mut p = demo_peer();
    p.public_key = vec![7u8; 35];
    c.peers.push(p);
    assert_eq!(encode(&c), Err(CodecError::InvalidConfiguration));
}

#[test]
fn thirty_four_byte_key_peer_is_set_and_read_back() {
    let key: Vec<u8> = (1u8..=34).collect();
    let mut c = empty_config();
    let mut p = demo_peer();
    p.public_key = key.clone();
    c.peers.push(p);
    let back = decode(&encode(&c).unwrap()).unwrap();
    assert_eq!(back.peers.len(), 1);
    assert_eq!(back.peers[0].public_key, key);
    assert_eq!(back.peers[0].allowed_ips, vec![v4_range([10, 0, 0, 0], 24)]);
}

#[test]
fn wrong_address_length_is_rejected() {
    let mut c = empty_config();
    let mut p = demo_peer();
    p.allowed_ips = vec![AllowedIp { v6: true, address: vec![1, 2, 3, 4], cidr: 8 }];
    c.peers.push(p);
    assert_eq!(encode(&c), Err(CodecError::InvalidConfiguration));
}

#[test]
fn declared_peers_beyond_buffer_are_corrupt() {
    let mut bytes = vec![0u8; INTERFACE_HEADER_LEN];
    bytes[IF_COUNT] = 5;
    assert_eq!(decode(&bytes), Err(CodecError::CorruptBuffer));
    bytes[IF_COUNT] = 0xff;
    bytes[IF_COUNT + 3] = 0xff;
    assert_eq!(decode(&bytes), Err(CodecError::CorruptBuffer));
}

#[test]
fn truncated_buffer_is_corrupt() {
    let mut c = empty_config();
    c.peers.push(demo_peer());
    let bytes = encode(&c).unwrap();
    for n in 0..bytes.len() {
        assert_eq!(decode(&bytes[..n].to_vec()), Err(CodecError::CorruptBuffer));
    }
}

#[test]
fn trailing_bytes_are_corrupt() {
    let mut bytes = encode(&empty_config()).unwrap();
    bytes.push(0);
    assert_eq!(decode(&bytes), Err(CodecError::CorruptBuffer));
}

#[test]
fn unknown_family_is_corrupt() {
    let mut c = empty_config();
    c.peers.push(demo_peer());
    let mut bytes = encode(&c).unwrap();
    bytes[INTERFACE_HEADER_LEN + PEER_HEADER_LEN] = 5;
    assert_eq!(decode(&bytes), Err(CodecError::CorruptBuffer));
}

#[test]
fn absent_fields_ignore_their_bytes() {
    let mut c = empty_config();
    c.peers.push(demo_peer());
    let mut bytes = encode(&c).unwrap();
    bytes[3] = 0x55;
    bytes[INTERFACE_HEADER_LEN + 40] = 0x66;
    assert_eq!(decode(&bytes).unwrap(), c);
}

#[test]
fn validity_checks() {
    assert!(v4_range([10, 0, 0, 0], 32).is_valid());
    assert!(!v4_range([10, 0, 0, 0], 33).is_valid());
    assert!(AllowedIp { v6: true, address: vec![0; 16], cidr: 128 }.is_valid());
    assert!(!AllowedIp { v6: true, address: vec![0; 16], cidr: 129 }.is_valid());
    assert!(demo_peer().is_valid());
    assert!(empty_config().is_valid());
}
