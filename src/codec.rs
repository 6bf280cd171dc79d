//! Flat binary layout of an interface configuration, as handed to the driver.
//!
//! All integers are little-endian. Layout:
//! - interface header (75 bytes): flags (1), listen port (2), private key (34),
//!   public key (34), peer count (4);
//! - per peer, a header (94 bytes): flags (1), public key (34), preshared key (34),
//!   keepalive (2), endpoint family (1), endpoint port (2), endpoint address (16),
//!   allowed-IP count (4); then that many allowed-IP records;
//! - allowed-IP record (18 bytes): family (1), prefix length (1), address (16).
//!
//! Families are written 4 and 6; an IPv4 address fills the first 4 bytes of its
//! 16-byte slot, the rest being zero. Absent optional fields are written as zeros
//! and flagged absent.
use vstd::prelude::*;

verus! {

pub const KEY_LEN: usize = 34;
pub const IP_RECORD_LEN: usize = 18;

// Offsets within a peer header: flags (1), public key, preshared key,
// keepalive (2), endpoint (19), allowed-IP count (4).
pub const PEER_PUBLIC_KEY: usize = 1;
pub const PEER_PRESHARED_KEY: usize = 35;
pub const PEER_KEEPALIVE: usize = 69;
pub const PEER_ENDPOINT: usize = 71;
pub const PEER_COUNT: usize = 90;
pub const PEER_HEADER_LEN: usize = 94;

// Offsets within the interface header: flags (1), listen port (2), private
// key, public key, peer count (4).
pub const IF_PRIVATE_KEY: usize = 3;
pub const IF_PUBLIC_KEY: usize = 37;
pub const IF_COUNT: usize = 71;
pub const INTERFACE_HEADER_LEN: usize = 75;
pub const FAMILY_V4: u8 = 4;
pub const FAMILY_V6: u8 = 6;

/// Little-endian bytes of a 16-bit value.
pub open spec fn le16(v: u16) -> Seq<u8> {
    seq![(v % 256) as u8, (v / 256) as u8]
}

/// Little-endian bytes of a 32-bit value.
pub open spec fn le32(v: u32) -> Seq<u8> {
    seq![(v % 256) as u8, ((v / 256) % 256) as u8, ((v / 65536) % 256) as u8, (v / 16777216) as u8]
}

/// The 16-bit value stored little-endian at `at`.
pub open spec fn rd16(b: Seq<u8>, at: int) -> u16 {
    (b[at] as int + 256 * b[at + 1] as int) as u16
}

/// The 32-bit value stored little-endian at `at`.
pub open spec fn rd32(b: Seq<u8>, at: int) -> u32 {
    (b[at] as int + 256 * b[at + 1] as int + 65536 * b[at + 2] as int + 16777216 * b[at + 3] as int) as u32
}

/// `n` zero bytes.
pub open spec fn zeros(n: nat) -> Seq<u8> {
    Seq::new(n, |i: int| 0u8)
}

proof fn lemma_rd16(b: Seq<u8>, at: int, v: u16)
    requires
        0 <= at,
        at + 2 <= b.len(),
        b.subrange(at, at + 2) == le16(v),
    ensures
        rd16(b, at) == v,
{
    assert(b[at] == b.subrange(at, at + 2)[0]);
    assert(b[at + 1] == b.subrange(at, at + 2)[1]);
}

proof fn lemma_rd32(b: Seq<u8>, at: int, v: u32)
    requires
        0 <= at,
        at + 4 <= b.len(),
        b.subrange(at, at + 4) == le32(v),
    ensures
        rd32(b, at) == v,
{
    assert(b[at] == b.subrange(at, at + 4)[0]);
    assert(b[at + 1] == b.subrange(at, at + 4)[1]);
    assert(b[at + 2] == b.subrange(at, at + 4)[2]);
    assert(b[at + 3] == b.subrange(at, at + 4)[3]);
}

/// Splits a window of `b` that holds `x + y` into the windows holding each.
proof fn lemma_split(b: Seq<u8>, s: int, e: int, x: Seq<u8>, y: Seq<u8>)
    requires
        0 <= s <= e <= b.len(),
        b.subrange(s, e) == x + y,
    ensures
        e == s + x.len() + y.len(),
        b.subrange(s, s + x.len()) == x,
        b.subrange(s + x.len(), e) == y,
{
    assert(b.subrange(s, e).len() == (x + y).len());
    assert((x + y).len() == x.len() + y.len());
    assert(e - s == x.len() + y.len());
    assert forall|i: int| 0 <= i < x.len() implies b.subrange(s, s + x.len())[i] == x[i] by {
        assert(b.subrange(s, e)[i] == (x + y)[i]);
        assert(b.subrange(s, e)[i] == b[s + i]);
    }
    assert forall|i: int| 0 <= i < y.len() implies b.subrange(s + x.len(), e)[i] == y[i] by {
        assert(b.subrange(s, e)[x.len() + i] == (x + y)[x.len() + i]);
        assert(b.subrange(s, e)[x.len() + i] == b[s + x.len() + i]);
    }
    assert(b.subrange(s, s + x.len()) =~= x);
    assert(b.subrange(s + x.len(), e) =~= y);
}

fn push_le16(out: &mut Vec<u8>, v: u16)
    ensures
        final(out)@ == old(out)@ + le16(v),
{
    out.push((v % 256) as u8);
    out.push((v / 256) as u8);
    assert(final(out)@ =~= old(out)@ + le16(v));
}

fn push_le32(out: &mut Vec<u8>, v: u32)
    ensures
        final(out)@ == old(out)@ + le32(v),
{
    out.push((v % 256) as u8);
    out.push(((v / 256) % 256) as u8);
    out.push(((v / 65536) % 256) as u8);
    out.push((v / 16777216) as u8);
    assert(final(out)@ =~= old(out)@ + le32(v));
}

fn push_bytes(out: &mut Vec<u8>, src: &Vec<u8>)
    ensures
        final(out)@ == old(out)@ + src@,
{
    let ghost start = out@;
    let mut i: usize = 0;
    while i < src.len()
        invariant
            i <= src.len(),
            out@ == start + src@.subrange(0, i as int),
        decreases src.len() - i,
    {
        out.push(src[i]);
        i = i + 1;
        assert(out@ =~= start + src@.subrange(0, i as int));
    }
    assert(src@.subrange(0, i as int) =~= src@);
}

fn push_zeros(out: &mut Vec<u8>, n: usize)
    ensures
        final(out)@ == old(out)@ + zeros(n as nat),
{
    let ghost start = out@;
    let mut i: usize = 0;
    while i < n
        invariant
            i <= n,
            out@ == start + zeros(i as nat),
        decreases n - i,
    {
        out.push(0u8);
        i = i + 1;
        assert(out@ =~= start + zeros(i as nat));
    }
}

fn read_u16(b: &Vec<u8>, at: usize) -> (r: u16)
    requires
        at + 2 <= b@.len(),
    ensures
        r == rd16(b@, at as int),
{
    let _len = b.len();
    b[at] as u16 + 256 * (b[at + 1] as u16)
}

fn read_u32(b: &Vec<u8>, at: usize) -> (r: u32)
    requires
        at + 4 <= b@.len(),
    ensures
        r == rd32(b@, at as int),
{
    let _len = b.len();
    b[at] as u32 + 256 * (b[at + 1] as u32) + 65536 * (b[at + 2] as u32) + 16777216 * (b[at + 3] as u32)
}

fn read_bytes(b: &Vec<u8>, at: usize, n: usize) -> (r: Vec<u8>)
    requires
        at + n <= b@.len(),
    ensures
        r@ == b@.subrange(at as int, at + n),
{
    let mut r: Vec<u8> = Vec::new();
    let len = b.len();
    let mut i: usize = 0;
    while i < n
        invariant
            i <= n,
            at + n <= b@.len(),
            len == b@.len(),
            r@ == b@.subrange(at as int, at + i),
        decreases n - i,
    {
        r.push(b[at + i]);
        i = i + 1;
        assert(r@ =~= b@.subrange(at as int, at + i));
    }
    r
}


/// One allowed-IP range: an address and a prefix length.
#[derive(Debug, Clone, PartialEq, Eq)]
pub struct AllowedIp {
    pub v6: bool,
    pub address: Vec<u8>,
    pub cidr: u8,
}

/// What an `AllowedIp` stands for.
pub struct AllowedIpModel {
    pub v6: bool,
    pub address: Seq<u8>,
    pub cidr: u8,
}

impl View for AllowedIp {
    type V = AllowedIpModel;

    open spec fn view(&self) -> AllowedIpModel {
        AllowedIpModel { v6: self.v6, address: self.address@, cidr: self.cidr }
    }
}

/// A peer's endpoint: an address and a port.
#[derive(Debug, Clone, PartialEq, Eq)]
pub struct Endpoint {
    pub v6: bool,
    pub address: Vec<u8>,
    pub port: u16,
}

/// What an `Endpoint` stands for.
pub struct EndpointModel {
    pub v6: bool,
    pub address: Seq<u8>,
    pub port: u16,
}

impl View for Endpoint {
    type V = EndpointModel;

    open spec fn view(&self) -> EndpointModel {
        EndpointModel { v6: self.v6, address: self.address@, port: self.port }
    }
}

/// One peer of the interface.
#[derive(Debug, Clone, PartialEq, Eq)]
pub struct Peer {
    pub public_key: Vec<u8>,
    pub preshared_key: Option<Vec<u8>>,
    pub persistent_keepalive: Option<u16>,
    pub endpoint: Option<Endpoint>,
    pub replace_allowed_ips: bool,
    pub allowed_ips: Vec<AllowedIp>,
}

/// What a `Peer` stands for.
pub struct PeerModel {
    pub public_key: Seq<u8>,
    pub preshared_key: Option<Seq<u8>>,
    pub persistent_keepalive: Option<u16>,
    pub endpoint: Option<EndpointModel>,
    pub replace_allowed_ips: bool,
    pub allowed_ips: Seq<AllowedIpModel>,
}

/// View of an optional byte vector.
pub open spec fn opt_bytes(o: Option<Vec<u8>>) -> Option<Seq<u8>> {
    match o {
        Some(v) => Some(v@),
        None => None,
    }
}

/// View of an optional endpoint.
pub open spec fn opt_endpoint(o: Option<Endpoint>) -> Option<EndpointModel> {
    match o {
        Some(e) => Some(e@),
        None => None,
    }
}

/// Views of allowed-IP ranges, in order.
pub open spec fn ips_view(s: Seq<AllowedIp>) -> Seq<AllowedIpModel> {
    s.map_values(|a: AllowedIp| a@)
}

impl View for Peer {
    type V = PeerModel;

    open spec fn view(&self) -> PeerModel {
        PeerModel {
            public_key: self.public_key@,
            preshared_key: opt_bytes(self.preshared_key),
            persistent_keepalive: self.persistent_keepalive,
            endpoint: opt_endpoint(self.endpoint),
            replace_allowed_ips: self.replace_allowed_ips,
            allowed_ips: ips_view(self.allowed_ips@),
        }
    }
}

/// Desired state of one interface: its own settings and its peers in order.
#[derive(Debug, Clone, PartialEq, Eq)]
pub struct Configuration {
    pub listen_port: Option<u16>,
    pub private_key: Option<Vec<u8>>,
    pub public_key: Option<Vec<u8>>,
    pub replace_peers: bool,
    pub peers: Vec<Peer>,
}

/// What a `Configuration` stands for.
pub struct ConfigurationModel {
    pub listen_port: Option<u16>,
    pub private_key: Option<Seq<u8>>,
    pub public_key: Option<Seq<u8>>,
    pub replace_peers: bool,
    pub peers: Seq<PeerModel>,
}

/// Views of peers, in order.
pub open spec fn peers_view(s: Seq<Peer>) -> Seq<PeerModel> {
    s.map_values(|p: Peer| p@)
}

impl View for Configuration {
    type V = ConfigurationModel;

    open spec fn view(&self) -> ConfigurationModel {
        ConfigurationModel {
            listen_port: self.listen_port,
            private_key: opt_bytes(self.private_key),
            public_key: opt_bytes(self.public_key),
            replace_peers: self.replace_peers,
            peers: peers_view(self.peers@),
        }
    }
}

/// Length of an address of the family.
pub open spec fn addr_len(v6: bool) -> nat {
    if v6 { 16 } else { 4 }
}

/// Largest prefix length of the family.
pub open spec fn max_cidr(v6: bool) -> u8 {
    if v6 { 128 } else { 32 }
}

/// Family byte of the family.
pub open spec fn family(v6: bool) -> u8 {
    if v6 { FAMILY_V6 } else { FAMILY_V4 }
}

/// An address in its 16-byte slot, zero-filled after its own bytes.
pub open spec fn slot16(a: Seq<u8>) -> Seq<u8> {
    Seq::new(16, |i: int| if i < a.len() { a[i] } else { 0u8 })
}

/// A key of full length.
pub open spec fn key_wf(k: Seq<u8>) -> bool {
    k.len() == KEY_LEN
}

/// An absent key, or one of full length.
pub open spec fn opt_key_wf(k: Option<Seq<u8>>) -> bool {
    match k {
        Some(k) => key_wf(k),
        None => true,
    }
}

/// Key bytes as written: the key, or zeros where it is absent.
pub open spec fn key_bytes(k: Option<Seq<u8>>) -> Seq<u8> {
    match k {
        Some(k) => k,
        None => zeros(KEY_LEN as nat),
    }
}

/// An address of its family's length, with a prefix length within its bound.
pub open spec fn ip_wf(a: AllowedIpModel) -> bool {
    a.address.len() == addr_len(a.v6) && a.cidr <= max_cidr(a.v6)
}

/// An endpoint address of its family's length.
pub open spec fn endpoint_wf(e: Option<EndpointModel>) -> bool {
    match e {
        Some(e) => e.address.len() == addr_len(e.v6),
        None => true,
    }
}

/// A peer that can be written.
pub open spec fn peer_wf(p: PeerModel) -> bool {
    &&& key_wf(p.public_key)
    &&& opt_key_wf(p.preshared_key)
    &&& endpoint_wf(p.endpoint)
    &&& p.allowed_ips.len() <= u32::MAX
    &&& forall|i: int| 0 <= i < p.allowed_ips.len() ==> ip_wf(#[trigger] p.allowed_ips[i])
}

/// A configuration that can be written: keys of full length, addresses of
/// their family's length, prefix lengths within their family's bound, and
/// counts that fit their 32-bit fields.
pub open spec fn config_wf(c: ConfigurationModel) -> bool {
    &&& opt_key_wf(c.private_key)
    &&& opt_key_wf(c.public_key)
    &&& c.peers.len() <= u32::MAX
    &&& forall|i: int| 0 <= i < c.peers.len() ==> peer_wf(#[trigger] c.peers[i])
}

/// The record an allowed-IP range is written as.
pub open spec fn enc_ip(a: AllowedIpModel) -> Seq<u8> {
    seq![family(a.v6), a.cidr] + slot16(a.address)
}

/// The records of the ranges, in order.
pub open spec fn enc_ips(s: Seq<AllowedIpModel>) -> Seq<u8>
    decreases s.len(),
{
    if s.len() == 0 {
        seq![]
    } else {
        enc_ips(s.drop_last()) + enc_ip(s.last())
    }
}

/// Presence flags of a peer: preshared key 1, keepalive 2, endpoint 4, replace allowed IPs 8.
pub open spec fn peer_flags(p: PeerModel) -> u8 {
    ((if p.preshared_key is Some { 1int } else { 0 }) + (if p.persistent_keepalive is Some { 2int } else { 0 })
        + (if p.endpoint is Some { 4int } else { 0 }) + (if p.replace_allowed_ips { 8int } else { 0 })) as u8
}

/// An endpoint as written, or zeros where there is none.
pub open spec fn enc_endpoint(e: Option<EndpointModel>) -> Seq<u8> {
    match e {
        Some(e) => seq![family(e.v6)] + le16(e.port) + slot16(e.address),
        None => zeros(19),
    }
}

/// A peer as written: its header, then its allowed-IP records.
pub open spec fn enc_peer(p: PeerModel) -> Seq<u8> {
    peer_header(p) + enc_ips(p.allowed_ips)
}

/// A peer's fixed-size header.
pub open spec fn peer_header(p: PeerModel) -> Seq<u8> {
    seq![peer_flags(p)] + p.public_key + key_bytes(p.preshared_key) + le16(
        match p.persistent_keepalive {
            Some(k) => k,
            None => 0,
        },
    ) + enc_endpoint(p.endpoint) + le32(p.allowed_ips.len() as u32)
}

/// The peers as written, in order.
pub open spec fn enc_peers(s: Seq<PeerModel>) -> Seq<u8>
    decreases s.len(),
{
    if s.len() == 0 {
        seq![]
    } else {
        enc_peers(s.drop_last()) + enc_peer(s.last())
    }
}

/// Presence flags of the interface: listen port 1, private key 2, public key 4, replace peers 8.
pub open spec fn interface_flags(c: ConfigurationModel) -> u8 {
    ((if c.listen_port is Some { 1int } else { 0 }) + (if c.private_key is Some { 2int } else { 0 })
        + (if c.public_key is Some { 4int } else { 0 }) + (if c.replace_peers { 8int } else { 0 })) as u8
}

/// The bytes that a well-formed configuration is written as.
pub open spec fn enc_config(c: ConfigurationModel) -> Seq<u8> {
    interface_header(c) + enc_peers(c.peers)
}

/// The interface's fixed-size header.
pub open spec fn interface_header(c: ConfigurationModel) -> Seq<u8> {
    seq![interface_flags(c)] + le16(
        match c.listen_port {
            Some(p) => p,
            None => 0,
        },
    ) + key_bytes(c.private_key) + key_bytes(c.public_key) + le32(c.peers.len() as u32)
}

/// Whether flag `bit` (a power of two) is set in `f`.
pub open spec fn flag_set(f: u8, bit: int) -> bool {
    (f as int / bit) % 2 == 1
}

/// The allowed-IP record at `at`, if it lies within `b` and is valid.
pub open spec fn dec_ip(b: Seq<u8>, at: int) -> Option<AllowedIpModel> {
    if at < 0 || at + IP_RECORD_LEN > b.len() {
        None
    } else if b[at] == FAMILY_V4 && b[at + 1] <= 32 {
        Some(AllowedIpModel { v6: false, address: b.subrange(at + 2, at + 6), cidr: b[at + 1] })
    } else if b[at] == FAMILY_V6 && b[at + 1] <= 128 {
        Some(AllowedIpModel { v6: true, address: b.subrange(at + 2, at + 18), cidr: b[at + 1] })
    } else {
        None
    }
}

/// The `n` allowed-IP records that start at `at`.
pub open spec fn dec_ips(b: Seq<u8>, at: int, n: nat) -> Option<Seq<AllowedIpModel>>
    decreases n,
{
    if n == 0 {
        Some(seq![])
    } else {
        match dec_ips(b, at, (n - 1) as nat) {
            None => None,
            Some(s) => match dec_ip(b, at + IP_RECORD_LEN * (n - 1)) {
                None => None,
                Some(a) => Some(s.push(a)),
            },
        }
    }
}

/// The endpoint stored at `at`.
pub open spec fn dec_endpoint(b: Seq<u8>, at: int) -> EndpointModel {
    let v6 = b[at] == FAMILY_V6;
    EndpointModel { v6, address: b.subrange(at + 3, at + 3 + addr_len(v6)), port: rd16(b, at + 1) }
}

/// The peer that starts at `pos`, with the position just past it.
pub open spec fn dec_peer(b: Seq<u8>, pos: int) -> Option<(PeerModel, int)> {
    if pos < 0 || pos + PEER_HEADER_LEN > b.len() {
        None
    } else {
        let f = b[pos];
        let n = rd32(b, pos + PEER_COUNT);
        if flag_set(f, 4) && b[pos + PEER_ENDPOINT] != FAMILY_V4 && b[pos + PEER_ENDPOINT] != FAMILY_V6 {
            None
        } else {
            match dec_ips(b, pos + PEER_HEADER_LEN, n as nat) {
                None => None,
                Some(ips) => Some(
                    (
                        PeerModel {
                            public_key: b.subrange(pos + PEER_PUBLIC_KEY, pos + PEER_PRESHARED_KEY),
                            preshared_key: if flag_set(f, 1) { Some(b.subrange(pos + PEER_PRESHARED_KEY, pos + PEER_KEEPALIVE)) } else { None },
                            persistent_keepalive: if flag_set(f, 2) { Some(rd16(b, pos + PEER_KEEPALIVE)) } else { None },
                            endpoint: if flag_set(f, 4) { Some(dec_endpoint(b, pos + PEER_ENDPOINT)) } else { None },
                            replace_allowed_ips: flag_set(f, 8),
                            allowed_ips: ips,
                        },
                        pos + PEER_HEADER_LEN + IP_RECORD_LEN * n,
                    ),
                ),
            }
        }
    }
}

/// The `n` peers that start at `at`, with the position just past the last.
pub open spec fn dec_peers(b: Seq<u8>, at: int, n: nat) -> Option<(Seq<PeerModel>, int)>
    decreases n,
{
    if n == 0 {
        Some((seq![], at))
    } else {
        match dec_peers(b, at, (n - 1) as nat) {
            None => None,
            Some((s, pos)) => match dec_peer(b, pos) {
                None => None,
                Some((p, next)) => Some((s.push(p), next)),
            },
        }
    }
}

/// The configuration that `b` holds, if `b` is exactly one valid configuration.
pub open spec fn dec_config(b: Seq<u8>) -> Option<ConfigurationModel> {
    if b.len() < INTERFACE_HEADER_LEN {
        None
    } else {
        let f = b[0];
        match dec_peers(b, INTERFACE_HEADER_LEN as int, rd32(b, IF_COUNT as int) as nat) {
            None => None,
            Some((peers, end)) => if end != b.len() {
                None
            } else {
                Some(
                    ConfigurationModel {
                        listen_port: if flag_set(f, 1) { Some(rd16(b, 1)) } else { None },
                        private_key: if flag_set(f, 2) { Some(b.subrange(IF_PRIVATE_KEY as int, IF_PUBLIC_KEY as int)) } else { None },
                        public_key: if flag_set(f, 4) { Some(b.subrange(IF_PUBLIC_KEY as int, IF_COUNT as int)) } else { None },
                        replace_peers: flag_set(f, 8),
                        peers,
                    },
                )
            },
        }
    }
}


/// Why a configuration could not be written or a buffer could not be read.
#[derive(Debug, Clone, Copy, PartialEq, Eq, Structural)]
pub enum CodecError {
    /// The configuration holds a key, address, prefix length or count that the
    /// layout cannot carry.
    InvalidConfiguration,
    /// The buffer is shorter or longer than its declared counts, or holds an
    /// unknown address family or an out-of-range prefix length.
    CorruptBuffer,
}

fn addr_len_of(v6: bool) -> (r: usize)
    ensures
        r == addr_len(v6),
{
    if v6 { 16 } else { 4 }
}

fn opt_key_ok(k: &Option<Vec<u8>>) -> (r: bool)
    ensures
        r == opt_key_wf(opt_bytes(*k)),
{
    match k {
        Some(k) => k.len() == KEY_LEN,
        None => true,
    }
}

impl AllowedIp {
    /// Whether the address has its family's length and the prefix length is
    /// within its family's bound.
    pub fn is_valid(&self) -> (r: bool)
        ensures
            r == ip_wf(self@),
    {
        self.address.len() == addr_len_of(self.v6) && self.cidr <= (if self.v6 { 128u8 } else { 32u8 })
    }
}

impl Peer {
    /// Whether this peer can be written.
    pub fn is_valid(&self) -> (r: bool)
        ensures
            r == peer_wf(self@),
    {
        if self.public_key.len() != KEY_LEN || !opt_key_ok(&self.preshared_key) {
            return false;
        }
        match &self.endpoint {
            Some(e) => {
                if e.address.len() != addr_len_of(e.v6) {
                    return false;
                }
            },
            None => {},
        }
        if self.allowed_ips.len() > 0xffff_ffff {
            return false;
        }
        let mut i: usize = 0;
        while i < self.allowed_ips.len()
            invariant
                i <= self.allowed_ips.len(),
                forall|j: int| 0 <= j < i ==> ip_wf(#[trigger] ips_view(self.allowed_ips@)[j]),
            decreases self.allowed_ips.len() - i,
        {
            if !self.allowed_ips[i].is_valid() {
                assert(!ip_wf(self@.allowed_ips[i as int]));
                return false;
            }
            i = i + 1;
        }
        true
    }
}

impl Configuration {
    /// Whether this configuration can be written.
    pub fn is_valid(&self) -> (r: bool)
        ensures
            r == config_wf(self@),
    {
        if !opt_key_ok(&self.private_key) || !opt_key_ok(&self.public_key) || self.peers.len() > 0xffff_ffff {
            return false;
        }
        let mut i: usize = 0;
        while i < self.peers.len()
            invariant
                i <= self.peers.len(),
                forall|j: int| 0 <= j < i ==> peer_wf(#[trigger] peers_view(self.peers@)[j]),
            decreases self.peers.len() - i,
        {
            if !self.peers[i].is_valid() {
                assert(!peer_wf(self@.peers[i as int]));
                return false;
            }
            i = i + 1;
        }
        true
    }
}

fn push_slot16(out: &mut Vec<u8>, a: &Vec<u8>)
    requires
        a@.len() <= 16,
    ensures
        final(out)@ == old(out)@ + slot16(a@),
{
    push_bytes(out, a);
    push_zeros(out, 16 - a.len());
    assert(a@ + zeros((16 - a@.len()) as nat) =~= slot16(a@));
    assert(final(out)@ =~= old(out)@ + slot16(a@));
}

fn push_key(out: &mut Vec<u8>, k: &Option<Vec<u8>>)
    ensures
        final(out)@ == old(out)@ + key_bytes(opt_bytes(*k)),
{
    match k {
        Some(k) => push_bytes(out, k),
        None => push_zeros(out, KEY_LEN),
    }
}

fn push_ip(out: &mut Vec<u8>, a: &AllowedIp)
    requires
        ip_wf(a@),
    ensures
        final(out)@ == old(out)@ + enc_ip(a@),
{
    out.push(if a.v6 { FAMILY_V6 } else { FAMILY_V4 });
    out.push(a.cidr);
    push_slot16(out, &a.address);
    assert(final(out)@ =~= old(out)@ + enc_ip(a@));
}

fn push_endpoint(out: &mut Vec<u8>, e: &Option<Endpoint>)
    requires
        endpoint_wf(opt_endpoint(*e)),
    ensures
        final(out)@ == old(out)@ + enc_endpoint(opt_endpoint(*e)),
{
    match e {
        Some(e) => {
            out.push(if e.v6 { FAMILY_V6 } else { FAMILY_V4 });
            push_le16(out, e.port);
            push_slot16(out, &e.address);
        },
        None => {
            push_zeros(out, 19);
        },
    }
    assert(final(out)@ =~= old(out)@ + enc_endpoint(opt_endpoint(*e)));
}

fn push_peer_header(out: &mut Vec<u8>, p: &Peer)
    requires
        peer_wf(p@),
    ensures
        final(out)@ == old(out)@ + peer_header(p@),
{
    let flags: u8 = (if p.preshared_key.is_some() { 1u8 } else { 0u8 }) + (if p.persistent_keepalive.is_some() {
        2u8
    } else {
        0u8
    }) + (if p.endpoint.is_some() { 4u8 } else { 0u8 }) + (if p.replace_allowed_ips { 8u8 } else { 0u8 });
    assert(flags == peer_flags(p@));
    out.push(flags);
    push_bytes(out, &p.public_key);
    push_key(out, &p.preshared_key);
    push_le16(
        out,
        match p.persistent_keepalive {
            Some(k) => k,
            None => 0,
        },
    );
    push_endpoint(out, &p.endpoint);
    push_le32(out, p.allowed_ips.len() as u32);
    assert(final(out)@ =~= old(out)@ + peer_header(p@));
}

fn push_peer(out: &mut Vec<u8>, p: &Peer)
    requires
        peer_wf(p@),
    ensures
        final(out)@ == old(out)@ + enc_peer(p@),
{
    let ghost start = out@;
    push_peer_header(out, p);
    let ghost mid = out@;
    assert(mid =~= start + peer_header(p@));
    let mut i: usize = 0;
    while i < p.allowed_ips.len()
        invariant
            i <= p.allowed_ips.len(),
            peer_wf(p@),
            out@ == mid + enc_ips(ips_view(p.allowed_ips@).take(i as int)),
        decreases p.allowed_ips.len() - i,
    {
        assert(ip_wf(ips_view(p.allowed_ips@)[i as int]));
        push_ip(out, &p.allowed_ips[i]);
        assert(ips_view(p.allowed_ips@).take(i + 1).drop_last() =~= ips_view(p.allowed_ips@).take(i as int));
        i = i + 1;
        assert(out@ =~= mid + enc_ips(ips_view(p.allowed_ips@).take(i as int)));
    }
    assert(ips_view(p.allowed_ips@).take(i as int) =~= ips_view(p.allowed_ips@));
    assert(out@ =~= start + enc_peer(p@));
}

/// Writes a configuration in the driver's layout, or refuses one that the
/// layout cannot carry before anything reaches the driver.
pub fn encode(c: &Configuration) -> (r: Result<Vec<u8>, CodecError>)
    ensures
        r is Ok <==> config_wf(c@),
        r matches Ok(b) ==> b@ == enc_config(c@),
        r matches Err(e) ==> e == CodecError::InvalidConfiguration,
{
    if !c.is_valid() {
        return Err(CodecError::InvalidConfiguration);
    }
    let mut out: Vec<u8> = Vec::new();
    let flags: u8 = (if c.listen_port.is_some() { 1u8 } else { 0u8 }) + (if c.private_key.is_some() {
        2u8
    } else {
        0u8
    }) + (if c.public_key.is_some() { 4u8 } else { 0u8 }) + (if c.replace_peers { 8u8 } else { 0u8 });
    out.push(flags);
    push_le16(
        &mut out,
        match c.listen_port {
            Some(p) => p,
            None => 0,
        },
    );
    push_key(&mut out, &c.private_key);
    push_key(&mut out, &c.public_key);
    push_le32(&mut out, c.peers.len() as u32);
    let ghost mid = out@;
    let mut i: usize = 0;
    while i < c.peers.len()
        invariant
            i <= c.peers.len(),
            config_wf(c@),
            out@ == mid + enc_peers(peers_view(c.peers@).take(i as int)),
        decreases c.peers.len() - i,
    {
        assert(peer_wf(peers_view(c.peers@)[i as int]));
        push_peer(&mut out, &c.peers[i]);
        assert(peers_view(c.peers@).take(i + 1).drop_last() =~= peers_view(c.peers@).take(i as int));
        i = i + 1;
        assert(out@ =~= mid + enc_peers(peers_view(c.peers@).take(i as int)));
    }
    assert(peers_view(c.peers@).take(i as int) =~= peers_view(c.peers@));
    assert(out@ =~= enc_config(c@));
    Ok(out)
}


proof fn lemma_dec_ips_none(b: Seq<u8>, at: int, i: nat, n: nat)
    requires
        i <= n,
        dec_ips(b, at, i) is None,
    ensures
        dec_ips(b, at, n) is None,
    decreases n,
{
    if n > i {
        lemma_dec_ips_none(b, at, i, (n - 1) as nat);
    }
}

proof fn lemma_dec_ips_bounds(b: Seq<u8>, at: int, n: nat)
    requires
        0 <= at <= b.len(),
        dec_ips(b, at, n) is Some,
    ensures
        at + IP_RECORD_LEN * n <= b.len(),
        dec_ips(b, at, n).unwrap().len() == n,
    decreases n,
{
    if n > 0 {
        lemma_dec_ips_bounds(b, at, (n - 1) as nat);
    }
}

proof fn lemma_dec_peers_none(b: Seq<u8>, at: int, i: nat, n: nat)
    requires
        i <= n,
        dec_peers(b, at, i) is None,
    ensures
        dec_peers(b, at, n) is None,
    decreases n,
{
    if n > i {
        lemma_dec_peers_none(b, at, i, (n - 1) as nat);
    }
}

fn decode_ip(b: &Vec<u8>, at: usize) -> (r: Option<AllowedIp>)
    requires
        at <= b@.len(),
    ensures
        match r {
            Some(a) => dec_ip(b@, at as int) == Some(a@),
            None => dec_ip(b@, at as int) is None,
        },
{
    let len = b.len();
    if len - at < IP_RECORD_LEN {
        return None;
    }
    let fam = b[at];
    let cidr = b[at + 1];
    if fam == FAMILY_V4 && cidr <= 32 {
        let address = read_bytes(b, at + 2, 4);
        Some(AllowedIp { v6: false, address, cidr })
    } else if fam == FAMILY_V6 && cidr <= 128 {
        let address = read_bytes(b, at + 2, 16);
        Some(AllowedIp { v6: true, address, cidr })
    } else {
        None
    }
}

fn decode_ips(b: &Vec<u8>, at: usize, n: u32) -> (r: Option<Vec<AllowedIp>>)
    requires
        at <= b@.len(),
    ensures
        match r {
            Some(v) => dec_ips(b@, at as int, n as nat) == Some(ips_view(v@)),
            None => dec_ips(b@, at as int, n as nat) is None,
        },
{
    let len = b.len();
    let mut v: Vec<AllowedIp> = Vec::new();
    let mut off: usize = at;
    let mut i: u32 = 0;
    while i < n
        invariant
            i <= n,
            len == b@.len(),
            at <= off <= len,
            off == at + IP_RECORD_LEN * i,
            dec_ips(b@, at as int, i as nat) == Some(ips_view(v@)),
        decreases n - i,
    {
        match decode_ip(b, off) {
            Some(a) => {
                let ghost prev = v@;
                v.push(a);
                assert(ips_view(v@) =~= ips_view(prev).push(a@));
                off = off + IP_RECORD_LEN;
                i = i + 1;
            },
            None => {
                proof {
                    lemma_dec_ips_none(b@, at as int, (i + 1) as nat, n as nat);
                }
                return None;
            },
        }
    }
    Some(v)
}

fn decode_peer(b: &Vec<u8>, pos: usize) -> (r: Option<(Peer, usize)>)
    requires
        pos <= b@.len(),
    ensures
        match r {
            Some((p, next)) => dec_peer(b@, pos as int) == Some((p@, next as int)) && next <= b@.len(),
            None => dec_peer(b@, pos as int) is None,
        },
{
    let len = b.len();
    if len - pos < PEER_HEADER_LEN {
        return None;
    }
    let f = b[pos];
    let has_endpoint = (f / 4) % 2 == 1;
    let ep_family = b[pos + PEER_ENDPOINT];
    if has_endpoint && ep_family != FAMILY_V4 && ep_family != FAMILY_V6 {
        return None;
    }
    let n = read_u32(b, pos + PEER_COUNT);
    let allowed_ips = match decode_ips(b, pos + PEER_HEADER_LEN, n) {
        Some(v) => v,
        None => return None,
    };
    proof {
        lemma_dec_ips_bounds(b@, pos + PEER_HEADER_LEN, n as nat);
    }
    let public_key = read_bytes(b, pos + PEER_PUBLIC_KEY, KEY_LEN);
    let preshared_key = if f % 2 == 1 {
        Some(read_bytes(b, pos + PEER_PRESHARED_KEY, KEY_LEN))
    } else {
        None
    };
    let persistent_keepalive = if (f / 2) % 2 == 1 {
        Some(read_u16(b, pos + PEER_KEEPALIVE))
    } else {
        None
    };
    let endpoint = if has_endpoint {
        let v6 = ep_family == FAMILY_V6;
        let address = read_bytes(b, pos + PEER_ENDPOINT + 3, addr_len_of(v6));
        Some(Endpoint { v6, address, port: read_u16(b, pos + PEER_ENDPOINT + 1) })
    } else {
        None
    };
    let next = pos + PEER_HEADER_LEN + IP_RECORD_LEN * (n as usize);
    let p = Peer {
        public_key,
        preshared_key,
        persistent_keepalive,
        endpoint,
        replace_allowed_ips: (f / 8) % 2 == 1,
        allowed_ips,
    };
    assert(p@ == dec_peer(b@, pos as int).unwrap().0);
    Some((p, next))
}

/// Reads a configuration from the driver's layout. Fails, without reading
/// outside the buffer, where the buffer is shorter or longer than its declared
/// counts or holds a field that the layout does not allow.
pub fn decode(b: &Vec<u8>) -> (r: Result<Configuration, CodecError>)
    ensures
        match r {
            Ok(c) => dec_config(b@) == Some(c@),
            Err(e) => dec_config(b@) is None && e == CodecError::CorruptBuffer,
        },
{
    let len = b.len();
    if len < INTERFACE_HEADER_LEN {
        return Err(CodecError::CorruptBuffer);
    }
    let n = read_u32(b, IF_COUNT);
    let mut peers: Vec<Peer> = Vec::new();
    let mut pos: usize = INTERFACE_HEADER_LEN;
    let mut i: u32 = 0;
    while i < n
        invariant
            i <= n,
            len == b@.len(),
            pos <= len,
            n == rd32(b@, IF_COUNT as int),
            dec_peers(b@, INTERFACE_HEADER_LEN as int, i as nat) == Some((peers_view(peers@), pos as int)),
        decreases n - i,
    {
        match decode_peer(b, pos) {
            Some((p, next)) => {
                let ghost prev = peers@;
                peers.push(p);
                assert(peers_view(peers@) =~= peers_view(prev).push(p@));
                pos = next;
                i = i + 1;
            },
            None => {
                proof {
                    lemma_dec_peers_none(b@, INTERFACE_HEADER_LEN as int, (i + 1) as nat, n as nat);
                }
                return Err(CodecError::CorruptBuffer);
            },
        }
    }
    if pos != len {
        return Err(CodecError::CorruptBuffer);
    }
    let f = b[0];
    let listen_port = if f % 2 == 1 {
        Some(read_u16(b, 1))
    } else {
        None
    };
    let private_key = if (f / 2) % 2 == 1 {
        Some(read_bytes(b, IF_PRIVATE_KEY, KEY_LEN))
    } else {
        None
    };
    let public_key = if (f / 4) % 2 == 1 {
        Some(read_bytes(b, IF_PUBLIC_KEY, KEY_LEN))
    } else {
        None
    };
    let c = Configuration { listen_port, private_key, public_key, replace_peers: (f / 8) % 2 == 1, peers };
    assert(c@ == dec_config(b@).unwrap());
    Ok(c)
}


proof fn lemma_dec_peers_extent(b: Seq<u8>, at: int, n: nat)
    requires
        dec_peers(b, at, n) is Some,
    ensures
        dec_peers(b, at, n).unwrap().1 >= at + PEER_HEADER_LEN * n,
    decreases n,
{
    if n > 0 {
        lemma_dec_peers_extent(b, at, (n - 1) as nat);
    }
}

/// A buffer too short for the interface header, or shorter than the fixed
/// headers of the peers that it declares, holds no configuration: `decode`
/// rejects it as corrupt.
pub proof fn lemma_truncated_buffer_rejected(b: Seq<u8>)
    requires
        b.len() < INTERFACE_HEADER_LEN || b.len() < INTERFACE_HEADER_LEN + PEER_HEADER_LEN * rd32(b, IF_COUNT as int),
    ensures
        dec_config(b) is None,
{
    if b.len() >= INTERFACE_HEADER_LEN {
        let n = rd32(b, IF_COUNT as int) as nat;
        if dec_peers(b, INTERFACE_HEADER_LEN as int, n) is Some {
            lemma_dec_peers_extent(b, INTERFACE_HEADER_LEN as int, n);
        }
    }
}

proof fn lemma_window(b: Seq<u8>, s: int, x: Seq<u8>, k: int)
    requires
        0 <= s,
        s + x.len() <= b.len(),
        b.subrange(s, s + x.len()) == x,
        0 <= k < x.len(),
    ensures
        b[s + k] == x[k],
{
    assert(b.subrange(s, s + x.len())[k] == b[s + k]);
}

proof fn lemma_enc_ips_len(s: Seq<AllowedIpModel>)
    ensures
        enc_ips(s).len() == IP_RECORD_LEN * s.len(),
    decreases s.len(),
{
    if s.len() > 0 {
        lemma_enc_ips_len(s.drop_last());
    }
}

proof fn lemma_ip_round_trip(b: Seq<u8>, at: int, a: AllowedIpModel)
    requires
        ip_wf(a),
        0 <= at,
        at + IP_RECORD_LEN <= b.len(),
        b.subrange(at, at + IP_RECORD_LEN) == enc_ip(a),
    ensures
        dec_ip(b, at) == Some(a),
{
    let x = enc_ip(a);
    lemma_window(b, at, x, 0);
    lemma_window(b, at, x, 1);
    let w = b.subrange(at + 2, at + 2 + a.address.len());
    assert forall|k: int| 0 <= k < a.address.len() implies w[k] == a.address[k] by {
        lemma_window(b, at, x, 2 + k);
    }
    assert(w =~= a.address);
}

proof fn lemma_ips_round_trip(b: Seq<u8>, at: int, s: Seq<AllowedIpModel>)
    requires
        forall|i: int| 0 <= i < s.len() ==> ip_wf(#[trigger] s[i]),
        0 <= at,
        at + enc_ips(s).len() <= b.len(),
        b.subrange(at, at + enc_ips(s).len()) == enc_ips(s),
    ensures
        dec_ips(b, at, s.len()) == Some(s),
    decreases s.len(),
{
    lemma_enc_ips_len(s);
    if s.len() > 0 {
        let init = s.drop_last();
        lemma_enc_ips_len(init);
        lemma_split(b, at, at + enc_ips(s).len(), enc_ips(init), enc_ip(s.last()));
        assert forall|i: int| 0 <= i < init.len() implies ip_wf(#[trigger] init[i]) by {
            assert(init[i] == s[i]);
        }
        lemma_ips_round_trip(b, at, init);
        assert(ip_wf(s[s.len() - 1]));
        lemma_ip_round_trip(b, at + IP_RECORD_LEN * (s.len() - 1), s.last());
        assert(init.push(s.last()) =~= s);
    }
}


proof fn lemma_bytes_window(b: Seq<u8>, s: int, x: Seq<u8>, k: int, n: int)
    requires
        0 <= s,
        s + x.len() <= b.len(),
        b.subrange(s, s + x.len()) == x,
        0 <= k,
        k + n <= x.len(),
        0 <= n,
    ensures
        b.subrange(s + k, s + k + n) == x.subrange(k, k + n),
{
    assert forall|i: int| 0 <= i < n implies #[trigger] b.subrange(s + k, s + k + n)[i] == x.subrange(k, k + n)[i] by {
        lemma_window(b, s, x, k + i);
    }
    assert(b.subrange(s + k, s + k + n) =~= x.subrange(k, k + n));
}

proof fn lemma_peer_round_trip(b: Seq<u8>, pos: int, p: PeerModel)
    requires
        peer_wf(p),
        0 <= pos,
        pos + enc_peer(p).len() <= b.len(),
        b.subrange(pos, pos + enc_peer(p).len()) == enc_peer(p),
    ensures
        dec_peer(b, pos) == Some((p, pos + enc_peer(p).len())),
{
    let ka: u16 = match p.persistent_keepalive {
        Some(k) => k,
        None => 0,
    };
    let h1 = seq![peer_flags(p)];
    let h2 = h1 + p.public_key;
    let h3 = h2 + key_bytes(p.preshared_key);
    let h4 = h3 + le16(ka);
    let ep = enc_endpoint(p.endpoint);
    let h5 = h4 + ep;
    let cnt = le32(p.allowed_ips.len() as u32);
    let end = pos + enc_peer(p).len();
    lemma_enc_ips_len(p.allowed_ips);
    assert(peer_header(p) == h5 + cnt);
    lemma_split(b, pos, end, peer_header(p), enc_ips(p.allowed_ips));
    lemma_split(b, pos, pos + PEER_HEADER_LEN, h5, cnt);
    lemma_split(b, pos, pos + PEER_COUNT, h4, ep);
    lemma_split(b, pos, pos + PEER_ENDPOINT, h3, le16(ka));
    lemma_split(b, pos, pos + PEER_KEEPALIVE, h2, key_bytes(p.preshared_key));
    lemma_split(b, pos, pos + PEER_PRESHARED_KEY, h1, p.public_key);
    lemma_rd32(b, pos + PEER_COUNT, p.allowed_ips.len() as u32);
    lemma_rd16(b, pos + PEER_KEEPALIVE, ka);
    lemma_window(b, pos, h1, 0);
    lemma_ips_round_trip(b, pos + PEER_HEADER_LEN, p.allowed_ips);
    let f = b[pos];
    assert(f == peer_flags(p));
    assert(flag_set(f, 1) == p.preshared_key is Some);
    assert(flag_set(f, 2) == p.persistent_keepalive is Some);
    assert(flag_set(f, 4) == p.endpoint is Some);
    assert(flag_set(f, 8) == p.replace_allowed_ips);
    match p.endpoint {
        Some(e) => {
            let e1 = seq![family(e.v6)];
            let e2 = e1 + le16(e.port);
            lemma_split(b, pos + PEER_ENDPOINT, pos + PEER_COUNT, e2, slot16(e.address));
            lemma_split(b, pos + PEER_ENDPOINT, pos + PEER_ENDPOINT + 3, e1, le16(e.port));
            lemma_window(b, pos + PEER_ENDPOINT, e1, 0);
            lemma_rd16(b, pos + PEER_ENDPOINT + 1, e.port);
            lemma_bytes_window(b, pos + PEER_ENDPOINT + 3, slot16(e.address), 0, e.address.len() as int);
            assert(slot16(e.address).subrange(0, e.address.len() as int) =~= e.address);
            assert(dec_endpoint(b, pos + PEER_ENDPOINT) == e);
        },
        None => {},
    }
    let d = dec_peer(b, pos).unwrap().0;
    assert(d.endpoint == p.endpoint);
    assert(d.public_key == p.public_key);
    assert(d.preshared_key == p.preshared_key);
    assert(d.persistent_keepalive == p.persistent_keepalive);
}


proof fn lemma_peers_round_trip(b: Seq<u8>, at: int, s: Seq<PeerModel>)
    requires
        forall|i: int| 0 <= i < s.len() ==> peer_wf(#[trigger] s[i]),
        0 <= at,
        at + enc_peers(s).len() <= b.len(),
        b.subrange(at, at + enc_peers(s).len()) == enc_peers(s),
    ensures
        dec_peers(b, at, s.len()) == Some((s, at + enc_peers(s).len())),
    decreases s.len(),
{
    if s.len() > 0 {
        let init = s.drop_last();
        lemma_split(b, at, at + enc_peers(s).len(), enc_peers(init), enc_peer(s.last()));
        assert forall|i: int| 0 <= i < init.len() implies peer_wf(#[trigger] init[i]) by {
            assert(init[i] == s[i]);
        }
        lemma_peers_round_trip(b, at, init);
        assert(peer_wf(s[s.len() - 1]));
        lemma_peer_round_trip(b, at + enc_peers(init).len(), s.last());
        assert(init.push(s.last()) =~= s);
    }
}

proof fn lemma_header_round_trip(b: Seq<u8>, c: ConfigurationModel)
    requires
        config_wf(c),
        INTERFACE_HEADER_LEN <= b.len(),
        b.subrange(0, INTERFACE_HEADER_LEN as int) == interface_header(c),
    ensures
        flag_set(b[0], 1) == c.listen_port is Some,
        flag_set(b[0], 2) == c.private_key is Some,
        flag_set(b[0], 4) == c.public_key is Some,
        flag_set(b[0], 8) == c.replace_peers,
        c.listen_port matches Some(p) ==> rd16(b, 1) == p,
        c.private_key matches Some(k) ==> b.subrange(IF_PRIVATE_KEY as int, IF_PUBLIC_KEY as int) == k,
        c.public_key matches Some(k) ==> b.subrange(IF_PUBLIC_KEY as int, IF_COUNT as int) == k,
        rd32(b, IF_COUNT as int) == c.peers.len(),
{
    let port: u16 = match c.listen_port {
        Some(p) => p,
        None => 0,
    };
    let h1 = seq![interface_flags(c)];
    let h2 = h1 + le16(port);
    let h3 = h2 + key_bytes(c.private_key);
    let h4 = h3 + key_bytes(c.public_key);
    let cnt = le32(c.peers.len() as u32);
    assert(interface_header(c) == h4 + cnt);
    lemma_split(b, 0, IF_COUNT + 4, h4, cnt);
    lemma_split(b, 0, IF_COUNT as int, h3, key_bytes(c.public_key));
    lemma_split(b, 0, IF_PUBLIC_KEY as int, h2, key_bytes(c.private_key));
    lemma_split(b, 0, IF_PRIVATE_KEY as int, h1, le16(port));
    lemma_window(b, 0, h1, 0);
    lemma_rd16(b, 1, port);
    lemma_rd32(b, IF_COUNT as int, c.peers.len() as u32);
    assert(b[0] == interface_flags(c));
}

/// Writing a well-formed configuration and reading the bytes back gives the
/// same configuration; absent optional fields come back absent.
pub proof fn lemma_round_trip(c: ConfigurationModel)
    requires
        config_wf(c),
    ensures
        dec_config(enc_config(c)) == Some(c),
{
    let b = enc_config(c);
    assert(b.subrange(0, b.len() as int) =~= b);
    lemma_split(b, 0, b.len() as int, interface_header(c), enc_peers(c.peers));
    lemma_header_round_trip(b, c);
    lemma_peers_round_trip(b, INTERFACE_HEADER_LEN as int, c.peers);
    let d = dec_config(b).unwrap();
    assert(d.listen_port == c.listen_port);
    assert(d.private_key == c.private_key);
    assert(d.public_key == c.public_key);
}

} // verus!
