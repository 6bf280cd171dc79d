use wireguard_nt::log::{level_from_code, log_record, trim_at_nul, LogLevel};

#[test]
fn levels_map() {
    assert_eq!(level_from_code(0), Some(LogLevel::Info));
    assert_eq!(level_from_code(1), Some(LogLevel::Warn));
    assert_eq!(level_from_code(2), Some(LogLevel::Error));
    assert_eq!(level_from_code(3), None);
    assert_eq!(level_from_code(-1), None);
}

#[test]
fn message_stops_at_nul() {
    let units: Vec<u16> = "Adapter up\0junk".encode_utf16().collect();
    assert_eq!(trim_at_nul(&units), "Adapter up".encode_utf16().collect::<Vec<u16>>());
    let r = log_record(0, 133_000_000_000_000_000, &units).unwrap();
    assert_eq!(r.level, LogLevel::Info);
    assert_eq!(r.timestamp, 133_000_000_000_000_000);
    assert_eq!(r.message, "Adapter up");
    assert!(!r.message.is_empty());
}

#[test]
fn message_without_nul_is_whole() {
    let units: Vec<u16> = "Gr\u{f6}\u{df}e \u{20ac}".encode_utf16().collect();
    let r = log_record(2, 1, &units).unwrap();
    assert_eq!(r.level, LogLevel::Error);
    assert_eq!(r.message, "Gr\u{f6}\u{df}e \u{20ac}");
}

#[test]
fn ill_formed_units_are_replaced() {
    let r = log_record(1, 0, &vec![0x48, 0xd800, 0x49]).unwrap();
    assert_eq!(r.message, "H\u{fffd}I");
}

#[test]
fn unknown_level_gives_no_record() {
    assert!(log_record(7, 0, &vec![0x41]).is_none());
}

#[test]
fn empty_message() {
    assert_eq!(log_record(0, 0, &vec![0]).unwrap().message, "");
    assert_eq!(log_record(0, 0, &vec![]).unwrap().message, "");
}

#[test]
fn non_empty_text_gives_non_empty_message() {
    let r = log_record(1, 5, &vec![0xdc00, 0]).unwrap();
    assert_eq!(r.level, LogLevel::Warn);
    assert_eq!(r.message, "\u{fffd}");
}
