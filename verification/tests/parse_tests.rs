use ip_heatmap::parse::{parse_cidr, parse_ipv4, parse_record, parse_u32_token, parse_weight, Record};

#[test]
fn test_parse_ipv4_basic() {
    assert_eq!(parse_ipv4(b"1.2.3.4"), Some(0x0102_0304));
    assert_eq!(parse_ipv4(b"0.0.0.0"), Some(0));
    assert_eq!(parse_ipv4(b"255.255.255.255"), Some(u32::MAX));
    assert_eq!(parse_ipv4(b"10.0.0.0"), Some(10 << 24));
}

#[test]
fn test_parse_ipv4_rejects_malformed() {
    assert_eq!(parse_ipv4(b""), None);
    assert_eq!(parse_ipv4(b"1.2.3"), None);
    assert_eq!(parse_ipv4(b"1.2.3.4.5"), None);
    assert_eq!(parse_ipv4(b"1.2.3.256"), None);
    assert_eq!(parse_ipv4(b"1.2.3.999"), None);
    assert_eq!(parse_ipv4(b"01.2.3.4"), None);
    assert_eq!(parse_ipv4(b"1..3.4"), None);
    assert_eq!(parse_ipv4(b"1.2.3.x"), None);
    assert_eq!(parse_ipv4(b".2.3.4"), None);
    assert_eq!(parse_ipv4(b"1.2.3."), None);
}

#[test]
fn test_parse_u32_token_values() {
    assert_eq!(parse_u32_token(b"0"), Some(0));
    assert_eq!(parse_u32_token(b"16909060"), Some(16909060));
    assert_eq!(parse_u32_token(b"4294967295"), Some(u32::MAX));
    assert_eq!(parse_u32_token(b"4294967296"), None);
    assert_eq!(parse_u32_token(b"99999999999999"), None);
    assert_eq!(parse_u32_token(b""), None);
}

#[test]
fn test_parse_weight_defaults_to_one() {
    assert_eq!(parse_weight(b"5"), 5);
    assert_eq!(parse_weight(b"-3"), -3);
    assert_eq!(parse_weight(b"+7"), 7);
    assert_eq!(parse_weight(b"2147483647"), i32::MAX);
    assert_eq!(parse_weight(b"-2147483648"), i32::MIN);
    assert_eq!(parse_weight(b"2147483648"), 1);
    assert_eq!(parse_weight(b"abc"), 1);
    assert_eq!(parse_weight(b""), 1);
}

#[test]
fn test_parse_cidr_blocks() {
    assert_eq!(parse_cidr(b"10.0.0.0/8"), Some((0x0A00_0000, 0x0AFF_FFFF)));
    // Host bits inside the written address are masked away.
    assert_eq!(parse_cidr(b"10.1.2.3/8"), Some((0x0A00_0000, 0x0AFF_FFFF)));
    assert_eq!(parse_cidr(b"1.2.3.4/32"), Some((0x0102_0304, 0x0102_0304)));
    assert_eq!(parse_cidr(b"9.9.9.9/0"), Some((0, u32::MAX)));
    assert_eq!(parse_cidr(b"192.0.0.0/2"), Some((192 << 24, u32::MAX)));
}

#[test]
fn test_parse_cidr_rejects_malformed() {
    assert_eq!(parse_cidr(b"10.0.0.0/33"), None);
    assert_eq!(parse_cidr(b"10.0.0.0/"), None);
    assert_eq!(parse_cidr(b"10.0.0.0/x"), None);
    assert_eq!(parse_cidr(b"bogus/8"), None);
    assert_eq!(parse_cidr(b"10.0.0.0"), None);
    assert_eq!(parse_cidr(b"1.2.3.4/8/9"), None);
}

#[test]
fn test_parse_record_classification() {
    assert_eq!(parse_record(b""), Record::Blank);
    assert_eq!(parse_record(b"   "), Record::Blank);
    assert_eq!(parse_record(b"1.2.3.4 5"), Record::Single { addr: 0x0102_0304, value: 5 });
    assert_eq!(parse_record(b"16909060"), Record::Single { addr: 16909060, value: 1 });
    assert_eq!(
        parse_record(b"10.0.0.0/8 2"),
        Record::Range { first: 0x0A00_0000, last: 0x0AFF_FFFF, value: 2 }
    );
    assert_eq!(parse_record(b"10.0.0.0/33"), Record::SkippedRange);
    assert_eq!(parse_record(b"bogus/8 1"), Record::SkippedRange);
    assert_eq!(parse_record(b"bogus 1"), Record::BadAddress);
    assert_eq!(parse_record(b"1.2.3.999"), Record::BadAddress);
    assert_eq!(parse_record(b"99999999999999"), Record::BadAddress);
}

#[test]
fn test_parse_record_separators() {
    // Commas and whitespace both separate fields.
    assert_eq!(parse_record(b"1.2.3.4,5"), Record::Single { addr: 0x0102_0304, value: 5 });
    assert_eq!(parse_record(b"\t1.2.3.4\t5\r"), Record::Single { addr: 0x0102_0304, value: 5 });
    // An unparsable weight falls back to one; extra fields are ignored.
    assert_eq!(parse_record(b"1.2.3.4 abc"), Record::Single { addr: 0x0102_0304, value: 1 });
    assert_eq!(parse_record(b"1.2.3.4 5 9"), Record::Single { addr: 0x0102_0304, value: 5 });
}
