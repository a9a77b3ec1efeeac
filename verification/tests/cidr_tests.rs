use cidr_sampler::addrfmt::format_addr;
use cidr_sampler::cidr::{parse_cidr, parse_quad};
use cidr_sampler::errors::ParseError;

#[test]
fn parse_slash_30_range() {
    assert_eq!(parse_cidr("192.168.1.0/30"), Ok((0xC0A8_0100, 0xC0A8_0103)));
}

#[test]
fn parse_is_deterministic_and_recompute_idempotent() {
    let first = parse_cidr("172.16.5.9/20");
    let second = parse_cidr("172.16.5.9/20");
    assert_eq!(first, second);
    let (start, end) = first.unwrap();
    let recomputed = parse_cidr(&format!("{}/20", format_addr(start))).unwrap();
    assert_eq!(recomputed, (start, end));
}

#[test]
fn range_size_is_power_of_two() {
    let (s0, e0) = parse_cidr("0.0.0.0/0").unwrap();
    assert_eq!(e0 as u64 - s0 as u64 + 1, 1u64 << 32);
    let (s24, e24) = parse_cidr("10.0.0.0/24").unwrap();
    assert_eq!(e24 as u64 - s24 as u64 + 1, 256);
    let (s32, e32) = parse_cidr("10.0.0.1/32").unwrap();
    assert_eq!(e32 as u64 - s32 as u64 + 1, 1);
    let (s31, e31) = parse_cidr("10.0.0.0/31").unwrap();
    assert_eq!(e31 as u64 - s31 as u64 + 1, 2);
}

#[test]
fn base_bits_below_prefix_are_masked_off() {
    assert_eq!(parse_cidr("192.168.1.37/30"), Ok((0xC0A8_0124, 0xC0A8_0127)));
    assert_eq!(parse_cidr("255.255.255.255/0"), Ok((0, 0xFFFF_FFFF)));
}

#[test]
fn malformed_cidr_is_rejected() {
    assert_eq!(parse_cidr("not-a-cidr"), Err(ParseError::MalformedCidr));
    assert_eq!(parse_cidr("1.2.3.4"), Err(ParseError::MalformedCidr));
    assert_eq!(parse_cidr("1.2.3.4/8/9"), Err(ParseError::MalformedCidr));
    assert_eq!(parse_cidr(""), Err(ParseError::MalformedCidr));
}

#[test]
fn invalid_prefix_is_rejected() {
    assert_eq!(parse_cidr("10.0.0.0/33"), Err(ParseError::InvalidPrefix));
    assert_eq!(parse_cidr("10.0.0.0/"), Err(ParseError::InvalidPrefix));
    assert_eq!(parse_cidr("10.0.0.0/x"), Err(ParseError::InvalidPrefix));
    assert_eq!(parse_cidr("10.0.0.0/-1"), Err(ParseError::InvalidPrefix));
}

#[test]
fn invalid_address_is_rejected() {
    assert_eq!(parse_cidr("999.0.0.0/24"), Err(ParseError::InvalidAddress));
    assert_eq!(parse_cidr("1.2.3/8"), Err(ParseError::InvalidAddress));
    assert_eq!(parse_cidr("1.2.3.4.5/8"), Err(ParseError::InvalidAddress));
    assert_eq!(parse_cidr("01.2.3.4/8"), Err(ParseError::InvalidAddress));
    assert_eq!(parse_cidr("1.2.3.256/8"), Err(ParseError::InvalidAddress));
    assert_eq!(parse_cidr("/8"), Err(ParseError::InvalidAddress));
    assert_eq!(parse_cidr("a.b.c.d/8"), Err(ParseError::InvalidAddress));
}

#[test]
fn prefix_with_leading_zeros_is_accepted() {
    assert_eq!(parse_cidr("10.0.0.1/032"), Ok((0x0A00_0001, 0x0A00_0001)));
}

#[test]
fn quad_parses_exact_values() {
    assert_eq!(parse_quad("0.0.0.0"), Some(0));
    assert_eq!(parse_quad("255.255.255.255"), Some(0xFFFF_FFFF));
    assert_eq!(parse_quad("1.2.3.4"), Some(0x0102_0304));
    assert_eq!(parse_quad("10.0.0.255"), Some(0x0A00_00FF));
    assert_eq!(parse_quad("1..2.3"), None);
    assert_eq!(parse_quad("1.2.3.04"), None);
}

#[test]
fn format_addr_renders_dotted_quads() {
    assert_eq!(format_addr(0), "0.0.0.0");
    assert_eq!(format_addr(0xFFFF_FFFF), "255.255.255.255");
    assert_eq!(format_addr(0x0102_0304), "1.2.3.4");
    assert_eq!(format_addr(0xC0A8_0101), "192.168.1.1");
}

#[test]
fn format_then_parse_round_trips() {
    let cases: [u32; 8] = [
        0,
        1,
        255,
        256,
        0x0A00_0001,
        0xC0A8_0100,
        0xFF00_00FF,
        0xFFFF_FFFF,
    ];
    for a in cases {
        assert_eq!(parse_quad(&format_addr(a)), Some(a));
    }
}
