use dbip::addr::decode;
use dbip::addr::encode;
use dbip::parse_ip;
use dbip::text::int_or_zero;
use dbip::text::normalize_decimal;
use dbip::IpAddress;

#[test]
fn parses_dotted_quad() {
    assert_eq!(parse_ip("1.2.3.4"), Some(IpAddress::V4(0x0102_0304)));
    assert_eq!(parse_ip("0.0.0.0"), Some(IpAddress::V4(0)));
    assert_eq!(parse_ip("255.255.255.255"), Some(IpAddress::V4(u32::MAX)));
    assert_eq!(parse_ip("5.58.93.247"), Some(IpAddress::V4(0x053A_5DF7)));
}

#[test]
fn rejects_bad_dotted_quads() {
    assert_eq!(parse_ip(""), None);
    assert_eq!(parse_ip("1.2.3"), None);
    assert_eq!(parse_ip("1.2.3.4.5"), None);
    assert_eq!(parse_ip("256.1.1.1"), None);
    assert_eq!(parse_ip("01.2.3.4"), None);
    assert_eq!(parse_ip("1.2.3.x"), None);
    assert_eq!(parse_ip("1..2.3"), None);
}

#[test]
fn parses_ipv6_forms() {
    assert_eq!(parse_ip("::"), Some(IpAddress::V6(0)));
    assert_eq!(parse_ip("::1"), Some(IpAddress::V6(1)));
    assert_eq!(parse_ip("1::"), Some(IpAddress::V6(0x0001_u128 << 112)));
    assert_eq!(
        parse_ip("1:2:3:4:5:6:7:8"),
        Some(IpAddress::V6(0x0001_0002_0003_0004_0005_0006_0007_0008))
    );
    assert_eq!(
        parse_ip("2001:db8::ff00:42:8329"),
        Some(IpAddress::V6(0x2001_0db8_0000_0000_0000_ff00_0042_8329))
    );
    assert_eq!(
        parse_ip("1:2:3:4:5:6:7::"),
        Some(IpAddress::V6(0x0001_0002_0003_0004_0005_0006_0007_0000))
    );
    assert_eq!(
        parse_ip("::ffff:192.0.2.128"),
        Some(IpAddress::V6(0xffff_c000_0280))
    );
    assert_eq!(parse_ip("ABCD::ef01"), Some(IpAddress::V6(0xabcd_u128 << 112 | 0xef01)));
}

#[test]
fn rejects_bad_ipv6_forms() {
    assert_eq!(parse_ip(":"), None);
    assert_eq!(parse_ip(":::"), None);
    assert_eq!(parse_ip("1::2::3"), None);
    assert_eq!(parse_ip("1:2:3:4:5:6:7:8:9"), None);
    assert_eq!(parse_ip("1:2:3:4:5:6:7"), None);
    assert_eq!(parse_ip("12345::"), None);
    assert_eq!(parse_ip("g::1"), None);
    assert_eq!(parse_ip("1:2:3:4:5:6:7:8::"), None);
    assert_eq!(parse_ip("1.2.3.4::5"), None);
}

#[test]
fn encode_is_big_endian_and_decode_inverts_it() {
    let a = parse_ip("1.2.3.4").unwrap();
    let key = encode(&a);
    assert_eq!(key, vec![1, 2, 3, 4]);
    assert_eq!(decode(&key), 0x0102_0304);

    let b = parse_ip("2001:db8::1").unwrap();
    let key6 = encode(&b);
    assert_eq!(key6.len(), 16);
    assert_eq!(
        key6,
        vec![0x20, 0x01, 0x0d, 0xb8, 0, 0, 0, 0, 0, 0, 0, 0, 0, 0, 0, 1]
    );
    assert_eq!(decode(&key6), 0x2001_0db8_0000_0000_0000_0000_0000_0001);
}

#[test]
fn key_byte_order_matches_numeric_order_v4() {
    let ks: Vec<Vec<u8>> = ["1.0.0.0", "1.0.0.1", "2.0.0.0"]
        .iter()
        .map(|t| encode(&parse_ip(t).unwrap()))
        .collect();
    assert!(ks[0] < ks[1]);
    assert!(ks[1] < ks[2]);
    assert!(decode(&ks[0]) < decode(&ks[1]));
    assert!(decode(&ks[1]) < decode(&ks[2]));
}

#[test]
fn key_byte_order_matches_numeric_order_v6() {
    let ks: Vec<Vec<u8>> = ["::1", "::1:0", "1::", "ffff::"]
        .iter()
        .map(|t| encode(&parse_ip(t).unwrap()))
        .collect();
    for w in ks.windows(2) {
        assert!(w[0] < w[1]);
        assert!(decode(&w[0]) < decode(&w[1]));
    }
}

#[test]
fn normalize_decimal_keeps_numerals_and_zeroes_the_rest() {
    assert_eq!(normalize_decimal("34.05"), "34.05");
    assert_eq!(normalize_decimal("-118.25"), "-118.25");
    assert_eq!(normalize_decimal("+0.5"), "+0.5");
    assert_eq!(normalize_decimal("1e5"), "1e5");
    assert_eq!(normalize_decimal("-2.5E-3"), "-2.5E-3");
    assert_eq!(normalize_decimal("N/A"), "0");
    assert_eq!(normalize_decimal(""), "0");
    assert_eq!(normalize_decimal("."), "0");
    assert_eq!(normalize_decimal("1.2.3"), "0");
    assert_eq!(normalize_decimal("12,5"), "0");
}

#[test]
fn int_or_zero_parses_in_range_integers() {
    assert_eq!(int_or_zero("123"), 123);
    assert_eq!(int_or_zero("-42"), -42);
    assert_eq!(int_or_zero("+7"), 7);
    assert_eq!(int_or_zero("007"), 7);
    assert_eq!(int_or_zero("9223372036854775807"), i64::MAX);
    assert_eq!(int_or_zero("-9223372036854775808"), i64::MIN);
}

#[test]
fn int_or_zero_defaults_everything_else() {
    assert_eq!(int_or_zero(""), 0);
    assert_eq!(int_or_zero("12a"), 0);
    assert_eq!(int_or_zero("1.5"), 0);
    assert_eq!(int_or_zero("9223372036854775808"), 0);
    assert_eq!(int_or_zero("-9223372036854775809"), 0);
    assert_eq!(int_or_zero("99999999999999999999999"), 0);
    assert_eq!(int_or_zero("-"), 0);
}
