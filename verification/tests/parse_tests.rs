use hello_ip::parse_ip_bytes;
use hello_ip::IpAddress;

fn parse(s: &str) -> Option<IpAddress> {
    parse_ip_bytes(&s.as_bytes().to_vec())
}

#[test]
fn ipv4_plain() {
    assert_eq!(parse("192.0.2.5"), Some(IpAddress::V4(192, 0, 2, 5)));
    assert_eq!(parse("0.0.0.0"), Some(IpAddress::V4(0, 0, 0, 0)));
    assert_eq!(parse("255.255.255.255"), Some(IpAddress::V4(255, 255, 255, 255)));
}

#[test]
fn ipv4_rejects_leading_zero() {
    assert_eq!(parse("127.00.0.1"), None);
    assert_eq!(parse("01.2.3.4"), None);
}

#[test]
fn ipv4_rejects_out_of_range_octet() {
    assert_eq!(parse("256.1.1.1"), None);
    assert_eq!(parse("1.2.3.999"), None);
}

#[test]
fn ipv4_rejects_malformed() {
    assert_eq!(parse(""), None);
    assert_eq!(parse("1.2.3"), None);
    assert_eq!(parse("1.2.3.4.5"), None);
    assert_eq!(parse("1.2.3.4 "), None);
    assert_eq!(parse(" 1.2.3.4"), None);
    assert_eq!(parse("not-an-ip"), None);
}

#[test]
fn ipv6_full_form() {
    assert_eq!(
        parse("2001:db8:0:0:0:0:0:1"),
        Some(IpAddress::V6(0x2001, 0xdb8, 0, 0, 0, 0, 0, 1))
    );
    assert_eq!(
        parse("1:2:3:4:5:6:7:8"),
        Some(IpAddress::V6(1, 2, 3, 4, 5, 6, 7, 8))
    );
}

#[test]
fn ipv6_compressed() {
    assert_eq!(parse("2001:db8::1"), Some(IpAddress::V6(0x2001, 0xdb8, 0, 0, 0, 0, 0, 1)));
    assert_eq!(parse("::"), Some(IpAddress::V6(0, 0, 0, 0, 0, 0, 0, 0)));
    assert_eq!(parse("::1"), Some(IpAddress::V6(0, 0, 0, 0, 0, 0, 0, 1)));
    assert_eq!(parse("1::"), Some(IpAddress::V6(1, 0, 0, 0, 0, 0, 0, 0)));
    assert_eq!(parse("1:2:3:4:5:6:7::"), Some(IpAddress::V6(1, 2, 3, 4, 5, 6, 7, 0)));
}

#[test]
fn ipv6_embedded_ipv4() {
    assert_eq!(
        parse("::ffff:192.0.2.1"),
        Some(IpAddress::V6(0, 0, 0, 0, 0, 0xffff, 0xc000, 0x0201))
    );
    assert_eq!(
        parse("1:2:3:4:5:6:1.2.3.4"),
        Some(IpAddress::V6(1, 2, 3, 4, 5, 6, 0x0102, 0x0304))
    );
}

#[test]
fn ipv6_hex_case_insensitive() {
    assert_eq!(parse("ABCD::"), Some(IpAddress::V6(0xabcd, 0, 0, 0, 0, 0, 0, 0)));
    assert_eq!(parse("AbCd::eF"), Some(IpAddress::V6(0xabcd, 0, 0, 0, 0, 0, 0, 0xef)));
}

#[test]
fn ipv6_rejects_malformed() {
    assert_eq!(parse("1::2::3"), None);
    assert_eq!(parse("12345::"), None);
    assert_eq!(parse(":::"), None);
    assert_eq!(parse("1:2:3:4:5:6:7:8:9"), None);
    assert_eq!(parse("1:2:3:4:5:6:7"), None);
    assert_eq!(parse("2001"), None);
    assert_eq!(parse("[::1]"), None);
    assert_eq!(parse("::1 "), None);
}

#[test]
fn ipv6_rejects_ipv4_part_before_end() {
    assert_eq!(parse("1.2.3.4::"), None);
    assert_eq!(parse("::1.2.3.4:5"), None);
}
