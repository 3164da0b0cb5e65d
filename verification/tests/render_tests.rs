use hello_ip::ip_to_text;
use hello_ip::parse_ip_bytes;
use hello_ip::IpAddress;

fn text(ip: IpAddress) -> String {
    String::from_utf8(ip_to_text(&ip)).unwrap()
}

#[test]
fn renders_ipv4() {
    assert_eq!(text(IpAddress::V4(203, 0, 113, 7)), "203.0.113.7");
    assert_eq!(text(IpAddress::V4(0, 0, 0, 0)), "0.0.0.0");
    assert_eq!(text(IpAddress::V4(255, 255, 255, 255)), "255.255.255.255");
}

#[test]
fn renders_ipv6_special_forms() {
    assert_eq!(text(IpAddress::V6(0, 0, 0, 0, 0, 0, 0, 0)), "::");
    assert_eq!(text(IpAddress::V6(0, 0, 0, 0, 0, 0, 0, 1)), "::1");
}

#[test]
fn renders_ipv6_compressed() {
    assert_eq!(text(IpAddress::V6(0x2001, 0xdb8, 0, 0, 0, 0, 0, 1)), "2001:db8::1");
    assert_eq!(text(IpAddress::V6(1, 0, 0, 0, 0, 0, 0, 0)), "1::");
}

#[test]
fn single_zero_group_is_not_compressed() {
    assert_eq!(text(IpAddress::V6(1, 0, 2, 3, 4, 5, 6, 7)), "1:0:2:3:4:5:6:7");
}

#[test]
fn compresses_longest_run_leftmost_on_tie() {
    assert_eq!(text(IpAddress::V6(1, 0, 0, 2, 0, 0, 0, 3)), "1:0:0:2::3");
    assert_eq!(text(IpAddress::V6(1, 0, 0, 2, 3, 0, 0, 4)), "1::2:3:0:0:4");
}

#[test]
fn renders_ipv4_mapped_in_mixed_notation() {
    assert_eq!(text(IpAddress::V6(0, 0, 0, 0, 0, 0xffff, 0xc000, 0x0201)), "::ffff:192.0.2.1");
}

#[test]
fn rendering_is_lowercase_hex_without_leading_zeros() {
    assert_eq!(text(IpAddress::V6(0xABCD, 0, 0, 0, 0, 0, 0, 0x00EF)), "abcd::ef");
}

#[test]
fn rendered_text_parses_back() {
    let samples = vec![
        IpAddress::V4(198, 51, 100, 1),
        IpAddress::V6(0x2001, 0xdb8, 0, 0, 0, 0, 0, 1),
        IpAddress::V6(0, 0, 0, 0, 0, 0, 0, 0),
        IpAddress::V6(1, 0, 2, 3, 4, 5, 6, 7),
        IpAddress::V6(0, 0, 0, 0, 0, 0xffff, 0xc000, 0x0201),
    ];
    for ip in samples {
        assert_eq!(parse_ip_bytes(&ip_to_text(&ip)), Some(ip));
    }
}

#[test]
fn rendered_text_is_never_empty() {
    assert!(!ip_to_text(&IpAddress::V4(0, 0, 0, 0)).is_empty());
    assert!(!ip_to_text(&IpAddress::V6(0, 0, 0, 0, 0, 0, 0, 0)).is_empty());
}
