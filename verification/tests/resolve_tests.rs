use hello_ip::client_ip_body;
use hello_ip::livez_body;
use hello_ip::resolve;
use hello_ip::Headers;
use hello_ip::IpAddress;

const FALLBACK: IpAddress = IpAddress::V4(10, 0, 0, 99);

fn headers(pairs: &[(&str, &str)]) -> Headers {
    let mut h = Headers::new();
    for (name, value) in pairs {
        h.insert(name.as_bytes().to_vec(), value.as_bytes().to_vec());
    }
    h
}

#[test]
fn forwarded_for_first_entry_wins() {
    let h = headers(&[("x-forwarded-for", "198.51.100.1, 10.0.0.1")]);
    assert_eq!(resolve(&h, FALLBACK), IpAddress::V4(198, 51, 100, 1));
    assert_eq!(client_ip_body(&h, FALLBACK), b"198.51.100.1".to_vec());
}

#[test]
fn real_ip_used_when_forwarded_for_unparseable() {
    let h = headers(&[("x-forwarded-for", "not-an-ip"), ("x-real-ip", "203.0.113.9")]);
    assert_eq!(resolve(&h, FALLBACK), IpAddress::V4(203, 0, 113, 9));
}

#[test]
fn real_ip_used_when_forwarded_for_absent() {
    let h = headers(&[("x-real-ip", "203.0.113.9")]);
    assert_eq!(resolve(&h, FALLBACK), IpAddress::V4(203, 0, 113, 9));
}

#[test]
fn client_ip_value_is_trimmed() {
    let h = headers(&[("x-client-ip", "  192.0.2.5  ")]);
    assert_eq!(resolve(&h, FALLBACK), IpAddress::V4(192, 0, 2, 5));
}

#[test]
fn forwarded_header_quoted_bracketed_ipv4_with_port() {
    let h = headers(&[("forwarded", "by=203.0.113.1; for=\"[192.0.2.33]:8080\"")]);
    assert_eq!(resolve(&h, FALLBACK), IpAddress::V4(192, 0, 2, 33));
}

#[test]
fn forwarded_header_plain_and_quoted_values() {
    let h = headers(&[("forwarded", "for=198.51.100.60;proto=http")]);
    assert_eq!(resolve(&h, FALLBACK), IpAddress::V4(198, 51, 100, 60));
    let h = headers(&[("forwarded", "by=203.0.113.1; for=\"198.51.100.61\"")]);
    assert_eq!(resolve(&h, FALLBACK), IpAddress::V4(198, 51, 100, 61));
}

#[test]
fn forwarded_bracketed_ipv6_with_port() {
    let h = headers(&[("forwarded", "by=203.0.113.1; for=\"[2001:db8::1]:8080\"")]);
    assert_eq!(resolve(&h, FALLBACK), IpAddress::V6(0x2001, 0xdb8, 0, 0, 0, 0, 0, 1));
}

#[test]
fn forwarded_bracketed_ipv6_without_port() {
    let h = headers(&[("forwarded", "for=\"[2001:db8::2]\"")]);
    assert_eq!(resolve(&h, FALLBACK), IpAddress::V6(0x2001, 0xdb8, 0, 0, 0, 0, 0, 2));
}

#[test]
fn forwarded_scan_skips_unparseable_segment() {
    let h = headers(&[("forwarded", "for=not-an-ip; for=198.51.100.7")]);
    assert_eq!(resolve(&h, FALLBACK), IpAddress::V4(198, 51, 100, 7));
}

#[test]
fn forwarded_prefix_is_case_sensitive() {
    let h = headers(&[("forwarded", "For=198.51.100.7")]);
    assert_eq!(resolve(&h, FALLBACK), FALLBACK);
}

#[test]
fn no_recognized_headers_gives_fallback() {
    let h = headers(&[("accept", "text/plain"), ("user-agent", "probe")]);
    assert_eq!(resolve(&h, FALLBACK), FALLBACK);
    let v6 = IpAddress::V6(0xfe80, 0, 0, 0, 0, 0, 0, 1);
    assert_eq!(resolve(&headers(&[]), v6), v6);
}

#[test]
fn unparseable_headers_give_fallback() {
    let h = headers(&[
        ("x-forwarded-for", "garbage"),
        ("x-real-ip", ""),
        ("x-client-ip", "999.1.2.3"),
        ("forwarded", "proto=https; by=203.0.113.1"),
    ]);
    assert_eq!(resolve(&h, FALLBACK), FALLBACK);
}

#[test]
fn header_lookup_is_case_insensitive() {
    let h = headers(&[("X-Forwarded-For", "198.51.100.1")]);
    assert_eq!(resolve(&h, FALLBACK), IpAddress::V4(198, 51, 100, 1));
    let h = headers(&[("X-REAL-IP", "203.0.113.9")]);
    assert_eq!(resolve(&h, FALLBACK), IpAddress::V4(203, 0, 113, 9));
}

#[test]
fn forwarded_for_outranks_later_headers() {
    let h = headers(&[
        ("x-forwarded-for", "198.51.100.1"),
        ("x-real-ip", "203.0.113.9"),
        ("x-client-ip", "192.0.2.5"),
        ("forwarded", "for=198.51.100.7"),
    ]);
    assert_eq!(resolve(&h, FALLBACK), IpAddress::V4(198, 51, 100, 1));
}

#[test]
fn first_matching_header_entry_is_used() {
    let h = headers(&[("x-real-ip", "203.0.113.9"), ("x-real-ip", "203.0.113.10")]);
    assert_eq!(resolve(&h, FALLBACK), IpAddress::V4(203, 0, 113, 9));
}

#[test]
fn forwarded_for_ipv6_entry_is_not_stripped_of_its_port() {
    // In the x-forwarded-for branch the first entry is only trimmed, never
    // cut at a colon or unbracketed, so a bracketed IPv6-with-port entry
    // fails to parse there; a bare IPv6 entry parses fine.
    let h = headers(&[("x-forwarded-for", "[::1]:9999"), ("x-real-ip", "203.0.113.9")]);
    assert_eq!(resolve(&h, FALLBACK), IpAddress::V4(203, 0, 113, 9));
    let h = headers(&[("x-forwarded-for", "2001:db8::1, 10.0.0.1")]);
    assert_eq!(resolve(&h, FALLBACK), IpAddress::V6(0x2001, 0xdb8, 0, 0, 0, 0, 0, 1));
}

#[test]
fn resolution_is_idempotent() {
    let h = headers(&[("x-forwarded-for", "198.51.100.1, 10.0.0.1"), ("x-real-ip", "junk")]);
    let first = resolve(&h, FALLBACK);
    let second = resolve(&h, FALLBACK);
    assert_eq!(first, second);
    assert_eq!(client_ip_body(&h, FALLBACK), client_ip_body(&h, FALLBACK));
}

#[test]
fn livez_is_fixed_and_independent_of_headers() {
    assert_eq!(livez_body(), "Healthy");
    assert_eq!(livez_body(), "Healthy");
}

#[test]
fn response_body_is_never_empty() {
    let h = headers(&[]);
    assert!(!client_ip_body(&h, FALLBACK).is_empty());
    assert!(!client_ip_body(&h, IpAddress::V6(0, 0, 0, 0, 0, 0, 0, 0)).is_empty());
}
