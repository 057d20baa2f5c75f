use ipecho::ip::{format_ip, parse_ip, parse_ipv4, parse_ipv6, u16_to_dec, IpAddress};

fn fmt(a: IpAddress) -> String {
    String::from_utf8(format_ip(&a)).unwrap()
}

#[test]
fn parses_plain_ipv4() {
    assert_eq!(parse_ip(b"203.0.113.5"), Some(IpAddress::V4(203, 0, 113, 5)));
    assert_eq!(parse_ip(b"0.0.0.0"), Some(IpAddress::V4(0, 0, 0, 0)));
    assert_eq!(parse_ip(b"255.255.255.255"), Some(IpAddress::V4(255, 255, 255, 255)));
    assert_eq!(parse_ipv4(b"10.0.0.1"), Some((10, 0, 0, 1)));
}

#[test]
fn rejects_malformed_ipv4() {
    assert_eq!(parse_ip(b"256.0.0.1"), None);
    assert_eq!(parse_ip(b"01.2.3.4"), None);
    assert_eq!(parse_ip(b"1.2.3"), None);
    assert_eq!(parse_ip(b"1.2.3.4.5"), None);
    assert_eq!(parse_ip(b""), None);
    assert_eq!(parse_ip(b" 1.2.3.4"), None);
    assert_eq!(parse_ip(b"1.2.3.4 "), None);
    assert_eq!(parse_ip(b"not-an-ip"), None);
    assert_eq!(parse_ip(b"1.2.3."), None);
    assert_eq!(parse_ip(b".1.2.3.4"), None);
}

#[test]
fn parses_plain_ipv6() {
    assert_eq!(parse_ip(b"::"), Some(IpAddress::V6(0, 0, 0, 0, 0, 0, 0, 0)));
    assert_eq!(parse_ip(b"::1"), Some(IpAddress::V6(0, 0, 0, 0, 0, 0, 0, 1)));
    assert_eq!(
        parse_ip(b"1:2:3:4:5:6:7:8"),
        Some(IpAddress::V6(1, 2, 3, 4, 5, 6, 7, 8))
    );
    assert_eq!(
        parse_ip(b"2001:db8::ff00:42:8329"),
        Some(IpAddress::V6(0x2001, 0xdb8, 0, 0, 0, 0xff00, 0x42, 0x8329))
    );
    assert_eq!(
        parse_ip(b"ABCD::ef01"),
        Some(IpAddress::V6(0xabcd, 0, 0, 0, 0, 0, 0, 0xef01))
    );
    assert_eq!(
        parse_ip(b"1:2:3:4:5:6:7::"),
        Some(IpAddress::V6(1, 2, 3, 4, 5, 6, 7, 0))
    );
}

#[test]
fn parses_embedded_ipv4_in_ipv6() {
    assert_eq!(
        parse_ip(b"::ffff:192.0.2.128"),
        Some(IpAddress::V6(0, 0, 0, 0, 0, 0xffff, 0xc000, 0x0280))
    );
    assert_eq!(
        parse_ipv6(b"1:2:3:4:5:6:1.2.3.4"),
        Some((1, 2, 3, 4, 5, 6, 0x0102, 0x0304))
    );
}

#[test]
fn rejects_malformed_ipv6() {
    assert_eq!(parse_ip(b"1::2::3"), None);
    assert_eq!(parse_ip(b":::"), None);
    assert_eq!(parse_ip(b"1:2:3:4:5:6:7:8:9"), None);
    assert_eq!(parse_ip(b"::1:2:3:4:5:6:7:8"), None);
    assert_eq!(parse_ip(b"12345::"), None);
    assert_eq!(parse_ip(b"1:2:3:4:5:6:7"), None);
    assert_eq!(parse_ip(b"g::1"), None);
    assert_eq!(parse_ip(b":1::2"), None);
    assert_eq!(parse_ip(b"1:::2"), None);
    assert_eq!(parse_ip(b"1.2.3.4::"), None);
}

#[test]
fn formats_ipv4() {
    assert_eq!(fmt(IpAddress::V4(203, 0, 113, 5)), "203.0.113.5");
    assert_eq!(fmt(IpAddress::V4(0, 0, 0, 0)), "0.0.0.0");
    assert_eq!(fmt(IpAddress::V4(255, 255, 255, 255)), "255.255.255.255");
}

#[test]
fn formats_ipv6_with_compression() {
    assert_eq!(fmt(IpAddress::V6(0, 0, 0, 0, 0, 0, 0, 0)), "::");
    assert_eq!(fmt(IpAddress::V6(0, 0, 0, 0, 0, 0, 0, 1)), "::1");
    assert_eq!(fmt(IpAddress::V6(0x2001, 0xdb8, 0, 0, 0, 0, 0, 1)), "2001:db8::1");
    assert_eq!(fmt(IpAddress::V6(1, 2, 3, 4, 5, 6, 7, 8)), "1:2:3:4:5:6:7:8");
    assert_eq!(fmt(IpAddress::V6(1, 0, 2, 3, 4, 5, 6, 7)), "1:0:2:3:4:5:6:7");
    assert_eq!(fmt(IpAddress::V6(1, 0, 0, 2, 0, 0, 0, 3)), "1:0:0:2::3");
    assert_eq!(fmt(IpAddress::V6(1, 0, 0, 2, 0, 0, 3, 4)), "1::2:0:0:3:4");
    assert_eq!(fmt(IpAddress::V6(1, 2, 3, 4, 5, 6, 7, 0)), "1:2:3:4:5:6:7:0");
    assert_eq!(fmt(IpAddress::V6(0xabcd, 0, 0, 0, 0, 0, 0, 0xef01)), "abcd::ef01");
}

#[test]
fn format_then_parse_returns_the_address() {
    let cases = [
        IpAddress::V4(203, 0, 113, 5),
        IpAddress::V4(0, 0, 0, 0),
        IpAddress::V6(0, 0, 0, 0, 0, 0, 0, 1),
        IpAddress::V6(0x2001, 0xdb8, 0, 0, 0, 0xff00, 0x42, 0x8329),
        IpAddress::V6(1, 0, 0, 2, 0, 0, 0, 3),
    ];
    for a in cases {
        assert_eq!(parse_ip(&format_ip(&a)), Some(a));
    }
}

#[test]
fn decimal_port_text() {
    assert_eq!(String::from_utf8(u16_to_dec(0)).unwrap(), "0");
    assert_eq!(String::from_utf8(u16_to_dec(8080)).unwrap(), "8080");
    assert_eq!(String::from_utf8(u16_to_dec(54321)).unwrap(), "54321");
    assert_eq!(String::from_utf8(u16_to_dec(65535)).unwrap(), "65535");
}
