use gen_proxy::ip::{parse_ip, parse_ipv4, parse_ipv6, parse_octet, IpAddress};

#[test]
fn ipv4_literals_parse() {
    assert_eq!(parse_ip("10.0.0.1"), Some(IpAddress::V4(10, 0, 0, 1)));
    assert_eq!(parse_ip("0.0.0.0"), Some(IpAddress::V4(0, 0, 0, 0)));
    assert_eq!(
        parse_ip("255.255.255.255"),
        Some(IpAddress::V4(255, 255, 255, 255))
    );
    assert_eq!(parse_ipv4("192.168.1.42"), Some(IpAddress::V4(192, 168, 1, 42)));
}

#[test]
fn ipv4_rejects_bad_octets() {
    assert_eq!(parse_ipv4("256.0.0.1"), None);
    assert_eq!(parse_ipv4("01.2.3.4"), None);
    assert_eq!(parse_ipv4("1.2.3"), None);
    assert_eq!(parse_ipv4("1.2.3.4.5"), None);
    assert_eq!(parse_ipv4("1.2.3."), None);
    assert_eq!(parse_ipv4("1.2.3.a"), None);
    assert_eq!(parse_ipv4(""), None);
    assert_eq!(parse_ipv4("1.2.3.+4"), None);
}

#[test]
fn octet_texts() {
    assert_eq!(parse_octet("0"), Some(0));
    assert_eq!(parse_octet("255"), Some(255));
    assert_eq!(parse_octet("256"), None);
    assert_eq!(parse_octet("00"), None);
    assert_eq!(parse_octet("007"), None);
    assert_eq!(parse_octet("1000"), None);
    assert_eq!(parse_octet(""), None);
}

#[test]
fn ipv6_full_form_parses() {
    assert_eq!(
        parse_ipv6("1:2:3:4:5:6:7:8"),
        Some(IpAddress::V6(1, 2, 3, 4, 5, 6, 7, 8))
    );
    assert_eq!(
        parse_ipv6("fe80:0:0:0:0:0:0:1"),
        Some(IpAddress::V6(0xfe80, 0, 0, 0, 0, 0, 0, 1))
    );
    assert_eq!(
        parse_ipv6("FFFF:abcd:0:0:0:0:0:0"),
        Some(IpAddress::V6(0xffff, 0xabcd, 0, 0, 0, 0, 0, 0))
    );
}

#[test]
fn ipv6_compressed_forms_parse() {
    assert_eq!(parse_ipv6("::"), Some(IpAddress::V6(0, 0, 0, 0, 0, 0, 0, 0)));
    assert_eq!(parse_ipv6("::1"), Some(IpAddress::V6(0, 0, 0, 0, 0, 0, 0, 1)));
    assert_eq!(parse_ipv6("1::"), Some(IpAddress::V6(1, 0, 0, 0, 0, 0, 0, 0)));
    assert_eq!(
        parse_ipv6("1::2"),
        Some(IpAddress::V6(1, 0, 0, 0, 0, 0, 0, 2))
    );
    assert_eq!(
        parse_ipv6("fe80::a:b"),
        Some(IpAddress::V6(0xfe80, 0, 0, 0, 0, 0, 0xa, 0xb))
    );
    assert_eq!(
        parse_ipv6("1:2:3:4:5:6:7::"),
        Some(IpAddress::V6(1, 2, 3, 4, 5, 6, 7, 0))
    );
    assert_eq!(
        parse_ipv6("::1:2:3:4:5:6:7"),
        Some(IpAddress::V6(0, 1, 2, 3, 4, 5, 6, 7))
    );
    assert_eq!(
        parse_ipv6("1:2:3::5:6:7:8"),
        Some(IpAddress::V6(1, 2, 3, 0, 5, 6, 7, 8))
    );
}

#[test]
fn ipv6_rejects_malformed() {
    assert_eq!(parse_ipv6(""), None);
    assert_eq!(parse_ipv6(":"), None);
    assert_eq!(parse_ipv6(":::"), None);
    assert_eq!(parse_ipv6("1:2"), None);
    assert_eq!(parse_ipv6("1:2:3:4:5:6:7"), None);
    assert_eq!(parse_ipv6("1:2:3:4:5:6:7:8:9"), None);
    assert_eq!(parse_ipv6("1:2:3:4:5:6:7:8::"), None);
    assert_eq!(parse_ipv6("1::2::3"), None);
    assert_eq!(parse_ipv6("12345::"), None);
    assert_eq!(parse_ipv6("g::1"), None);
    assert_eq!(parse_ipv6(":1:2:3:4:5:6:7"), None);
    assert_eq!(parse_ipv6("1:2:3:4:5:6:7:"), None);
}

#[test]
fn plain_tokens_are_no_address() {
    assert_eq!(parse_ip("example.com"), None);
    assert_eq!(parse_ip("fe80"), None);
    assert_eq!(parse_ip("localhost"), None);
}

#[test]
fn rendered_v4_text_round_trips() {
    let a = IpAddress::V4(10, 0, 0, 1);
    assert_eq!(a.to_text(), "10.0.0.1");
    assert_eq!(parse_ip(&a.to_text()), Some(a));

    let b = IpAddress::V4(255, 255, 255, 255);
    assert_eq!(b.to_text(), "255.255.255.255");
    assert_eq!(parse_ip(&b.to_text()), Some(b));
}

#[test]
fn rendered_v6_text_round_trips() {
    let a = IpAddress::V6(0, 0, 0, 0, 0, 0, 0, 1);
    assert_eq!(a.to_text(), "0:0:0:0:0:0:0:1");
    assert_eq!(parse_ip(&a.to_text()), Some(a));

    let b = IpAddress::V6(0xfe80, 0, 0, 0, 0x1234, 0xabcd, 0xffff, 9);
    assert_eq!(b.to_text(), "fe80:0:0:0:1234:abcd:ffff:9");
    assert_eq!(parse_ip(&b.to_text()), Some(b));
}
