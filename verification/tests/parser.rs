use gen_proxy::endpoint::{parse_line, parse_port, Endpoint, EndpointKind, LineError};
use gen_proxy::ip::IpAddress;

fn ok_line(line: &str, default: EndpointKind) -> Endpoint {
    match parse_line(line, default) {
        Ok(e) => e,
        Err(err) => panic!("line {:?} unexpectedly failed: {:?}", line, err),
    }
}

#[test]
fn two_field_line_uses_default_kind() {
    let e = ok_line("10.0.0.1:1080", EndpointKind::Socks5);
    assert_eq!(e.name, "10.0.0.1 - 1080");
    assert_eq!(e.address, IpAddress::V4(10, 0, 0, 1));
    assert_eq!(e.port, 1080);
    assert_eq!(e.kind, EndpointKind::Socks5);

    let e = ok_line("10.0.0.1:1080", EndpointKind::Http);
    assert_eq!(e.kind, EndpointKind::Http);
}

#[test]
fn three_field_line_normalizes_kind() {
    let e = ok_line("10.0.0.2:8080:https", EndpointKind::Socks5);
    assert_eq!(e.name, "10.0.0.2 - 8080");
    assert_eq!(e.address, IpAddress::V4(10, 0, 0, 2));
    assert_eq!(e.port, 8080);
    assert_eq!(e.kind, EndpointKind::Https);

    let e = ok_line("10.0.0.2:8080:HTTPS", EndpointKind::Socks5);
    assert_eq!(e.kind, EndpointKind::Https);

    let e = ok_line("10.0.0.2:8080:SoCkS4", EndpointKind::Socks5);
    assert_eq!(e.kind, EndpointKind::Socks4);
}

#[test]
fn name_keeps_raw_port_text() {
    let e = ok_line("10.0.0.1:0080", EndpointKind::Socks5);
    assert_eq!(e.name, "10.0.0.1 - 0080");
    assert_eq!(e.port, 80);
}

#[test]
fn wrong_field_count_is_reported_not_fatal() {
    assert_eq!(
        parse_line("10.0.0.1", EndpointKind::Socks5),
        Err(LineError::WrongFieldCount)
    );
    assert_eq!(
        parse_line("bad:line:here:extra", EndpointKind::Socks5),
        Err(LineError::WrongFieldCount)
    );
    assert_eq!(parse_line("", EndpointKind::Socks5), Err(LineError::WrongFieldCount));
}

#[test]
fn bad_port_is_reported() {
    assert_eq!(
        parse_line("10.0.0.1:port", EndpointKind::Socks5),
        Err(LineError::BadPort)
    );
    assert_eq!(
        parse_line("10.0.0.1:", EndpointKind::Socks5),
        Err(LineError::BadPort)
    );
    assert_eq!(
        parse_line("10.0.0.1:4294967296", EndpointKind::Socks5),
        Err(LineError::BadPort)
    );
}

#[test]
fn bad_kind_is_reported() {
    assert_eq!(
        parse_line("10.0.0.1:80:ftp", EndpointKind::Socks5),
        Err(LineError::BadKind)
    );
    assert_eq!(
        parse_line("10.0.0.1:80:", EndpointKind::Socks5),
        Err(LineError::BadKind)
    );
}

#[test]
fn bad_address_is_reported() {
    assert_eq!(
        parse_line("10.0.0.300:80", EndpointKind::Socks5),
        Err(LineError::BadAddress)
    );
    assert_eq!(
        parse_line("example.com:80", EndpointKind::Socks5),
        Err(LineError::BadAddress)
    );
    assert_eq!(
        parse_line("01.2.3.4:80", EndpointKind::Socks5),
        Err(LineError::BadAddress)
    );
}

#[test]
fn largest_port_is_accepted() {
    let e = ok_line("10.0.0.1:4294967295", EndpointKind::Socks5);
    assert_eq!(e.port, u32::MAX);
}

#[test]
fn port_text_forms() {
    assert_eq!(parse_port("80"), Some(80));
    assert_eq!(parse_port("+80"), Some(80));
    assert_eq!(parse_port("0"), Some(0));
    assert_eq!(parse_port("4294967295"), Some(u32::MAX));
    assert_eq!(parse_port("4294967296"), None);
    assert_eq!(parse_port("99999999999999999999"), None);
    assert_eq!(parse_port(""), None);
    assert_eq!(parse_port("+"), None);
    assert_eq!(parse_port("12a"), None);
    assert_eq!(parse_port("-1"), None);
}

#[test]
fn kind_labels_round_trip() {
    let kinds = vec![
        EndpointKind::Http,
        EndpointKind::Https,
        EndpointKind::Socks4,
        EndpointKind::Socks5,
    ];
    let labels = vec!["http", "https", "socks4", "socks5"];
    for (k, l) in kinds.iter().zip(labels.iter()) {
        assert_eq!(k.label(), *l);
        assert_eq!(EndpointKind::from_text(l), Some(*k));
        assert_eq!(EndpointKind::from_text(&l.to_uppercase()), Some(*k));
    }
    assert_eq!(EndpointKind::from_text("ftp"), None);
    assert_eq!(EndpointKind::from_text("http "), None);
    assert_eq!(EndpointKind::from_text(""), None);
}

#[test]
fn endpoints_compare_by_full_tuple() {
    let a = ok_line("10.0.0.1:80", EndpointKind::Socks5);
    let b = ok_line("10.0.0.1:80", EndpointKind::Socks5);
    let c = ok_line("10.0.0.1:80:http", EndpointKind::Socks5);
    assert!(a.same_as(&b));
    assert!(!a.same_as(&c));
}
