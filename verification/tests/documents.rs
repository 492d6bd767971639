use gen_proxy::document::{build_document, collect_endpoints, output_path, process_file_lines};
use gen_proxy::endpoint::{parse_line, EndpointKind, LineError};
use gen_proxy::ip::IpAddress;

fn lines_of(texts: &[&str]) -> Vec<String> {
    texts.iter().map(|t| t.to_string()).collect()
}

#[test]
fn scenario_two_endpoints_one_diagnostic() {
    let lines = lines_of(&[
        "10.0.0.1:1080",
        "10.0.0.1:1080",
        "10.0.0.2:8080:https",
        "bad:line:here:extra",
    ]);
    let (doc, diagnostics) = process_file_lines(&lines, EndpointKind::Socks5, "proxies.txt".to_string());

    assert_eq!(doc.endpoints.len(), 2);
    assert_eq!(doc.endpoints[0].name, "10.0.0.1 - 1080");
    assert_eq!(doc.endpoints[0].address, IpAddress::V4(10, 0, 0, 1));
    assert_eq!(doc.endpoints[0].port, 1080);
    assert_eq!(doc.endpoints[0].kind, EndpointKind::Socks5);
    assert_eq!(doc.endpoints[1].name, "10.0.0.2 - 8080");
    assert_eq!(doc.endpoints[1].address, IpAddress::V4(10, 0, 0, 2));
    assert_eq!(doc.endpoints[1].port, 8080);
    assert_eq!(doc.endpoints[1].kind, EndpointKind::Https);

    assert_eq!(diagnostics.len(), 1);
    assert_eq!(diagnostics[0].line_index, 3);
    assert_eq!(diagnostics[0].error, LineError::WrongFieldCount);

    assert_eq!(doc.group.name, "proxies.txt");
    assert_eq!(doc.group.group_kind, "select");
    assert_eq!(
        doc.group.members,
        vec!["10.0.0.1 - 1080".to_string(), "10.0.0.2 - 8080".to_string()]
    );
    assert_eq!(doc.rule, "MATCH,DIRECT");
}

#[test]
fn duplicates_collapse_to_one() {
    let lines = lines_of(&["1.2.3.4:80", "1.2.3.4:80", "1.2.3.4:80"]);
    let (endpoints, diagnostics) = collect_endpoints(&lines, EndpointKind::Http);
    assert_eq!(endpoints.len(), 1);
    assert!(diagnostics.is_empty());
}

#[test]
fn same_name_different_kind_stays_distinct() {
    let lines = lines_of(&["1.2.3.4:80:http", "1.2.3.4:80:socks5"]);
    let (endpoints, _) = collect_endpoints(&lines, EndpointKind::Http);
    assert_eq!(endpoints.len(), 2);
    assert_eq!(endpoints[0].name, endpoints[1].name);
    assert_ne!(endpoints[0].kind, endpoints[1].kind);
}

#[test]
fn bad_lines_are_skipped_and_reported_in_order() {
    let lines = lines_of(&[
        "nonsense",
        "10.0.0.1:x",
        "10.0.0.1:80:ftp",
        "999.1.1.1:80",
        "10.0.0.1:80",
    ]);
    let (endpoints, diagnostics) = collect_endpoints(&lines, EndpointKind::Socks5);
    assert_eq!(endpoints.len(), 1);
    assert_eq!(diagnostics.len(), 4);
    assert_eq!(diagnostics[0].line_index, 0);
    assert_eq!(diagnostics[0].error, LineError::WrongFieldCount);
    assert_eq!(diagnostics[1].line_index, 1);
    assert_eq!(diagnostics[1].error, LineError::BadPort);
    assert_eq!(diagnostics[2].line_index, 2);
    assert_eq!(diagnostics[2].error, LineError::BadKind);
    assert_eq!(diagnostics[3].line_index, 3);
    assert_eq!(diagnostics[3].error, LineError::BadAddress);
}

#[test]
fn empty_input_gives_empty_document() {
    let lines: Vec<String> = Vec::new();
    let (doc, diagnostics) = process_file_lines(&lines, EndpointKind::Socks5, "dir".to_string());
    assert!(doc.endpoints.is_empty());
    assert!(doc.group.members.is_empty());
    assert!(diagnostics.is_empty());
    assert_eq!(doc.group.name, "dir");
    assert_eq!(doc.group.group_kind, "select");
}

#[test]
fn members_match_endpoints_one_to_one() {
    let lines = lines_of(&["10.0.0.1:80", "10.0.0.2:80", "10.0.0.3:81:http"]);
    let (doc, _) = process_file_lines(&lines, EndpointKind::Socks5, "g".to_string());
    assert_eq!(doc.group.members.len(), doc.endpoints.len());
    for member in &doc.group.members {
        let matching = doc.endpoints.iter().filter(|e| &e.name == member).count();
        assert_eq!(matching, 1);
    }
}

#[test]
fn group_members_come_from_build_document() {
    let a = parse_line("10.0.0.1:80", EndpointKind::Socks5).unwrap();
    let b = parse_line("10.0.0.2:81", EndpointKind::Socks5).unwrap();
    let doc = build_document(vec![a, b], "list".to_string());
    assert_eq!(
        doc.group.members,
        vec!["10.0.0.1 - 80".to_string(), "10.0.0.2 - 81".to_string()]
    );
}

#[test]
fn output_path_replaces_extension() {
    assert_eq!(output_path("dir/file.txt", "yaml"), "dir/file.yaml");
    assert_eq!(output_path("proxies.txt", "yaml"), "proxies.yaml");
    assert_eq!(output_path("x.tar.gz", "yaml"), "x.tar.yaml");
}

#[test]
fn output_path_appends_when_no_extension() {
    assert_eq!(output_path("noext", "yaml"), "noext.yaml");
    assert_eq!(output_path(".hidden", "yaml"), ".hidden.yaml");
    assert_eq!(output_path("dir/.hidden", "yaml"), "dir/.hidden.yaml");
    assert_eq!(output_path("a.b/c", "yaml"), "a.b/c.yaml");
}
