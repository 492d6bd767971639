//! Serializes a built document to YAML and re-parses it as a generic
//! structured value: the set of endpoint tuples survives the round trip.

use gen_proxy::document::{process_file_lines, OutputDocument};
use gen_proxy::endpoint::EndpointKind;
use serde_yml::{Mapping, Number, Sequence, Value};

fn value_of_document(doc: &OutputDocument) -> Value {
    let mut proxies = Sequence::new();
    for e in &doc.endpoints {
        let mut m = Mapping::new();
        m.insert("name", Value::String(e.name.clone()));
        m.insert("server", Value::String(e.address.to_text()));
        m.insert("port", Value::Number(Number::from(e.port as u64)));
        m.insert("type", Value::String(e.kind.label()));
        proxies.push(Value::Mapping(m));
    }
    let mut group = Mapping::new();
    group.insert("name", Value::String(doc.group.name.clone()));
    group.insert("type", Value::String(doc.group.group_kind.clone()));
    group.insert(
        "proxies",
        Value::Sequence(
            doc.group
                .members
                .iter()
                .map(|m| Value::String(m.clone()))
                .collect(),
        ),
    );
    let mut root = Mapping::new();
    root.insert("proxies", Value::Sequence(proxies));
    root.insert(
        "proxy-groups",
        Value::Sequence(vec![Value::Mapping(group)]),
    );
    root.insert(
        "rules",
        Value::Sequence(vec![Value::String(doc.rule.clone())]),
    );
    Value::Mapping(root)
}

fn endpoint_tuples(v: &Value) -> Vec<(String, String, u64, String)> {
    let proxies = v
        .get("proxies")
        .and_then(|p| p.as_sequence())
        .expect("proxies list");
    let mut tuples = Vec::new();
    for p in proxies {
        let name = p.get("name").and_then(|x| x.as_str()).expect("name").to_string();
        let server = p.get("server").and_then(|x| x.as_str()).expect("server").to_string();
        let port = p.get("port").and_then(|x| x.as_u64()).expect("port");
        let kind = p.get("type").and_then(|x| x.as_str()).expect("type").to_string();
        tuples.push((name, server, port, kind));
    }
    tuples
}

#[test]
fn yaml_round_trip_keeps_endpoint_tuples() {
    let lines: Vec<String> = vec![
        "10.0.0.1:1080".to_string(),
        "10.0.0.2:8080:https".to_string(),
        "10.0.0.3:80:http".to_string(),
        "10.0.0.1:1080".to_string(),
    ];
    let (doc, _) = process_file_lines(&lines, EndpointKind::Socks5, "proxies.txt".to_string());

    let value = value_of_document(&doc);
    let text = serde_yml::to_string(&value).expect("serialize");
    let back: Value = serde_yml::from_str(&text).expect("reparse");

    let mut before = endpoint_tuples(&value);
    let mut after = endpoint_tuples(&back);
    before.sort();
    after.sort();
    assert_eq!(before, after);
    assert_eq!(before.len(), 3);

    let group_members: Vec<String> = back
        .get("proxy-groups")
        .and_then(|g| g.as_sequence())
        .expect("groups")
        .iter()
        .flat_map(|g| {
            g.get("proxies")
                .and_then(|p| p.as_sequence())
                .expect("members")
                .iter()
                .map(|m| m.as_str().expect("member").to_string())
        })
        .collect();
    let mut names: Vec<String> = before.iter().map(|t| t.0.clone()).collect();
    let mut members_sorted = group_members.clone();
    names.sort();
    members_sorted.sort();
    assert_eq!(names, members_sorted);
}
