use myrulesiot::codec::{
    encode_entries, encode_instance, encode_rules, load_entries, load_rules, parse_entries,
    parse_instance, parse_rules,
};
use myrulesiot::ruleset::RuleInstance;

fn b(s: &str) -> Vec<u8> {
    s.as_bytes().to_vec()
}

fn inst(name: &str, id: &str, params: &[(&str, &str)]) -> RuleInstance {
    RuleInstance {
        name: b(name),
        id: b(id),
        params: params.iter().map(|(k, v)| (b(k), b(v))).collect(),
    }
}

#[test]
fn encode_instance_exact_bytes() {
    let i = inst("echo", "r1", &[("from", "A"), ("to", "B")]);
    let out = encode_instance(&i);
    assert_eq!(
        out,
        b(r#"{"name":"echo","id":"r1","parameters":{"from":"A","to":"B"}}"#)
    );
}

#[test]
fn encode_rules_exact_bytes() {
    let list = vec![
        inst("echo", "r1", &[("from", "A"), ("to", "B")]),
        inst("save_value", "r2", &[]),
    ];
    let out = encode_rules(&list);
    assert_eq!(
        out,
        b(r#"[{"name":"echo","id":"r1","parameters":{"from":"A","to":"B"}},{"name":"save_value","id":"r2","parameters":{}}]"#)
    );
}

#[test]
fn encode_empty_rules_exact_bytes() {
    let out = encode_rules(&vec![]);
    assert_eq!(out, b("[]"));
}

#[test]
fn rules_round_trip() {
    let list = vec![
        inst("echo", "r1", &[("from", "A"), ("to", "B")]),
        inst("other", "r2", &[("key", "v")]),
    ];
    let out = encode_rules(&list);
    let back = parse_rules(&out).expect("round trip must parse");
    assert_eq!(back.len(), 2);
    assert_eq!(back[0].name, b("echo"));
    assert_eq!(back[0].id, b("r1"));
    assert_eq!(back[0].params, vec![(b("from"), b("A")), (b("to"), b("B"))]);
    assert_eq!(back[1].name, b("other"));
    assert_eq!(back[1].id, b("r2"));
    assert_eq!(back[1].params, vec![(b("key"), b("v"))]);
}

#[test]
fn round_trip_with_escapes_and_raw_bytes() {
    let mut payload_value = b("say \"hi\" \\ done");
    payload_value.push(0u8);
    payload_value.push(255u8);
    payload_value.push(b'\n');
    let i = RuleInstance {
        name: b("we\"ird"),
        id: b("r\\1"),
        params: vec![(b("k\"ey"), payload_value.clone())],
    };
    let out = encode_instance(&i);
    let back = parse_instance(&out).expect("escaped instance must parse");
    assert_eq!(back.name, b("we\"ird"));
    assert_eq!(back.id, b("r\\1"));
    assert_eq!(back.params, vec![(b("k\"ey"), payload_value)]);
}

#[test]
fn instance_round_trip_empty_params() {
    let i = inst("n", "", &[]);
    let out = encode_instance(&i);
    let back = parse_instance(&out).expect("must parse");
    assert_eq!(back.name, b("n"));
    assert_eq!(back.id, b(""));
    assert!(back.params.is_empty());
}

#[test]
fn parse_instance_rejects_malformed() {
    assert!(parse_instance(&b("")).is_none());
    assert!(parse_instance(&b("{}")).is_none());
    assert!(parse_instance(&b("{\"name\":\"x\"}")).is_none());
    assert!(parse_instance(&b("not json at all")).is_none());
    // unterminated string
    assert!(parse_instance(&b(r#"{"name":"echo,"id":"r1","parameters":{}}"#)).is_none());
    // trailing bytes after a well-formed instance
    let mut ok = encode_instance(&inst("a", "b", &[]));
    ok.push(b' ');
    assert!(parse_instance(&ok).is_none());
}

#[test]
fn parse_rules_rejects_malformed() {
    assert!(parse_rules(&b("")).is_none());
    assert!(parse_rules(&b("{")).is_none());
    assert!(parse_rules(&b("[,]")).is_none());
    assert!(parse_rules(&b("[]junk")).is_none());
    let mut ok = encode_rules(&vec![inst("a", "b", &[])]);
    ok.push(b'x');
    assert!(parse_rules(&ok).is_none());
}

#[test]
fn entries_round_trip() {
    let entries = vec![(b("r1.count"), b("41")), (b("r2.last"), b("on"))];
    let out = encode_entries(&entries);
    assert_eq!(out, b(r#"{"r1.count":"41","r2.last":"on"}"#));
    let back = parse_entries(&out).expect("must parse");
    assert_eq!(back, entries);
}

#[test]
fn entries_round_trip_empty() {
    let out = encode_entries(&vec![]);
    assert_eq!(out, b("{}"));
    let back = parse_entries(&out).expect("must parse");
    assert!(back.is_empty());
}

#[test]
fn load_rules_falls_back_to_empty() {
    assert!(load_rules(&b("corrupt ] file")).is_empty());
    assert!(load_rules(&b("")).is_empty());
    let good = encode_rules(&vec![inst("echo", "r1", &[])]);
    assert_eq!(load_rules(&good).len(), 1);
}

#[test]
fn load_entries_falls_back_to_empty() {
    assert!(load_entries(&b("{broken")).is_empty());
    let good = encode_entries(&vec![(b("k"), b("v"))]);
    assert_eq!(load_entries(&good), vec![(b("k"), b("v"))]);
}
