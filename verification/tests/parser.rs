use noisescope::parser::{parse_protocol, parse_transcript_fields};

#[test]
fn parse_protocol_basic() {
    let src = r#"{
        "name": "demo",
        "roles": ["i", "r"],
        "initial": "start",
        "states": ["start", "done"],
        "accepting": ["done"],
        "transitions": [
            {"from": "start", "to": "done", "role": "i", "msg": "e",
             "requires_fresh_nonce": true}
        ]
    }"#;
    let spec = parse_protocol(src).unwrap();
    assert_eq!(spec.name, "demo");
    assert_eq!(spec.transitions.len(), 1);
    assert!(spec.transitions[0].requires_fresh_nonce);
}

#[test]
fn missing_field_errors() {
    assert!(parse_protocol(r#"{"name":"x"}"#).is_err());
}

#[test]
fn protocol_error_messages() {
    assert_eq!(
        parse_protocol(r#"{"name":"x"}"#).unwrap_err().0,
        "field `roles` must be an array"
    );
    assert_eq!(
        parse_protocol(r#"{"roles":[]}"#).unwrap_err().0,
        "missing required string field `name`"
    );
    assert_eq!(
        parse_protocol(r#"{"name":"x","roles":["a",3]}"#).unwrap_err().0,
        "element 1 of `roles` must be a string"
    );
    let no_msg = r#"{"name":"x","roles":[],"initial":"s","states":[],"accepting":[],
        "transitions":[{"from":"a","to":"b","role":"r","msg":"m"},{"from":"a","to":"b","role":"r"}]}"#;
    assert_eq!(
        parse_protocol(no_msg).unwrap_err().0,
        "transition #1: missing field `msg`"
    );
    let no_trans = r#"{"name":"x","roles":[],"initial":"s","states":[],"accepting":[]}"#;
    assert_eq!(
        parse_protocol(no_trans).unwrap_err().0,
        "field `transitions` must be an array"
    );
    let e = parse_protocol("{\"name\": }").unwrap_err();
    assert_eq!(e.0, "JSON error at byte 9: unexpected character");
    assert_eq!(e.to_string(), "parse error: JSON error at byte 9: unexpected character");
}

#[test]
fn protocol_defaults_and_optional_fields() {
    let src = r#"{"name":"p","description":"d","roles":["a"],"initial":"s","states":["s"],
        "accepting":["s"],"transitions":[{"from":"s","to":"s","role":"a","msg":"m",
        "requires_seq":true,"requires_fresh_nonce":"yes","note":"n"}]}"#;
    let spec = parse_protocol(src).unwrap();
    assert_eq!(spec.description.as_deref(), Some("d"));
    let t = &spec.transitions[0];
    assert!(t.requires_seq);
    assert!(!t.requires_fresh_nonce);
    assert_eq!(t.note.as_deref(), Some("n"));
    assert!(spec.lint().is_empty());
}

#[test]
fn transcript_fields_basic() {
    let src = r#"{
        "protocol": "demo",
        "events": [
            {"role": "i", "msg": "e", "nonce": 7, "meta": {"cipher": "aead"}},
            {"id": "second", "role": "r", "msg": "ee", "seq": 0, "meta": 5}
        ]
    }"#;
    let t = parse_transcript_fields(src).unwrap();
    assert_eq!(t.protocol, "demo");
    assert_eq!(t.events.len(), 2);
    assert_eq!(t.events[0].id, "e0");
    assert_eq!(t.events[0].nonce.as_ref().map(|j| j.to_compact()), Some("7".to_string()));
    assert!(t.events[0].seq.is_none());
    assert_eq!(t.events[0].meta.len(), 1);
    assert_eq!(t.events[0].meta[0].0, "cipher");
    assert_eq!(t.events[1].id, "second");
    assert!(t.events[1].meta.is_empty());
}

#[test]
fn transcript_fields_errors() {
    assert_eq!(
        parse_transcript_fields(r#"{"events":[]}"#).unwrap_err().0,
        "missing required string field `protocol`"
    );
    assert_eq!(
        parse_transcript_fields(r#"{"protocol":"p","events":{}}"#).unwrap_err().0,
        "field `events` must be an array"
    );
    assert_eq!(
        parse_transcript_fields(r#"{"protocol":"p","events":[{"role":"i","msg":"m"},{"msg":"m"}]}"#)
            .unwrap_err()
            .0,
        "event #1: missing `role`"
    );
}
