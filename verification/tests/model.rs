use noisescope::model::{Event, ProtocolSpec, Transition};

fn tiny_spec() -> ProtocolSpec {
    ProtocolSpec {
        name: "tiny".into(),
        roles: vec!["a".into(), "b".into()],
        initial: "s0".into(),
        accepting: vec!["s2".into()],
        states: vec!["s0".into(), "s1".into(), "s2".into()],
        transitions: vec![
            Transition {
                from: "s0".into(),
                to: "s1".into(),
                role: "a".into(),
                msg: "hello".into(),
                requires_fresh_nonce: true,
                requires_seq: false,
                note: None,
            },
            Transition {
                from: "s1".into(),
                to: "s2".into(),
                role: "b".into(),
                msg: "ack".into(),
                requires_fresh_nonce: false,
                requires_seq: false,
                note: None,
            },
        ],
        description: None,
    }
}

#[test]
fn lint_clean_spec() {
    assert!(tiny_spec().lint().is_empty());
}

#[test]
fn lint_detects_bad_initial() {
    let mut s = tiny_spec();
    s.initial = "nope".into();
    assert!(!s.lint().is_empty());
}

#[test]
fn matching_transitions() {
    let s = tiny_spec();
    assert_eq!(s.matching("s0", "a", "hello").len(), 1);
    assert_eq!(s.matching("s0", "b", "hello").len(), 0);
}

#[test]
fn event_label() {
    let mut e = Event::new("e0", "initiator", "e");
    e.nonce = Some(3);
    assert_eq!(e.label(), "initiator:e#3");
}

#[test]
fn lint_reports_each_problem_in_order() {
    let mut s = tiny_spec();
    s.initial = "nope".into();
    s.accepting.push("gone".into());
    s.transitions[1].to = "s9".into();
    s.transitions[1].role = "c".into();
    assert_eq!(
        s.lint(),
        vec![
            "initial state `nope` is not declared".to_string(),
            "accepting state `gone` is not declared".to_string(),
            "transition #1 references unknown `to` state `s9`".to_string(),
            "transition #1 references undeclared role `c`".to_string(),
        ]
    );
}

#[test]
fn lint_unknown_from_state() {
    let mut s = tiny_spec();
    s.transitions[0].from = "x".into();
    assert_eq!(
        s.lint(),
        vec!["transition #0 references unknown `from` state `x`".to_string()]
    );
}

#[test]
fn matching_keeps_declaration_order() {
    let mut s = tiny_spec();
    let mut extra = Transition {
        from: "s0".into(),
        to: "s2".into(),
        role: "a".into(),
        msg: "hello".into(),
        requires_fresh_nonce: false,
        requires_seq: true,
        note: Some("second".into()),
    };
    s.transitions.push(Transition { note: None, ..extra.clone_fields() });
    extra.note = Some("third".into());
    s.transitions.push(extra);
    let m = s.matching("s0", "a", "hello");
    assert_eq!(m.len(), 3);
    assert_eq!(m[0].to, "s1");
    assert_eq!(m[1].note, None);
    assert_eq!(m[2].note.as_deref(), Some("third"));
}

#[test]
fn accepting_and_declared_states() {
    let s = tiny_spec();
    assert!(s.is_accepting("s2"));
    assert!(!s.is_accepting("s1"));
    assert!(s.has_state("s1"));
    assert!(!s.has_state("s3"));
}

#[test]
fn event_label_without_nonce() {
    let e = Event::new("x", "responder", "ee");
    assert_eq!(e.label(), "responder:ee");
    assert_eq!(e.id, "x");
    assert!(e.meta.is_empty());
}

trait CloneFields {
    fn clone_fields(&self) -> Transition;
}

impl CloneFields for Transition {
    fn clone_fields(&self) -> Transition {
        Transition {
            from: self.from.clone(),
            to: self.to.clone(),
            role: self.role.clone(),
            msg: self.msg.clone(),
            requires_fresh_nonce: self.requires_fresh_nonce,
            requires_seq: self.requires_seq,
            note: self.note.clone(),
        }
    }
}
