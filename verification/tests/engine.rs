use noisescope::engine::{conforms, replay, transcript_from, ViolationKind};
use noisescope::model::{Event, ProtocolSpec, Transcript, Transition};

fn transition(from: &str, to: &str, role: &str, msg: &str, nonce: bool, seq: bool) -> Transition {
    Transition {
        from: from.into(),
        to: to.into(),
        role: role.into(),
        msg: msg.into(),
        requires_fresh_nonce: nonce,
        requires_seq: seq,
        note: None,
    }
}

fn spec() -> ProtocolSpec {
    ProtocolSpec {
        name: "p".into(),
        roles: vec!["i".into(), "r".into()],
        initial: "s0".into(),
        accepting: vec!["s2".into()],
        states: vec!["s0".into(), "s1".into(), "s2".into()],
        transitions: vec![
            transition("s0", "s1", "i", "e", true, false),
            transition("s1", "s2", "r", "ee", false, true),
        ],
        description: None,
    }
}

fn good_transcript() -> Transcript {
    let mut t = Transcript::new("p");
    let mut a = Event::new("a", "i", "e");
    a.nonce = Some(1);
    let mut b = Event::new("b", "r", "ee");
    b.seq = Some(0);
    t.events.push(a);
    t.events.push(b);
    t
}

#[test]
fn good_transcript_conforms() {
    let r = replay(&spec(), &good_transcript());
    assert!(r.is_conforming());
    assert_eq!(r.protocol, "p");
    assert_eq!(r.final_state, "s2");
    assert!(r.reached_accepting);
    assert_eq!(r.consumed, 2);
    assert!(r.violations.is_empty());
    assert_eq!(r.path.len(), 2);
    assert_eq!(r.path[0].event_index, 0);
    assert_eq!(r.path[0].event_label, "i:e#1");
    assert_eq!(r.path[0].from, "s0");
    assert_eq!(r.path[0].to, "s1");
    assert_eq!(r.path[1].event_label, "r:ee");
    assert_eq!(r.path[1].to, "s2");
    assert!(conforms(&spec(), &good_transcript()));
}

#[test]
fn missing_nonce_is_flagged_but_advances() {
    let mut t = good_transcript();
    t.events[0].nonce = None;
    let r = replay(&spec(), &t);
    assert!(!r.is_conforming());
    assert_eq!(r.violations.len(), 1);
    let v = &r.violations[0];
    assert_eq!(v.kind, ViolationKind::NonceReplay);
    assert_eq!(v.event_index, 0);
    assert_eq!(v.event_id.as_deref(), Some("a"));
    assert_eq!(v.state, "s0");
    assert_eq!(v.detail, "transition i:e requires a nonce but none present");
    assert_eq!(r.final_state, "s2");
    assert!(r.reached_accepting);
}

#[test]
fn out_of_order_events_are_skipped() {
    let t = good_transcript();
    let swapped = transcript_from("p", &[t.events[1].clone(), t.events[0].clone()]);
    let r = replay(&spec(), &swapped);
    assert_eq!(r.violations.len(), 2);
    assert_eq!(r.violations[0].kind, ViolationKind::UnexpectedMessage);
    assert_eq!(r.violations[0].event_index, 0);
    assert_eq!(
        r.violations[0].detail,
        "got r:ee in state `s0`; expected one of [i:e]"
    );
    assert_eq!(r.violations[1].kind, ViolationKind::NotAccepting);
    assert_eq!(r.violations[1].event_index, 2);
    assert_eq!(r.violations[1].event_id, None);
    assert_eq!(
        r.violations[1].detail,
        "final state `s1` is not accepting (accepting: [s2])"
    );
    assert_eq!(r.final_state, "s1");
    assert!(!r.reached_accepting);
    assert_eq!(r.path.len(), 1);
    assert_eq!(r.path[0].event_index, 1);
}

#[test]
fn wrong_role_is_a_role_mismatch() {
    let mut t = good_transcript();
    t.events[0].role = "r".into();
    let r = replay(&spec(), &t);
    assert_eq!(r.violations[0].kind, ViolationKind::RoleMismatch);
    assert_eq!(r.violations[0].kind.as_str(), "role_mismatch");
    assert_eq!(
        r.violations[0].detail,
        "got r:e in state `s0`; expected one of [i:e]"
    );
}

#[test]
fn wrong_sequence_number() {
    let mut t = good_transcript();
    t.events[1].seq = Some(5);
    let r = replay(&spec(), &t);
    assert_eq!(r.violations.len(), 1);
    assert_eq!(r.violations[0].kind, ViolationKind::SequenceViolation);
    assert_eq!(r.violations[0].detail, "role `r` seq=5 but expected 0");
    t.events[1].seq = None;
    let r = replay(&spec(), &t);
    assert_eq!(
        r.violations[0].detail,
        "transition r:ee requires seq but none present"
    );
}

#[test]
fn replayed_nonce_is_flagged() {
    let mut s = spec();
    s.transitions[1].requires_fresh_nonce = true;
    let mut t = good_transcript();
    t.events[1].nonce = Some(1);
    let r = replay(&s, &t);
    assert_eq!(r.violations.len(), 1);
    assert_eq!(r.violations[0].kind, ViolationKind::NonceReplay);
    assert_eq!(r.violations[0].detail, "nonce 1 replayed (already observed)");
    assert_eq!(r.violations[0].event_index, 1);
}

#[test]
fn empty_transcript_stays_initial() {
    let r = replay(&spec(), &Transcript::new("p"));
    assert_eq!(r.final_state, "s0");
    assert_eq!(r.consumed, 0);
    assert!(r.path.is_empty());
    assert_eq!(r.violations.len(), 1);
    assert_eq!(r.violations[0].kind, ViolationKind::NotAccepting);
    assert_eq!(r.violations[0].kind.as_str(), "not_accepting");
    assert_eq!(r.violations[0].event_index, 0);
}

#[test]
fn expected_labels_are_sorted_and_unique() {
    let mut s = spec();
    s.transitions.push(transition("s0", "s1", "b", "z", false, false));
    s.transitions.push(transition("s0", "s2", "a", "y", false, false));
    s.transitions.push(transition("s0", "s2", "a", "y", false, false));
    let mut t = Transcript::new("p");
    t.events.push(Event::new("x", "q", "nope"));
    let r = replay(&s, &t);
    assert_eq!(
        r.violations[0].detail,
        "got q:nope in state `s0`; expected one of [a:y, b:z, i:e]"
    );
}

#[test]
fn first_matching_transition_wins() {
    let mut s = spec();
    s.transitions.insert(0, transition("s0", "s2", "i", "e", false, false));
    let r = replay(&s, &good_transcript());
    assert_eq!(r.path[0].to, "s2");
}

#[test]
fn sequence_overflow_has_no_replay() {
    let s = ProtocolSpec {
        name: "o".into(),
        roles: vec!["r".into()],
        initial: "s0".into(),
        accepting: vec!["s2".into()],
        states: vec!["s0".into(), "s1".into(), "s2".into()],
        transitions: vec![
            transition("s0", "s1", "r", "x", false, false),
            transition("s1", "s2", "r", "y", false, true),
        ],
        description: None,
    };
    let mut t = Transcript::new("o");
    let mut a = Event::new("a", "r", "x");
    a.seq = Some(u64::MAX);
    let mut b = Event::new("b", "r", "y");
    b.seq = Some(0);
    t.events.push(a);
    t.events.push(b);
    assert!(noisescope::engine::try_replay(&s, &t).is_none());
    t.events[0].seq = Some(u64::MAX - 1);
    t.events[1].seq = Some(u64::MAX);
    let r = noisescope::engine::try_replay(&s, &t).unwrap();
    assert!(r.is_conforming());
}

#[test]
fn fresh_nonce_must_differ_from_every_earlier_nonce() {
    // The first transition does not require a fresh nonce, but its nonce still
    // counts as seen.
    let s = ProtocolSpec {
        name: "n".into(),
        roles: vec!["i".into(), "r".into()],
        initial: "s0".into(),
        accepting: vec!["s2".into()],
        states: vec!["s0".into(), "s1".into(), "s2".into()],
        transitions: vec![
            transition("s0", "s1", "i", "a", false, false),
            transition("s1", "s2", "r", "b", true, false),
        ],
        description: None,
    };
    let mut t = Transcript::new("n");
    let mut a = Event::new("a", "i", "a");
    a.nonce = Some(5);
    let mut b = Event::new("b", "r", "b");
    b.nonce = Some(5);
    t.events.push(a);
    t.events.push(b);
    let r = replay(&s, &t);
    assert!(!r.is_conforming());
    assert_eq!(r.violations[0].detail, "nonce 5 replayed (already observed)");
    t.events[1].nonce = Some(6);
    assert!(replay(&s, &t).is_conforming());
}

#[test]
fn sequence_numbers_follow_the_role_history() {
    // Sequence numbers are recorded even where a transition does not require
    // them; a later requirement expects the successor.
    let s = ProtocolSpec {
        name: "q".into(),
        roles: vec!["r".into()],
        initial: "s0".into(),
        accepting: vec!["s2".into()],
        states: vec!["s0".into(), "s1".into(), "s2".into()],
        transitions: vec![
            transition("s0", "s1", "r", "a", false, false),
            transition("s1", "s2", "r", "b", false, true),
        ],
        description: None,
    };
    let mut t = Transcript::new("q");
    let mut a = Event::new("a", "r", "a");
    a.seq = Some(3);
    let mut b = Event::new("b", "r", "b");
    b.seq = Some(4);
    t.events.push(a);
    t.events.push(b);
    assert!(replay(&s, &t).is_conforming());
    t.events[1].seq = Some(0);
    let r = replay(&s, &t);
    assert_eq!(r.violations[0].detail, "role `r` seq=0 but expected 4");
}
