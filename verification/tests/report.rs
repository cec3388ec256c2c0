use noisescope::divergence::{fuzz, FuzzConfig};
use noisescope::engine::replay;
use noisescope::model::{Event, ProtocolSpec, Transcript, Transition};
use noisescope::mutate::{apply_all, Mutation};
use noisescope::report::{check_json, path_json, replay_text, report_json, report_text};
use noisescope::text::double_text;

fn transition(from: &str, to: &str, role: &str, msg: &str, nonce: bool, seq: bool) -> Transition {
    Transition {
        from: from.into(),
        to: to.into(),
        role: role.into(),
        msg: msg.into(),
        requires_fresh_nonce: nonce,
        requires_seq: seq,
        note: None,
    }
}

fn spec() -> ProtocolSpec {
    ProtocolSpec {
        name: "p".into(),
        roles: vec!["i".into(), "r".into()],
        initial: "s0".into(),
        accepting: vec!["s2".into()],
        states: vec!["s0".into(), "s1".into(), "s2".into()],
        transitions: vec![
            transition("s0", "s1", "i", "e", true, false),
            transition("s1", "s2", "r", "ee", false, true),
        ],
        description: None,
    }
}

fn good_transcript() -> Transcript {
    let mut t = Transcript::new("p");
    let mut a = Event::new("a", "i", "e");
    a.nonce = Some(1);
    let mut b = Event::new("b", "r", "ee");
    b.seq = Some(0);
    t.events.push(a);
    t.events.push(b);
    t
}

fn diverges(plan: &[Mutation]) -> bool {
    let s = spec();
    let t = apply_all(&good_transcript(), plan, &s.roles);
    !replay(&s, &t).is_conforming()
}

#[test]
fn default_config() {
    let c = FuzzConfig::default();
    assert_eq!(c.seed, 0x5EED);
    assert_eq!(c.trials, 256);
    assert_eq!(c.max_plan_len, 4);
    assert_eq!(c.max_findings, 8);
}

#[test]
fn fuzz_finds_minimal_divergences() {
    let cfg = FuzzConfig::default();
    let r = fuzz(&spec(), &good_transcript(), &cfg);
    assert_eq!(r.protocol, "p");
    assert!(r.baseline_conforming);
    assert!(r.baseline.is_conforming());
    assert_eq!(r.trials, 256);
    assert!(!r.findings.is_empty());
    assert!(r.findings.len() <= 8);
    for (j, f) in r.findings.iter().enumerate() {
        assert!(!f.plan.is_empty());
        assert!(diverges(&f.plan));
        assert!(diverges(&f.minimized.plan));
        assert_eq!(f.minimized.original_len, f.plan.len());
        assert!(f.minimized.evaluations >= 1);
        for i in 0..f.minimized.plan.len() {
            let mut shorter = f.minimized.plan.clone();
            shorter.remove(i);
            assert!(!diverges(&shorter));
        }
        let t = apply_all(&good_transcript(), &f.minimized.plan, &spec().roles);
        assert_eq!(f.result, replay(&spec(), &t));
        let from_trial = (0..256u64)
            .any(|k| f.seed == cfg.seed ^ k.wrapping_mul(0x9E37_79B9_7F4A_7C15));
        assert!(from_trial);
        for g in &r.findings[j + 1..] {
            assert_ne!(f.minimized.plan, g.minimized.plan);
        }
    }
}

#[test]
fn fuzz_is_deterministic() {
    let cfg = FuzzConfig::default();
    let a = report_json(&fuzz(&spec(), &good_transcript(), &cfg)).to_compact();
    let b = report_json(&fuzz(&spec(), &good_transcript(), &cfg)).to_compact();
    assert_eq!(a, b);
    let ta = report_text(&fuzz(&spec(), &good_transcript(), &cfg));
    let tb = report_text(&fuzz(&spec(), &good_transcript(), &cfg));
    assert_eq!(ta, tb);
}

#[test]
fn fuzz_respects_max_findings_and_trials() {
    let cfg = FuzzConfig { seed: 7, trials: 256, max_plan_len: 3, max_findings: 1 };
    let r = fuzz(&spec(), &good_transcript(), &cfg);
    assert_eq!(r.findings.len(), 1);
    let cfg = FuzzConfig { seed: 7, trials: 0, max_plan_len: 3, max_findings: 0 };
    let r = fuzz(&spec(), &good_transcript(), &cfg);
    assert!(r.findings.is_empty());
    assert_eq!(r.trials, 0);
}

#[test]
fn fuzz_on_empty_transcript_has_no_findings() {
    let r = fuzz(&spec(), &Transcript::new("p"), &FuzzConfig::default());
    assert!(!r.baseline_conforming);
    assert!(r.findings.is_empty());
}

#[test]
fn check_json_layout() {
    let r = replay(&spec(), &good_transcript());
    let text = check_json(&r).to_compact();
    assert_eq!(
        text,
        "{\"tool\":\"noisescope\",\"disclaimer\":\"structural handshake analysis only; not a cryptographic proof\",\"protocol\":\"p\",\"result\":{\"final_state\":\"s2\",\"reached_accepting\":true,\"conforming\":true,\"consumed\":2,\"violations\":[],\"path\":[{\"event_index\":0,\"event\":\"i:e#1\",\"from\":\"s0\",\"to\":\"s1\"},{\"event_index\":1,\"event\":\"r:ee\",\"from\":\"s1\",\"to\":\"s2\"}]}}"
    );
    assert_eq!(
        path_json(&r).to_compact(),
        "[{\"event_index\":0,\"event\":\"i:e#1\",\"from\":\"s0\",\"to\":\"s1\"},{\"event_index\":1,\"event\":\"r:ee\",\"from\":\"s1\",\"to\":\"s2\"}]"
    );
}

#[test]
fn check_json_lists_violations() {
    let mut t = good_transcript();
    t.events[1].seq = Some(3);
    let r = replay(&spec(), &t);
    let text = check_json(&r).to_compact();
    assert!(text.contains(
        "\"violations\":[{\"kind\":\"sequence_violation\",\"event_index\":1,\"event_id\":\"b\",\"state\":\"s1\",\"detail\":\"role `r` seq=3 but expected 0\"}]"
    ));
    assert!(text.contains("\"conforming\":false"));
}

#[test]
fn report_json_layout() {
    let cfg = FuzzConfig::default();
    let r = fuzz(&spec(), &good_transcript(), &cfg);
    let j = report_json(&r);
    assert_eq!(j.get("tool").and_then(|v| v.as_str()), Some("noisescope"));
    assert_eq!(j.get("protocol").and_then(|v| v.as_str()), Some("p"));
    assert_eq!(j.get("baseline_conforming").and_then(|v| v.as_bool()), Some(true));
    let count = r.findings.len().to_string();
    assert!(j.to_compact().contains(&format!("\"findings_count\":{count},")));
    let findings = j.get("findings").and_then(|v| v.as_array()).unwrap();
    assert_eq!(findings.len(), r.findings.len());
    let first = &findings[0];
    let seed_text = format!("\"seed\":{}", r.findings[0].seed as f64);
    assert!(first.to_compact().starts_with(&format!("{{{seed_text},")));
    let mp = first.get("minimized_plan").and_then(|v| v.as_array()).unwrap();
    assert_eq!(mp.len(), r.findings[0].minimized.plan.len());
    assert_eq!(
        mp[0].get("describe").and_then(|v| v.as_str()),
        Some(r.findings[0].minimized.plan[0].describe().as_str())
    );
}

#[test]
fn mutation_json_fields() {
    let cfg = FuzzConfig::default();
    let r = fuzz(&spec(), &good_transcript(), &cfg);
    let text = report_json(&r).to_compact();
    for f in &r.findings {
        for m in &f.minimized.plan {
            let expected = match m {
                Mutation::Drop { index } => format!(
                    "{{\"kind\":\"drop\",\"index\":{index},\"describe\":\"{}\"}}",
                    m.describe()
                ),
                Mutation::Duplicate { index } => format!(
                    "{{\"kind\":\"duplicate\",\"index\":{index},\"describe\":\"{}\"}}",
                    m.describe()
                ),
                Mutation::Reorder { a, b } => format!(
                    "{{\"kind\":\"reorder\",\"a\":{a},\"b\":{b},\"describe\":\"{}\"}}",
                    m.describe()
                ),
                Mutation::CorruptMeta { index, .. } => format!(
                    "{{\"kind\":\"corrupt_meta\",\"index\":{index},\"field\":"
                ),
            };
            assert!(text.contains(&expected), "{expected}");
        }
    }
}

#[test]
fn replay_text_conforming() {
    let r = replay(&spec(), &good_transcript());
    assert_eq!(
        replay_text(&r),
        "protocol: p\nfinal state: s2 (accepting)\nconforming: yes\npath:\n  s0 --[i:e#1]--> s1\n  s1 --[r:ee]--> s2\nviolations: none\n"
    );
}

#[test]
fn replay_text_with_violations() {
    let r = replay(&spec(), &Transcript::new("p"));
    assert_eq!(
        replay_text(&r),
        "protocol: p\nfinal state: s0 (NOT accepting)\nconforming: no\npath: (empty)\nviolations (1):\n  [not_accepting] @event 0 state=s0: final state `s0` is not accepting (accepting: [s2])\n"
    );
}

#[test]
fn report_text_layout() {
    let cfg = FuzzConfig::default();
    let r = fuzz(&spec(), &good_transcript(), &cfg);
    let text = report_text(&r);
    let head = format!(
        "noisescope — divergence report\n(structural analysis only; not a cryptographic proof)\nprotocol: p\nbaseline conforming: yes\ntrials: 256\nfindings: {}\n",
        r.findings.len()
    );
    assert!(text.starts_with(&head));
    let f = &r.findings[0];
    let mut block = format!(
        "\n--- finding #0 (seed {:#x}) ---\nminimized plan ({} of {} mutations, {} evals):\n",
        f.seed,
        f.minimized.plan.len(),
        f.minimized.original_len,
        f.minimized.evaluations
    );
    for m in &f.minimized.plan {
        block.push_str(&format!("  - {}\n", m.describe()));
    }
    block.push_str("divergence:\n");
    for line in replay_text(&f.result).lines() {
        block.push_str(&format!("  {line}\n"));
    }
    assert!(text[head.len()..].starts_with(&block));
}

#[test]
fn report_text_indents_embedded_lines() {
    let mut s = spec();
    s.name = "two\r\nlines".into();
    let r = fuzz(&s, &good_transcript(), &FuzzConfig::default());
    let text = report_text(&r);
    assert!(text.contains("divergence:\n  protocol: two\n  lines\n  final state:"));
}

#[test]
fn numbers_print_as_doubles() {
    for n in [
        0u64,
        7,
        12345,
        (1 << 53) - 1,
        1 << 53,
        (1 << 53) + 1,
        (1 << 53) + 3,
        0x5EED ^ 0x9E37_79B9_7F4A_7C15,
        u64::MAX - 1024,
        u64::MAX,
    ] {
        assert_eq!(double_text(n), format!("{}", n as f64), "{n}");
    }
    assert_eq!(double_text((1 << 53) + 1), "9007199254740992");
    assert_eq!(double_text((1 << 53) + 3), "9007199254740996");
    assert_eq!(double_text(u64::MAX), "18446744073709552000");
    assert_eq!(double_text(0x5EED ^ 0x9E37_79B9_7F4A_7C15), "11400714819323175000");
}

#[test]
fn numbers_print_as_doubles_widely() {
    let mut rng = noisescope::mutate::SplitMix64::new(99);
    for _ in 0..20000 {
        let x = rng.next_u64();
        for n in [x, x >> 7, x >> 11, x >> 20, x | 1 << 63] {
            assert_eq!(double_text(n), format!("{}", n as f64), "{n}");
        }
    }
    for shift in 50..64 {
        let base = 1u64 << shift;
        for d in 0..40u64 {
            for n in [base.wrapping_add(d), base.wrapping_sub(d), base.wrapping_add(d * 1000)] {
                assert_eq!(double_text(n), format!("{}", n as f64), "{n}");
            }
        }
    }
    // Values whose shortest digits tie between two candidates.
    for m in [150u64, 250, 350, 1250, 7750, 12500, 99500] {
        for shift in 55..64 {
            let step = 1u64 << (shift - 52);
            let n = ((1u64 << shift) / m) * m;
            for d in 0..20u64 {
                let v = n.wrapping_add(d * step);
                assert_eq!(double_text(v), format!("{}", v as f64), "{v}");
            }
        }
    }
}
