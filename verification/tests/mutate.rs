use noisescope::model::{Event, Transcript};
use noisescope::mutate::{apply_all, apply_one, generate_plan, MetaField, Mutation, SplitMix64};

fn t3() -> Transcript {
    let mut t = Transcript::new("p");
    for i in 0..3 {
        let mut e = Event::new(&format!("e{i}"), "i", "m");
        e.nonce = Some(i as u64);
        e.seq = Some(i as u64);
        t.events.push(e);
    }
    t
}

#[test]
fn splitmix_is_deterministic() {
    let mut a = SplitMix64::new(42);
    let mut b = SplitMix64::new(42);
    for _ in 0..100 {
        assert_eq!(a.next_u64(), b.next_u64());
    }
}

#[test]
fn drop_removes_event() {
    let out = apply_one(&t3(), &Mutation::Drop { index: 1 }, &[]);
    assert_eq!(out.events.len(), 2);
    assert_eq!(out.events[1].id, "e2");
}

#[test]
fn duplicate_inserts_copy() {
    let out = apply_one(&t3(), &Mutation::Duplicate { index: 0 }, &[]);
    assert_eq!(out.events.len(), 4);
    assert_eq!(out.events[1].id, "e0~dup");
}

#[test]
fn reorder_swaps() {
    let out = apply_one(&t3(), &Mutation::Reorder { a: 0, b: 2 }, &[]);
    assert_eq!(out.events[0].id, "e2");
    assert_eq!(out.events[2].id, "e0");
}

#[test]
fn corrupt_role_uses_other_role() {
    let roles = vec!["i".to_string(), "r".to_string()];
    let out = apply_one(
        &t3(),
        &Mutation::CorruptMeta {
            index: 0,
            field: MetaField::Role,
        },
        &roles,
    );
    assert_eq!(out.events[0].role, "r");
}

#[test]
fn out_of_range_is_noop() {
    let out = apply_one(&t3(), &Mutation::Drop { index: 99 }, &[]);
    assert_eq!(out.events.len(), 3);
}

#[test]
fn plan_is_reproducible() {
    let p1 = generate_plan(&mut SplitMix64::new(7), 3, 10);
    let p2 = generate_plan(&mut SplitMix64::new(7), 3, 10);
    assert_eq!(p1, p2);
}

#[test]
fn splitmix_known_outputs() {
    // Reference values of SplitMix64 seeded with 0.
    let mut g = SplitMix64::new(0);
    assert_eq!(g.next_u64(), 0xE220_A839_7B1D_CDAF);
    assert_eq!(g.next_u64(), 0x6E78_9E6A_A1B9_65F4);
}

#[test]
fn below_zero_does_not_advance() {
    let mut a = SplitMix64::new(5);
    let mut b = SplitMix64::new(5);
    assert_eq!(a.below(0), 0);
    assert_eq!(a.next_u64(), b.next_u64());
    for _ in 0..50 {
        assert!(a.below(7) < 7);
    }
}

#[test]
fn corrupt_nonce_toggles_zero() {
    let m = Mutation::CorruptMeta { index: 0, field: MetaField::Nonce };
    let once = apply_one(&t3(), &m, &[]);
    assert_eq!(once.events[0].nonce, None);
    let twice = apply_one(&once, &m, &[]);
    assert_eq!(twice.events[0].nonce, Some(0));
    let other = apply_one(&t3(), &Mutation::CorruptMeta { index: 2, field: MetaField::Nonce }, &[]);
    assert_eq!(other.events[2].nonce, Some(0));
}

#[test]
fn corrupt_seq_adds_seven_or_sets_99() {
    let m = Mutation::CorruptMeta { index: 1, field: MetaField::Sequence };
    let out = apply_one(&t3(), &m, &[]);
    assert_eq!(out.events[1].seq, Some(8));
    let mut t = t3();
    t.events[1].seq = None;
    assert_eq!(apply_one(&t, &m, &[]).events[1].seq, Some(99));
    t.events[1].seq = Some(u64::MAX);
    assert_eq!(apply_one(&t, &m, &[]).events[1].seq, Some(6));
}

#[test]
fn corrupt_role_without_other_role_is_noop() {
    let roles = vec!["i".to_string()];
    let out = apply_one(&t3(), &Mutation::CorruptMeta { index: 0, field: MetaField::Role }, &roles);
    assert_eq!(out.events[0].role, "i");
}

#[test]
fn reorder_twice_restores() {
    let m = Mutation::Reorder { a: 0, b: 2 };
    let back = apply_all(&t3(), &[m.clone(), m], &[]);
    assert_eq!(back, t3());
}

#[test]
fn duplicate_then_drop_restores() {
    let back = apply_all(&t3(), &[Mutation::Duplicate { index: 1 }, Mutation::Drop { index: 2 }], &[]);
    assert_eq!(back, t3());
}

#[test]
fn plan_indices_in_range_and_length() {
    for seed in 0..20u64 {
        let plan = generate_plan(&mut SplitMix64::new(seed), 4, 12);
        assert_eq!(plan.len(), 12);
        for m in &plan {
            match *m {
                Mutation::Drop { index } | Mutation::Duplicate { index } => assert!(index < 4),
                Mutation::Reorder { a, b } => {
                    assert!(a < 4 && b < 4);
                    assert_ne!(a, b);
                }
                Mutation::CorruptMeta { index, .. } => assert!(index < 4),
            }
        }
    }
    assert!(generate_plan(&mut SplitMix64::new(1), 0, 5).is_empty());
}

#[test]
fn kinds_and_descriptions() {
    assert_eq!(Mutation::Drop { index: 3 }.kind(), "drop");
    assert_eq!(Mutation::Drop { index: 3 }.describe(), "drop event #3");
    assert_eq!(Mutation::Duplicate { index: 0 }.describe(), "duplicate event #0");
    assert_eq!(Mutation::Reorder { a: 1, b: 12 }.kind(), "reorder");
    assert_eq!(Mutation::Reorder { a: 1, b: 12 }.describe(), "reorder events #1 <-> #12");
    let c = Mutation::CorruptMeta { index: 4, field: MetaField::Sequence };
    assert_eq!(c.kind(), "corrupt_meta");
    assert_eq!(c.describe(), "corrupt seq of event #4");
    assert_eq!(Mutation::Duplicate { index: 0 }.kind(), "duplicate");
}
