use noisescope::minimize::minimize;
use noisescope::model::{Event, Transcript};
use noisescope::mutate::Mutation;

fn base() -> Transcript {
    let mut t = Transcript::new("p");
    for i in 0..5 {
        t.events.push(Event::new(&format!("e{i}"), "i", "m"));
    }
    t
}

#[test]
fn removes_irrelevant_mutations() {
    // The transcript "fails" iff it has fewer than 5 events.
    let fails = |t: &Transcript| t.events.len() < 5;
    // Plan: one meaningful drop + several no-op reorders that don't shrink.
    let plan = vec![
        Mutation::Reorder { a: 0, b: 1 },
        Mutation::Drop { index: 2 },
        Mutation::Reorder { a: 1, b: 3 },
    ];
    let m = minimize(&base(), &[], &plan, &fails);
    assert_eq!(m.plan.len(), 1);
    assert!(matches!(m.plan[0], Mutation::Drop { .. }));
    assert_eq!(m.original_len, 3);
}

#[test]
fn non_failing_plan_unchanged() {
    let fails = |t: &Transcript| t.events.len() < 5;
    let plan = vec![Mutation::Reorder { a: 0, b: 1 }];
    let m = minimize(&base(), &[], &plan, &fails);
    assert_eq!(m.plan.len(), 1);
    assert_eq!(m.evaluations, 1);
}

#[test]
fn keeps_all_when_all_needed() {
    // Fails only if at least two events dropped (len < 4).
    let fails = |t: &Transcript| t.events.len() < 4;
    let plan = vec![Mutation::Drop { index: 0 }, Mutation::Drop { index: 0 }];
    let m = minimize(&base(), &[], &plan, &fails);
    assert_eq!(m.plan.len(), 2);
}

#[test]
fn minimized_plan_is_one_minimal_and_counts_evaluations() {
    let fails = |t: &Transcript| t.events.len() < 5;
    let plan = vec![
        Mutation::Drop { index: 0 },
        Mutation::Drop { index: 0 },
        Mutation::Reorder { a: 0, b: 1 },
    ];
    let m = minimize(&base(), &[], &plan, &fails);
    assert_eq!(m.plan, vec![Mutation::Drop { index: 0 }]);
    // full plan, then pass 1: remove #0 (kept), remove next #0 (kept), try reorder
    // (not failing); pass 2: try the last drop (not failing).
    assert_eq!(m.evaluations, 5);
    assert_eq!(m.original_len, 3);
}
