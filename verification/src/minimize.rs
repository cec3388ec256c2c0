//! Minimization of failing mutation plans (the final stage of delta debugging).
//!
//! When a mutation plan makes a transcript fail, the plan is usually longer
//! than necessary. [`minimize`] shrinks it to a 1-minimal subsequence: a plan
//! from which no single mutation can be removed without the transcript ceasing
//! to fail. It repeatedly tries removing each element, keeps a removal when the
//! shorter plan still fails, and runs to a fixed point.

use vstd::prelude::*;

use crate::model::{strings_view, Transcript, TranscriptView};
use crate::mutate::{apply_all, apply_all_spec, Mutation};

verus! {

/// Result of a minimization pass.
#[derive(Debug)]
pub struct Minimized {
    pub plan: Vec<Mutation>,
    /// Number of predicate evaluations performed.
    pub evaluations: usize,
    pub original_len: usize,
}

impl Clone for Minimized {
    fn clone(&self) -> (res: Self)
        ensures
            res.plan@ == self.plan@,
            res.evaluations == self.evaluations,
            res.original_len == self.original_len,
    {
        Minimized {
            plan: self.plan.clone(),
            evaluations: self.evaluations,
            original_len: self.original_len,
        }
    }
}

/// `idx` picks out `a` inside `b`: strictly increasing positions of `b` whose
/// elements are those of `a`, in order.
pub open spec fn embeds(a: Seq<Mutation>, b: Seq<Mutation>, idx: Seq<int>) -> bool {
    &&& idx.len() == a.len()
    &&& forall|k: int| 0 <= k < a.len() ==> 0 <= #[trigger] idx[k] < b.len() && a[k] == b[idx[k]]
    &&& forall|k: int, l: int| 0 <= k < l < a.len() ==> #[trigger] idx[k] < #[trigger] idx[l]
}

/// `a` is a subsequence of `b` (keeps `b`'s order, may leave elements out).
pub open spec fn is_subplan(a: Seq<Mutation>, b: Seq<Mutation>) -> bool {
    exists|idx: Seq<int>| embeds(a, b, idx)
}

/// Some call of `fails` on a transcript equal to `base` after `plan` returned `b`.
pub open spec fn observed<F: Fn(&Transcript) -> bool>(
    fails: F,
    base: TranscriptView,
    roles: Seq<Seq<char>>,
    plan: Seq<Mutation>,
    b: bool,
) -> bool {
    exists|t: Transcript|
        t@ == apply_all_spec(base, plan, roles) && #[trigger] call_ensures(fails, (&t,), b)
}

/// One pass of removal attempts over `cur`, from position `i` on, with `pred`
/// as the failure test: the plan after the pass, whether it removed anything,
/// and the number of evaluations so far. A removal that still fails is kept and
/// the same position is tried again; otherwise the pass moves on.
pub open spec fn removal_pass(
    pred: spec_fn(Seq<Mutation>) -> bool,
    cur: Seq<Mutation>,
    i: nat,
    changed: bool,
    evals: nat,
) -> (Seq<Mutation>, bool, nat)
    decreases cur.len() - i,
{
    if i >= cur.len() {
        (cur, changed, evals)
    } else if pred(cur.remove(i as int)) {
        removal_pass(pred, cur.remove(i as int), i, true, evals + 1)
    } else {
        removal_pass(pred, cur, i + 1, changed, evals + 1)
    }
}

/// Removal passes repeated until one removes nothing (at most `fuel` passes).
pub open spec fn removal_passes(
    pred: spec_fn(Seq<Mutation>) -> bool,
    cur: Seq<Mutation>,
    evals: nat,
    fuel: nat,
) -> (Seq<Mutation>, nat)
    decreases fuel,
{
    if fuel == 0 {
        (cur, evals)
    } else {
        let (next, changed, ev) = removal_pass(pred, cur, 0, false, evals);
        if changed {
            removal_passes(pred, next, ev, (fuel - 1) as nat)
        } else {
            (next, ev)
        }
    }
}

/// The minimized plan and the number of evaluations, when `pred` decides
/// which plans fail: a plan that does not fail is returned after one
/// evaluation; otherwise removal passes run to a fixed point.
pub open spec fn minimized_spec(pred: spec_fn(Seq<Mutation>) -> bool, plan: Seq<Mutation>) -> (
    Seq<Mutation>,
    nat,
) {
    if !pred(plan) {
        (plan, 1)
    } else {
        removal_passes(pred, plan, 1, plan.len() + 1)
    }
}

/// `pred` gives the result of every call of `fails` on `base` under a plan.
pub open spec fn decides<F: Fn(&Transcript) -> bool>(
    fails: F,
    base: TranscriptView,
    roles: Seq<Seq<char>>,
    pred: spec_fn(Seq<Mutation>) -> bool,
) -> bool {
    forall|p: Seq<Mutation>, b: bool| #[trigger] observed(fails, base, roles, p, b) ==> b == pred(p)
}

fn copy_plan(p: &[Mutation]) -> (v: Vec<Mutation>)
    ensures
        v@ == p@,
{
    let mut v: Vec<Mutation> = Vec::new();
    let mut i: usize = 0;
    while i < p.len()
        invariant
            i <= p@.len(),
            v@ == p@.take(i as int),
        decreases p@.len() - i,
    {
        v.push(p[i]);
        i += 1;
    }
    assert(p@.take(i as int) == p@);
    v
}

proof fn lemma_evaluation_bound(passes: nat, n: nat)
    requires
        passes <= n + 1,
    ensures
        passes * n <= (n + 1) * n,
{
    assert(passes * n <= (n + 1) * n) by (nonlinear_arith)
        requires
            passes <= n + 1,
    ;
}

/// Minimizes `plan` so that applying it to `base` still satisfies `fails`.
///
/// The full plan is evaluated first; if it does not fail, it is returned
/// unchanged after that single evaluation. Otherwise the result is a
/// subsequence of `plan` that fails, and removing any one of its mutations
/// gives a plan that does not fail (each as observed by a call of `fails`).
pub fn minimize<F: Fn(&Transcript) -> bool>(
    base: &Transcript,
    roles: &[String],
    plan: &[Mutation],
    fails: &F,
) -> (m: Minimized)
    requires
        forall|sub: Seq<Mutation>, t: Transcript|
            #![trigger is_subplan(sub, plan@), call_requires(*fails, (&t,))]
            is_subplan(sub, plan@) && t@ == apply_all_spec(base@, sub, strings_view(roles@))
                ==> call_requires(*fails, (&t,)),
        (plan@.len() + 1) * (plan@.len() + 1) <= usize::MAX,
    ensures
        m.original_len == plan@.len(),
        m.evaluations >= 1,
        is_subplan(m.plan@, plan@),
        ({
            let rs = strings_view(roles@);
            ||| {
                &&& m.evaluations == 1
                &&& m.plan@ == plan@
                &&& observed(*fails, base@, rs, plan@, false)
            }
            ||| {
                &&& observed(*fails, base@, rs, plan@, true)
                &&& observed(*fails, base@, rs, m.plan@, true)
                &&& forall|i: int|
                    0 <= i < m.plan@.len() ==> observed(
                        *fails,
                        base@,
                        rs,
                        #[trigger] m.plan@.remove(i),
                        false,
                    )
            }
        }),
        forall|pred: spec_fn(Seq<Mutation>) -> bool|
            #[trigger] decides(*fails, base@, strings_view(roles@), pred) ==> (
            m.plan@,
            m.evaluations as nat,
        ) == minimized_spec(pred, plan@),
{
    let ghost rs = strings_view(roles@);
    let ghost n = plan@.len();
    let original_len = plan.len();
    let mut evaluations: usize = 0;

    let full = apply_all(base, plan, roles);
    proof {
        let id = Seq::new(n, |k: int| k);
        assert(embeds(plan@, plan@, id));
        assert(is_subplan(plan@, plan@));
    }
    evaluations += 1;
    let full_fails = fails(&full);
    assert(call_ensures(*fails, (&full,), full_fails));
    assert(observed(*fails, base@, rs, plan@, full_fails));
    if !full_fails {
        let kept = copy_plan(plan);
        proof {
            let idx = Seq::new(n, |k: int| k);
            assert(embeds(kept@, plan@, idx));
            assert forall|pred: spec_fn(Seq<Mutation>) -> bool|
                #[trigger] decides(*fails, base@, rs, pred) implies (
                kept@,
                evaluations as nat,
            ) == minimized_spec(pred, plan@) by {
                assert(observed(*fails, base@, rs, plan@, full_fails));
            }
        }
        return Minimized { plan: kept, evaluations, original_len };
    }
    let mut current: Vec<Mutation> = copy_plan(plan);
    let ghost mut idx: Seq<int> = Seq::new(n, |k: int| k);
    let ghost mut passes: nat = 0;
    let mut changed = true;
    assert(embeds(current@, plan@, idx));
    assert((n + 1) * n + n + 1 == (n + 1) * (n + 1)) by (nonlinear_arith);
    assert forall|pred: spec_fn(Seq<Mutation>) -> bool|
        #[trigger] decides(*fails, base@, rs, pred) implies minimized_spec(pred, plan@)
        == removal_passes(pred, current@, evaluations as nat, (n + 1 - passes) as nat) by {
        assert(observed(*fails, base@, rs, plan@, full_fails));
    }
    while changed
        invariant
            n == plan@.len(),
            rs == strings_view(roles@),
            (n + 1) * n + n + 1 <= usize::MAX,
            forall|sub: Seq<Mutation>, t: Transcript|
                #![trigger is_subplan(sub, plan@), call_requires(*fails, (&t,))]
                is_subplan(sub, plan@) && t@ == apply_all_spec(base@, sub, rs)
                    ==> call_requires(*fails, (&t,)),
            embeds(current@, plan@, idx),
            current@.len() <= n,
            observed(*fails, base@, rs, plan@, true),
            observed(*fails, base@, rs, current@, true),
            changed ==> passes + current@.len() <= n,
            !changed ==> passes <= n + 1,
            !changed ==> forall|i: int|
                0 <= i < current@.len() ==> observed(
                    *fails,
                    base@,
                    rs,
                    #[trigger] current@.remove(i),
                    false,
                ),
            1 <= evaluations <= 1 + passes * n,
            forall|pred: spec_fn(Seq<Mutation>) -> bool|
                #[trigger] decides(*fails, base@, rs, pred) ==> minimized_spec(pred, plan@) == (
                if changed {
                    removal_passes(pred, current@, evaluations as nat, (n + 1 - passes) as nat)
                } else {
                    (current@, evaluations as nat)
                }),
        decreases current@.len() + if changed {
            1int
        } else {
            0int
        },
    {
        changed = false;
        let ghost start_len = current@.len();
        let ghost start_evals = evaluations;
        let ghost start_cur = current@;
        proof {
            lemma_evaluation_bound(passes, n);
        }
        let mut i: usize = 0;
        while i < current.len()
            invariant
                n == plan@.len(),
                rs == strings_view(roles@),
            rs == strings_view(roles@),
                (n + 1) * n + n + 1 <= usize::MAX,
                forall|sub: Seq<Mutation>, t: Transcript|
                #![trigger is_subplan(sub, plan@), call_requires(*fails, (&t,))]
                is_subplan(sub, plan@) && t@ == apply_all_spec(base@, sub, rs)
                    ==> call_requires(*fails, (&t,)),
                embeds(current@, plan@, idx),
                start_len <= n,
                observed(*fails, base@, rs, plan@, true),
                observed(*fails, base@, rs, current@, true),
                i <= current@.len(),
                current@.len() <= start_len,
                start_len + passes <= n + 1,
                changed <==> current@.len() < start_len,
                !changed ==> forall|j: int|
                    0 <= j < i ==> observed(
                        *fails,
                        base@,
                        rs,
                        #[trigger] current@.remove(j),
                        false,
                    ),
                evaluations == start_evals + i + (start_len - current@.len()),
                1 <= start_evals <= 1 + passes * n,
                passes * n <= (n + 1) * n,
                passes <= n,
                forall|pred: spec_fn(Seq<Mutation>) -> bool|
                    #[trigger] decides(*fails, base@, rs, pred) ==> minimized_spec(pred, plan@)
                        == removal_passes(
                        pred,
                        start_cur,
                        start_evals as nat,
                        (n + 1 - passes) as nat,
                    ),
                forall|pred: spec_fn(Seq<Mutation>) -> bool|
                    #[trigger] decides(*fails, base@, rs, pred) ==> removal_pass(
                        pred,
                        start_cur,
                        0,
                        false,
                        start_evals as nat,
                    ) == removal_pass(pred, current@, i as nat, changed, evaluations as nat),
            decreases current@.len() - i,
        {
            let mut candidate = copy_plan(current.as_slice());
            candidate.remove(i);
            let mutated = apply_all(base, candidate.as_slice(), roles);
            let ghost cand_idx = idx.remove(i as int);
            proof {
                assert forall|k: int, l: int|
                    0 <= k < l < candidate@.len() implies #[trigger] cand_idx[k]
                    < #[trigger] cand_idx[l] by {
                    if k < i {
                        assert(cand_idx[k] == idx[k]);
                    } else {
                        assert(cand_idx[k] == idx[k + 1]);
                    }
                    if l < i {
                        assert(cand_idx[l] == idx[l]);
                    } else {
                        assert(cand_idx[l] == idx[l + 1]);
                    }
                }
                assert forall|k: int| 0 <= k < candidate@.len() implies 0 <= #[trigger] cand_idx[k]
                    < plan@.len() && candidate@[k] == plan@[cand_idx[k]] by {
                    if k < i {
                        assert(cand_idx[k] == idx[k]);
                    } else {
                        assert(cand_idx[k] == idx[k + 1]);
                    }
                }
                assert(embeds(candidate@, plan@, cand_idx));
                assert(is_subplan(candidate@, plan@));
            }
            evaluations += 1;
            let r = fails(&mutated);
            assert(call_ensures(*fails, (&mutated,), r));
            assert(candidate@ == current@.remove(i as int));
            assert(mutated@ == apply_all_spec(base@, candidate@, rs));
            assert(observed(*fails, base@, rs, candidate@, r));
            proof {
                assert forall|pred: spec_fn(Seq<Mutation>) -> bool|
                    #[trigger] decides(*fails, base@, rs, pred) implies removal_pass(
                    pred,
                    current@,
                    i as nat,
                    changed,
                    (evaluations - 1) as nat,
                ) == (if r {
                    removal_pass(pred, candidate@, i as nat, true, evaluations as nat)
                } else {
                    removal_pass(pred, current@, (i + 1) as nat, changed, evaluations as nat)
                }) by {
                    assert(pred(candidate@) == r);
                }
            }
            if r {
                proof {
                    idx = cand_idx;
                }
                current = candidate;
                changed = true;
            } else {
                i += 1;
            }
        }
        proof {
            assert forall|pred: spec_fn(Seq<Mutation>) -> bool|
                #[trigger] decides(*fails, base@, rs, pred) implies removal_pass(
                pred,
                start_cur,
                0,
                false,
                start_evals as nat,
            ) == (current@, changed, evaluations as nat) by {
                assert(removal_pass(pred, current@, i as nat, changed, evaluations as nat) == (
                current@, changed, evaluations as nat));
            }
            passes = passes + 1;
            if changed {
                assert(passes + current@.len() <= n);
            }
            assert(passes * n == (passes - 1) * n + n) by (nonlinear_arith)
                requires
                    passes >= 1,
            ;
        }
    }
    Minimized { plan: current, evaluations, original_len }
}

} // verus!
