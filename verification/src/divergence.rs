//! Divergence reports and fuzzing orchestration.
//!
//! A divergence is the difference in outcome between replaying the original
//! transcript and replaying a mutated one. [`fuzz`] confirms the baseline,
//! generates deterministic mutation plans of varying length, replays each
//! mutated transcript, records the plans that break conformance and minimizes
//! each of them to a 1-minimal counter-example. Everything is determined by the
//! seed, the specification, the transcript and the budget.

use vstd::prelude::*;

use crate::engine::{conforming, replay, replay_aborts, replay_spec, ReplayResult, ReplayView};
use crate::minimize::{decides, is_subplan, minimize, minimized_spec, observed, Minimized};
use crate::model::{ProtocolSpec, ProtocolSpecView, Transcript, TranscriptView};
use crate::mutate::{
    apply_all, apply_all_spec, gen_plan, generate_plan, lemma_gen_plan_shape, Mutation,
    SplitMix64, SPLITMIX_GAMMA,
};

verus! {

/// A single divergence-inducing (and minimized) finding.
#[derive(Debug)]
pub struct Finding {
    /// The seed of the trial that produced the plan.
    pub seed: u64,
    /// The plan as generated.
    pub plan: Vec<Mutation>,
    pub minimized: Minimized,
    /// The replay of the transcript under the minimized plan.
    pub result: ReplayResult,
}

/// The full fuzzing report.
#[derive(Debug)]
pub struct FuzzReport {
    pub protocol: String,
    pub baseline_conforming: bool,
    pub baseline: ReplayResult,
    pub trials: usize,
    pub findings: Vec<Finding>,
}

/// The abstract value of a [`Finding`].
pub struct FindingView {
    pub seed: u64,
    pub plan: Seq<Mutation>,
    pub minimized: Seq<Mutation>,
    pub evaluations: nat,
    pub original_len: nat,
    pub result: ReplayView,
}

impl View for Finding {
    type V = FindingView;

    open spec fn view(&self) -> FindingView {
        FindingView {
            seed: self.seed,
            plan: self.plan@,
            minimized: self.minimized.plan@,
            evaluations: self.minimized.evaluations as nat,
            original_len: self.minimized.original_len as nat,
            result: self.result@,
        }
    }
}

/// The abstract value of a [`FuzzReport`].
pub struct FuzzReportView {
    pub protocol: Seq<char>,
    pub baseline_conforming: bool,
    pub baseline: ReplayView,
    pub trials: nat,
    pub findings: Seq<FindingView>,
}

impl View for FuzzReport {
    type V = FuzzReportView;

    open spec fn view(&self) -> FuzzReportView {
        FuzzReportView {
            protocol: self.protocol@,
            baseline_conforming: self.baseline_conforming,
            baseline: self.baseline@,
            trials: self.trials as nat,
            findings: self.findings@.map_values(|f: Finding| f@),
        }
    }
}

impl Clone for Finding {
    fn clone(&self) -> (res: Self)
        ensures
            res@ == self@,
    {
        Finding {
            seed: self.seed,
            plan: self.plan.clone(),
            minimized: self.minimized.clone(),
            result: self.result.clone(),
        }
    }
}

impl Clone for FuzzReport {
    fn clone(&self) -> (res: Self)
        ensures
            res@ == self@,
    {
        let findings = self.findings.clone();
        assert(findings@.map_values(|f: Finding| f@) =~= self.findings@.map_values(|f: Finding| f@));
        FuzzReport {
            protocol: self.protocol.clone(),
            baseline_conforming: self.baseline_conforming,
            baseline: self.baseline.clone(),
            trials: self.trials,
            findings,
        }
    }
}

/// Parameters controlling a fuzzing run.
#[derive(Debug)]
pub struct FuzzConfig {
    pub seed: u64,
    pub trials: usize,
    pub max_plan_len: usize,
    /// Stop after this many distinct findings (0 = unlimited within trials).
    pub max_findings: usize,
}

impl Clone for FuzzConfig {
    fn clone(&self) -> (c: Self)
        ensures
            c == *self,
    {
        FuzzConfig {
            seed: self.seed,
            trials: self.trials,
            max_plan_len: self.max_plan_len,
            max_findings: self.max_findings,
        }
    }
}

impl Default for FuzzConfig {
    fn default() -> (c: Self)
        ensures
            c.seed == 0x5EED,
            c.trials == 256,
            c.max_plan_len == 4,
            c.max_findings == 8,
    {
        FuzzConfig { seed: 0x5EED, trials: 256, max_plan_len: 4, max_findings: 8 }
    }
}

/// The seed of trial `k`.
pub open spec fn trial_seed(seed: u64, k: nat) -> u64 {
    seed ^ (k as u64).wrapping_mul(SPLITMIX_GAMMA)
}

/// The longest plan a run generates (`max_plan_len`, at least one).
pub open spec fn plan_cap(max_plan_len: usize) -> nat {
    if max_plan_len == 0 {
        1
    } else {
        max_plan_len as nat
    }
}

/// The length of the plan of trial `k`: lengths cycle through `1..=cap`.
pub open spec fn trial_plan_len(max_plan_len: usize, k: nat) -> nat {
    1 + k % plan_cap(max_plan_len)
}

/// The plan generated in trial `k` for a transcript of `tlen` events.
pub open spec fn trial_plan(seed: u64, max_plan_len: usize, tlen: nat, k: nat) -> Seq<Mutation> {
    gen_plan(trial_seed(seed, k), tlen, trial_plan_len(max_plan_len, k)).0
}

/// Whether the transcript under `plan` fails to conform.
pub open spec fn diverges(sv: ProtocolSpecView, tv: TranscriptView, plan: Seq<Mutation>) -> bool {
    !conforming(replay_spec(sv, apply_all_spec(tv, plan, sv.roles)))
}

/// `plan` diverges, and removing any single mutation from it does not.
pub open spec fn one_minimal(sv: ProtocolSpecView, tv: TranscriptView, plan: Seq<Mutation>) -> bool {
    &&& diverges(sv, tv, plan)
    &&& forall|i: int| 0 <= i < plan.len() ==> !diverges(sv, tv, #[trigger] plan.remove(i))
}

/// The failure test of a run: the transcript under the plan does not conform.
pub open spec fn divergence_pred(sv: ProtocolSpecView, tv: TranscriptView) -> spec_fn(
    Seq<Mutation>,
) -> bool {
    |p: Seq<Mutation>| diverges(sv, tv, p)
}

/// Whether some finding of `fs` has the minimized plan `plan`.
pub open spec fn has_minimized(fs: Seq<FindingView>, plan: Seq<Mutation>) -> bool {
    exists|j: int| 0 <= j < fs.len() && #[trigger] fs[j].minimized == plan
}

/// The findings of a run after its first `n` trials.
#[verifier::opaque]
pub open spec fn fuzz_findings(
    sv: ProtocolSpecView,
    tv: TranscriptView,
    seed: u64,
    max_plan_len: usize,
    max_findings: usize,
    n: nat,
) -> Seq<FindingView>
    decreases n,
{
    if n == 0 {
        seq![]
    } else {
        let prev = fuzz_findings(sv, tv, seed, max_plan_len, max_findings, (n - 1) as nat);
        let k = (n - 1) as nat;
        let plan = trial_plan(seed, max_plan_len, tv.events.len(), k);
        if max_findings != 0 && prev.len() >= max_findings {
            prev
        } else if plan.len() == 0 || !diverges(sv, tv, plan) {
            prev
        } else {
            let (mp, evals) = minimized_spec(divergence_pred(sv, tv), plan);
            if has_minimized(prev, mp) {
                prev
            } else {
                prev.push(
                    FindingView {
                        seed: trial_seed(seed, k),
                        plan,
                        minimized: mp,
                        evaluations: evals,
                        original_len: plan.len(),
                        result: replay_spec(sv, apply_all_spec(tv, mp, sv.roles)),
                    },
                )
            }
        }
    }
}

/// The new finding of trial `k` when its minimized plan is `mp` after `evals`
/// evaluations.
pub open spec fn trial_finding(
    sv: ProtocolSpecView,
    tv: TranscriptView,
    seed: u64,
    plan: Seq<Mutation>,
    k: nat,
    mp: Seq<Mutation>,
    evals: nat,
) -> FindingView {
    FindingView {
        seed: trial_seed(seed, k),
        plan,
        minimized: mp,
        evaluations: evals,
        original_len: plan.len(),
        result: replay_spec(sv, apply_all_spec(tv, mp, sv.roles)),
    }
}

proof fn lemma_fuzz_findings_next(
    sv: ProtocolSpecView,
    tv: TranscriptView,
    seed: u64,
    max_plan_len: usize,
    max_findings: usize,
    k: nat,
)
    requires
        !(max_findings != 0 && fuzz_findings(sv, tv, seed, max_plan_len, max_findings, k).len()
            >= max_findings),
    ensures
        ({
            let prev = fuzz_findings(sv, tv, seed, max_plan_len, max_findings, k);
            let next = fuzz_findings(sv, tv, seed, max_plan_len, max_findings, k + 1);
            let plan = trial_plan(seed, max_plan_len, tv.events.len(), k);
            let mp = minimized_spec(divergence_pred(sv, tv), plan);
            &&& (plan.len() == 0 || !diverges(sv, tv, plan)) ==> next == prev
            &&& (plan.len() > 0 && diverges(sv, tv, plan) && has_minimized(prev, mp.0)) ==> next
                == prev
            &&& (plan.len() > 0 && diverges(sv, tv, plan) && !has_minimized(prev, mp.0)) ==> next
                == prev.push(trial_finding(sv, tv, seed, plan, k, mp.0, mp.1))
        }),
{
    reveal(fuzz_findings);
}

proof fn lemma_fuzz_findings_saturated(
    sv: ProtocolSpecView,
    tv: TranscriptView,
    seed: u64,
    max_plan_len: usize,
    max_findings: usize,
    k: nat,
    n: nat,
)
    requires
        k <= n,
        max_findings != 0,
        fuzz_findings(sv, tv, seed, max_plan_len, max_findings, k).len() >= max_findings,
    ensures
        fuzz_findings(sv, tv, seed, max_plan_len, max_findings, n) == fuzz_findings(
            sv,
            tv,
            seed,
            max_plan_len,
            max_findings,
            k,
        ),
    decreases n - k,
{
    if k < n {
        lemma_fuzz_findings_saturated(sv, tv, seed, max_plan_len, max_findings, k, (n - 1) as nat);
        reveal(fuzz_findings);
    }
}

/// The report of a run.
pub open spec fn fuzz_spec(
    sv: ProtocolSpecView,
    tv: TranscriptView,
    seed: u64,
    trials: usize,
    max_plan_len: usize,
    max_findings: usize,
) -> FuzzReportView {
    let baseline = replay_spec(sv, tv);
    FuzzReportView {
        protocol: sv.name,
        baseline_conforming: conforming(baseline),
        baseline,
        trials: trials as nat,
        findings: fuzz_findings(sv, tv, seed, max_plan_len, max_findings, trials as nat),
    }
}

/// No subplan of `plan` makes the replay overflow a sequence counter.
pub open spec fn plan_safe(sv: ProtocolSpecView, tv: TranscriptView, plan: Seq<Mutation>) -> bool {
    forall|sub: Seq<Mutation>|
        #[trigger] is_subplan(sub, plan) ==> !replay_aborts(sv, apply_all_spec(tv, sub, sv.roles))
}

/// Every replay a run performs stays clear of sequence-counter overflow.
pub open spec fn fuzz_safe(
    sv: ProtocolSpecView,
    tv: TranscriptView,
    seed: u64,
    max_plan_len: usize,
    trials: nat,
) -> bool {
    &&& !replay_aborts(sv, tv)
    &&& forall|k: nat|
        k < trials ==> plan_safe(
            sv,
            tv,
            #[trigger] trial_plan(seed, max_plan_len, tv.events.len(), k),
        )
}

/// Finding `f` came from trial `k` and holds a minimized counter-example.
pub open spec fn finding_from_trial(
    sv: ProtocolSpecView,
    tv: TranscriptView,
    seed: u64,
    max_plan_len: usize,
    f: Finding,
    k: nat,
) -> bool {
    &&& f.seed == trial_seed(seed, k)
    &&& f.plan@ == trial_plan(seed, max_plan_len, tv.events.len(), k)
    &&& f.plan@.len() > 0
    &&& diverges(sv, tv, f.plan@)
    &&& f.minimized.original_len == f.plan@.len()
    &&& f.minimized.evaluations >= 1
    &&& is_subplan(f.minimized.plan@, f.plan@)
    &&& one_minimal(sv, tv, f.minimized.plan@)
    &&& f.result@ == replay_spec(sv, apply_all_spec(tv, f.minimized.plan@, sv.roles))
}

/// The findings come from strictly increasing trials `ks`, all below `trials`.
pub open spec fn findings_from_trials(
    sv: ProtocolSpecView,
    tv: TranscriptView,
    seed: u64,
    max_plan_len: usize,
    trials: nat,
    findings: Seq<Finding>,
    ks: Seq<nat>,
) -> bool {
    &&& ks.len() == findings.len()
    &&& forall|j: int| 0 <= j < ks.len() ==> #[trigger] ks[j] < trials
    &&& forall|j: int, l: int| 0 <= j < l < ks.len() ==> #[trigger] ks[j] < #[trigger] ks[l]
    &&& forall|j: int|
        0 <= j < findings.len() ==> finding_from_trial(
            sv,
            tv,
            seed,
            max_plan_len,
            #[trigger] findings[j],
            ks[j],
        )
}

/// Some finding's minimized plan is a subplan of `plan`.
pub open spec fn covered(findings: Seq<Finding>, plan: Seq<Mutation>) -> bool {
    exists|j: int| 0 <= j < findings.len() && is_subplan(#[trigger] findings[j].minimized.plan@, plan)
}

/// Every diverging plan among the first `n` trials is covered by a finding.
pub open spec fn complete_upto(
    sv: ProtocolSpecView,
    tv: TranscriptView,
    seed: u64,
    max_plan_len: usize,
    findings: Seq<Finding>,
    n: nat,
) -> bool {
    forall|k: nat|
        k < n && trial_plan(seed, max_plan_len, tv.events.len(), k).len() > 0 && diverges(
            sv,
            tv,
            #[trigger] trial_plan(seed, max_plan_len, tv.events.len(), k),
        ) ==> covered(findings, trial_plan(seed, max_plan_len, tv.events.len(), k))
}

/// No two findings share a minimized plan.
pub open spec fn distinct_minimized(findings: Seq<Finding>) -> bool {
    forall|j: int, l: int|
        0 <= j < l < findings.len() ==> #[trigger] findings[j].minimized.plan@
            != #[trigger] findings[l].minimized.plan@
}

fn plans_equal(a: &Vec<Mutation>, b: &Vec<Mutation>) -> (r: bool)
    ensures
        r == (a@ == b@),
{
    if a.len() != b.len() {
        return false;
    }
    let mut i: usize = 0;
    while i < a.len()
        invariant
            a@.len() == b@.len(),
            i <= a@.len(),
            forall|j: int| 0 <= j < i ==> a@[j] == b@[j],
        decreases a@.len() - i,
    {
        if a[i] != b[i] {
            return false;
        }
        i += 1;
    }
    assert(a@ =~= b@);
    true
}

fn already_found(findings: &Vec<Finding>, plan: &Vec<Mutation>) -> (r: bool)
    ensures
        r == exists|j: int| 0 <= j < findings@.len() && #[trigger] findings@[j].minimized.plan@ == plan@,
{
    let mut j: usize = 0;
    while j < findings.len()
        invariant
            j <= findings@.len(),
            forall|l: int| 0 <= l < j ==> #[trigger] findings@[l].minimized.plan@ != plan@,
        decreases findings@.len() - j,
    {
        if plans_equal(&findings[j].minimized.plan, plan) {
            return true;
        }
        j += 1;
    }
    false
}

/// Minimizes a diverging plan with "does not conform" as the failure test.
fn minimize_divergence(spec: &ProtocolSpec, transcript: &Transcript, plan: &Vec<Mutation>) -> (m:
    Minimized)
    requires
        plan_safe(spec@, transcript@, plan@),
        diverges(spec@, transcript@, plan@),
        (plan@.len() + 1) * (plan@.len() + 1) <= usize::MAX,
    ensures
        m.original_len == plan@.len(),
        m.evaluations >= 1,
        is_subplan(m.plan@, plan@),
        one_minimal(spec@, transcript@, m.plan@),
        (m.plan@, m.evaluations as nat) == minimized_spec(divergence_pred(spec@, transcript@), plan@),
{
    let ghost sv = spec@;
    let ghost tv = transcript@;
    let fails = |t: &Transcript| -> (b: bool)
        requires
            !replay_aborts(spec@, t@),
        ensures
            b == !conforming(replay_spec(spec@, t@)),
        { !replay(spec, t).is_conforming() };
    let m = minimize(transcript, spec.roles.as_slice(), plan.as_slice(), &fails);
    proof {
        assert forall|p: Seq<Mutation>, b: bool|
            #[trigger] observed(fails, tv, sv.roles, p, b) implies b == diverges(sv, tv, p) by {
            let t = choose|t: Transcript|
                t@ == apply_all_spec(tv, p, sv.roles) && #[trigger] call_ensures(fails, (&t,), b);
            assert(call_ensures(fails, (&t,), b));
        }
        assert forall|i: int| 0 <= i < m.plan@.len() implies !diverges(
            sv,
            tv,
            #[trigger] m.plan@.remove(i),
        ) by {
            assert(observed(fails, tv, sv.roles, m.plan@.remove(i), false));
        }
        assert(decides(fails, tv, sv.roles, divergence_pred(sv, tv)));
    }
    m
}

proof fn lemma_subplan_refl(p: Seq<Mutation>)
    ensures
        is_subplan(p, p),
{
    let idx = Seq::new(p.len(), |k: int| k);
    assert(crate::minimize::embeds(p, p, idx));
}

proof fn lemma_square_mono(a: nat, b: nat)
    requires
        a <= b,
    ensures
        (a + 1) * (a + 1) <= (b + 1) * (b + 1),
{
    assert((a + 1) * (a + 1) <= (b + 1) * (b + 1)) by (nonlinear_arith)
        requires
            a <= b,
    ;
}

proof fn lemma_covered_push(findings: Seq<Finding>, f: Finding, p: Seq<Mutation>)
    requires
        covered(findings, p),
    ensures
        covered(findings.push(f), p),
{
    let j = choose|j: int|
        0 <= j < findings.len() && is_subplan(#[trigger] findings[j].minimized.plan@, p);
    assert(findings.push(f)[j] == findings[j]);
}

/// The loop state of a run after `n` trials.
pub open spec fn run_state(
    sv: ProtocolSpecView,
    tv: TranscriptView,
    cfg: FuzzConfig,
    findings: Seq<Finding>,
    ks: Seq<nat>,
    n: nat,
) -> bool {
    &&& cfg.max_findings != 0 ==> findings.len() <= cfg.max_findings
    &&& distinct_minimized(findings)
    &&& findings_from_trials(sv, tv, cfg.seed, cfg.max_plan_len, n, findings, ks)
    &&& complete_upto(sv, tv, cfg.seed, cfg.max_plan_len, findings, n)
    &&& findings.map_values(|f: Finding| f@) == fuzz_findings(
        sv,
        tv,
        cfg.seed,
        cfg.max_plan_len,
        cfg.max_findings,
        n,
    )
}

/// Runs trial `trial`, recording a new finding when it yields one.
#[verifier::rlimit(60)]
#[verifier::spinoff_prover]
fn run_trial(
    spec: &ProtocolSpec,
    transcript: &Transcript,
    cfg: &FuzzConfig,
    trial: usize,
    findings: &mut Vec<Finding>,
    Ghost(ks): Ghost<Seq<nat>>,
) -> (new_ks: Ghost<Seq<nat>>)
    requires
        fuzz_safe(spec@, transcript@, cfg.seed, cfg.max_plan_len, cfg.trials as nat),
        (plan_cap(cfg.max_plan_len) + 1) * (plan_cap(cfg.max_plan_len) + 1) <= usize::MAX,
        trial < cfg.trials,
        cfg.max_findings != 0 ==> old(findings)@.len() < cfg.max_findings,
        run_state(spec@, transcript@, *cfg, old(findings)@, ks, trial as nat),
    ensures
        run_state(spec@, transcript@, *cfg, final(findings)@, new_ks@, trial as nat + 1),
{
    let ghost sv = spec@;
    let ghost tv = transcript@;
    let ghost tlen = tv.events.len();
    let ghost k = trial as nat;
    let ghost prev = fuzz_findings(sv, tv, cfg.seed, cfg.max_plan_len, cfg.max_findings, k);
    let ghost old_views = findings@.map_values(|f: Finding| f@);
    proof {
        lemma_fuzz_findings_next(sv, tv, cfg.seed, cfg.max_plan_len, cfg.max_findings, k);
    }
    let cap: usize = if cfg.max_plan_len == 0 {
        1
    } else {
        cfg.max_plan_len
    };
    let plan_len = 1 + trial % cap;
    let seed_k = cfg.seed ^ (trial as u64).wrapping_mul(SPLITMIX_GAMMA);
    let mut trial_rng = SplitMix64::new(seed_k);
    let plan = generate_plan(&mut trial_rng, transcript.events.len(), plan_len);
    proof {
        lemma_gen_plan_shape(seed_k, tlen, plan_len as nat);
        assert(seed_k == trial_seed(cfg.seed, k));
        assert(plan@ == trial_plan(cfg.seed, cfg.max_plan_len, tlen, k));
        assert(plan_safe(sv, tv, plan@));
        lemma_subplan_refl(plan@);
    }
    if plan.len() == 0 {
        assert(fuzz_findings(sv, tv, cfg.seed, cfg.max_plan_len, cfg.max_findings, k + 1) == prev);
        return Ghost(ks);
    }
    let mutated = apply_all(transcript, plan.as_slice(), spec.roles.as_slice());
    let result = replay(spec, &mutated);
    if result.is_conforming() {
        assert(fuzz_findings(sv, tv, cfg.seed, cfg.max_plan_len, cfg.max_findings, k + 1) == prev);
        return Ghost(ks);
    }
    proof {
        lemma_square_mono(plan@.len(), cap as nat);
    }
    let minimized = minimize_divergence(spec, transcript, &plan);
    if already_found(findings, &minimized.plan) {
        proof {
            let j = choose|j: int|
                0 <= j < findings@.len() && #[trigger] findings@[j].minimized.plan@
                    == minimized.plan@;
            assert(is_subplan(findings@[j].minimized.plan@, plan@));
            assert(covered(findings@, plan@));
            assert(old_views[j].minimized == minimized.plan@);
            assert(has_minimized(prev, minimized.plan@));
            assert(fuzz_findings(sv, tv, cfg.seed, cfg.max_plan_len, cfg.max_findings, k + 1)
                == prev);
        }
        return Ghost(ks);
    }
    let min_mutated = apply_all(transcript, minimized.plan.as_slice(), spec.roles.as_slice());
    let min_result = replay(spec, &min_mutated);
    let f = Finding { seed: seed_k, plan, minimized, result: min_result };
    let ghost old_findings = findings@;
    assert(finding_from_trial(sv, tv, cfg.seed, cfg.max_plan_len, f, k));
    findings.push(f);
    let ghost new_ks = ks.push(k);
    proof {
        let fs = findings@;
        assert(fs.len() == old_findings.len() + 1);
        assert forall|j: int| 0 <= j < old_findings.len() implies #[trigger] fs[j] == old_findings[j] by {}
        assert(fs[old_findings.len() as int] == f);
        assert forall|k2: nat|
            k2 < trial + 1 && trial_plan(cfg.seed, cfg.max_plan_len, tlen, k2).len() > 0 && diverges(
                sv,
                tv,
                #[trigger] trial_plan(cfg.seed, cfg.max_plan_len, tlen, k2),
            ) implies covered(fs, trial_plan(cfg.seed, cfg.max_plan_len, tlen, k2)) by {
            if k2 < trial {
                lemma_covered_push(old_findings, f, trial_plan(cfg.seed, cfg.max_plan_len, tlen, k2));
            } else {
                let j = old_findings.len() as int;
                assert(is_subplan(fs[j].minimized.plan@, plan@));
            }
        }
        assert(findings_from_trials(sv, tv, cfg.seed, cfg.max_plan_len, k + 1, fs, new_ks));
        assert(distinct_minimized(fs));
        assert(!has_minimized(prev, f.minimized.plan@)) by {
            if has_minimized(prev, f.minimized.plan@) {
                let j = choose|j: int| 0 <= j < prev.len() && #[trigger] prev[j].minimized == f.minimized.plan@;
                assert(old_findings[j].minimized.plan@ == f.minimized.plan@);
            }
        }
        assert(fs.map_values(|g: Finding| g@) =~= old_views.push(f@));
        assert(f@ == trial_finding(sv, tv, cfg.seed, plan@, k, f.minimized.plan@, f.minimized.evaluations as nat));
    }
    Ghost(new_ks)
}

/// Runs the fuzzer, with "does not conform" as the failure test.
///
/// Trial `k` generates a plan of `1 + k % max(max_plan_len, 1)` mutations from
/// the seed `seed ^ k * GAMMA` (wrapping). A plan whose transcript still
/// conforms is skipped; a diverging one is minimized, and its minimized plan
/// becomes a finding unless an earlier finding has the same minimized plan.
/// The run stops early once `max_findings` findings exist (when it is not 0).
pub fn fuzz(spec: &ProtocolSpec, transcript: &Transcript, cfg: &FuzzConfig) -> (r: FuzzReport)
    requires
        fuzz_safe(spec@, transcript@, cfg.seed, cfg.max_plan_len, cfg.trials as nat),
        (plan_cap(cfg.max_plan_len) + 1) * (plan_cap(cfg.max_plan_len) + 1) <= usize::MAX,
    ensures
        r@ == fuzz_spec(
            spec@,
            transcript@,
            cfg.seed,
            cfg.trials,
            cfg.max_plan_len,
            cfg.max_findings,
        ),
        cfg.max_findings != 0 ==> r.findings@.len() <= cfg.max_findings,
        distinct_minimized(r.findings@),
        exists|ks: Seq<nat>|
            #[trigger] findings_from_trials(
                spec@,
                transcript@,
                cfg.seed,
                cfg.max_plan_len,
                cfg.trials as nat,
                r.findings@,
                ks,
            ),
        exists|n: nat|
            #[trigger] complete_upto(
                spec@,
                transcript@,
                cfg.seed,
                cfg.max_plan_len,
                r.findings@,
                n,
            ) && n <= cfg.trials && (n < cfg.trials ==> cfg.max_findings != 0
                && r.findings@.len() == cfg.max_findings),
{
    let baseline = replay(spec, transcript);
    let mut findings: Vec<Finding> = Vec::new();
    let mut rng = SplitMix64::new(cfg.seed);
    let ghost mut ks: Seq<nat> = Seq::empty();
    let mut trial: usize = 0;
    assert(findings@.map_values(|f: Finding| f@) =~= Seq::<FindingView>::empty());
    proof {
        reveal(fuzz_findings);
        assert(fuzz_findings(spec@, transcript@, cfg.seed, cfg.max_plan_len, cfg.max_findings, 0)
            == Seq::<FindingView>::empty());
    }
    while trial < cfg.trials && (cfg.max_findings == 0 || findings.len() < cfg.max_findings)
        invariant
            fuzz_safe(spec@, transcript@, cfg.seed, cfg.max_plan_len, cfg.trials as nat),
            (plan_cap(cfg.max_plan_len) + 1) * (plan_cap(cfg.max_plan_len) + 1) <= usize::MAX,
            trial <= cfg.trials,
            run_state(spec@, transcript@, *cfg, findings@, ks, trial as nat),
        decreases cfg.trials - trial,
    {
        let Ghost(next) = run_trial(spec, transcript, cfg, trial, &mut findings, Ghost(ks));
        proof {
            ks = next;
        }
        // The run-level generator advances once per trial.
        let _ = rng.next_u64();
        trial += 1;
    }
    proof {
        let fs = findings@;
        assert(findings_from_trials(
            spec@,
            transcript@,
            cfg.seed,
            cfg.max_plan_len,
            cfg.trials as nat,
            fs,
            ks,
        ));
        assert(complete_upto(spec@, transcript@, cfg.seed, cfg.max_plan_len, fs, trial as nat));
    }
    let baseline_conforming = baseline.is_conforming();
    let r = FuzzReport {
        protocol: spec.name.clone(),
        baseline_conforming,
        baseline,
        trials: cfg.trials,
        findings,
    };
    proof {
        let n = trial as nat;
        assert(complete_upto(spec@, transcript@, cfg.seed, cfg.max_plan_len, r.findings@, n));
        assert(n < cfg.trials ==> cfg.max_findings != 0 && r.findings@.len() == cfg.max_findings);
        if n < cfg.trials {
            lemma_fuzz_findings_saturated(
                spec@,
                transcript@,
                cfg.seed,
                cfg.max_plan_len,
                cfg.max_findings,
                n,
                cfg.trials as nat,
            );
        }
    }
    r
}

} // verus!
