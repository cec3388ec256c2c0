//! Transcript replay and invariant checking.
//!
//! Given a protocol specification and a transcript, [`replay`] walks the events
//! in order, driving the state machine and enforcing four families of
//! structural invariants: the role and the order of messages (a transition must
//! exist for the current state, role and message), nonce freshness, and
//! per-role sequence numbers. These are structural checks only.

use std::collections::BTreeSet;
use vstd::prelude::*;

use crate::model::{
    events_view, label_spec, matching_spec, strings_view, Event, EventView, ProtocolSpec,
    ProtocolSpecView, Transcript, TransitionView,
};
use crate::text::{chars_of, decimal, push_decimal, push_str, str_eq};

verus! {

/// The category of an invariant violation.
#[derive(Debug, Clone, Copy, PartialEq, Eq)]
pub enum ViolationKind {
    /// No transition exists for the current state, role and message.
    UnexpectedMessage,
    /// A transition exists for the message, but not for this role, in this state.
    RoleMismatch,
    /// A required fresh nonce was missing or replayed.
    NonceReplay,
    /// A required sequence number was missing or out of order.
    SequenceViolation,
    /// The run ended in a non-accepting state.
    NotAccepting,
}

/// The report label of a violation kind.
pub open spec fn kind_label(k: ViolationKind) -> Seq<char> {
    match k {
        ViolationKind::UnexpectedMessage => "unexpected_message"@,
        ViolationKind::RoleMismatch => "role_mismatch"@,
        ViolationKind::NonceReplay => "nonce_replay"@,
        ViolationKind::SequenceViolation => "sequence_violation"@,
        ViolationKind::NotAccepting => "not_accepting"@,
    }
}

impl ViolationKind {
    /// A stable label for reports.
    pub fn as_str(&self) -> (r: &'static str)
        ensures
            r@ == kind_label(*self),
    {
        match self {
            ViolationKind::UnexpectedMessage => "unexpected_message",
            ViolationKind::RoleMismatch => "role_mismatch",
            ViolationKind::NonceReplay => "nonce_replay",
            ViolationKind::SequenceViolation => "sequence_violation",
            ViolationKind::NotAccepting => "not_accepting",
        }
    }
}

/// A single invariant violation encountered during replay.
#[derive(Debug, PartialEq)]
pub struct Violation {
    pub kind: ViolationKind,
    /// Index of the offending event (the event count for `NotAccepting`).
    pub event_index: usize,
    /// The event id, if applicable.
    pub event_id: Option<String>,
    pub state: String,
    pub detail: String,
}

/// The abstract value of a [`Violation`].
pub struct ViolationView {
    pub kind: ViolationKind,
    pub event_index: nat,
    pub event_id: Option<Seq<char>>,
    pub state: Seq<char>,
    pub detail: Seq<char>,
}

impl View for Violation {
    type V = ViolationView;

    open spec fn view(&self) -> ViolationView {
        ViolationView {
            kind: self.kind,
            event_index: self.event_index as nat,
            event_id: crate::model::opt_string_view(self.event_id),
            state: self.state@,
            detail: self.detail@,
        }
    }
}

/// One step of the walk through the machine.
#[derive(Debug, PartialEq)]
pub struct PathStep {
    pub event_index: usize,
    pub event_label: String,
    pub from: String,
    pub to: String,
}

/// The abstract value of a [`PathStep`].
pub struct PathStepView {
    pub event_index: nat,
    pub event_label: Seq<char>,
    pub from: Seq<char>,
    pub to: Seq<char>,
}

impl View for PathStep {
    type V = PathStepView;

    open spec fn view(&self) -> PathStepView {
        PathStepView {
            event_index: self.event_index as nat,
            event_label: self.event_label@,
            from: self.from@,
            to: self.to@,
        }
    }
}

/// The full outcome of replaying a transcript against a specification.
#[derive(Debug, PartialEq)]
pub struct ReplayResult {
    pub protocol: String,
    /// State the machine halted in.
    pub final_state: String,
    pub reached_accepting: bool,
    pub violations: Vec<Violation>,
    pub path: Vec<PathStep>,
    /// Number of events consumed.
    pub consumed: usize,
}

/// The abstract value of a [`ReplayResult`].
pub struct ReplayView {
    pub protocol: Seq<char>,
    pub final_state: Seq<char>,
    pub reached_accepting: bool,
    pub violations: Seq<ViolationView>,
    pub path: Seq<PathStepView>,
    pub consumed: nat,
}

impl View for ReplayResult {
    type V = ReplayView;

    open spec fn view(&self) -> ReplayView {
        ReplayView {
            protocol: self.protocol@,
            final_state: self.final_state@,
            reached_accepting: self.reached_accepting,
            violations: self.violations@.map_values(|v: Violation| v@),
            path: self.path@.map_values(|p: PathStep| p@),
            consumed: self.consumed as nat,
        }
    }
}

impl Clone for Violation {
    fn clone(&self) -> (res: Self)
        ensures
            res@ == self@,
    {
        Violation {
            kind: self.kind,
            event_index: self.event_index,
            event_id: match &self.event_id {
                Some(s) => Some(s.clone()),
                None => None,
            },
            state: self.state.clone(),
            detail: self.detail.clone(),
        }
    }
}

impl Clone for PathStep {
    fn clone(&self) -> (res: Self)
        ensures
            res@ == self@,
    {
        PathStep {
            event_index: self.event_index,
            event_label: self.event_label.clone(),
            from: self.from.clone(),
            to: self.to.clone(),
        }
    }
}

impl Clone for ReplayResult {
    fn clone(&self) -> (res: Self)
        ensures
            res@ == self@,
    {
        let violations = self.violations.clone();
        let path = self.path.clone();
        assert(violations@.map_values(|v: Violation| v@) =~= self.violations@.map_values(
            |v: Violation| v@,
        ));
        assert(path@.map_values(|p: PathStep| p@) =~= self.path@.map_values(|p: PathStep| p@));
        ReplayResult {
            protocol: self.protocol.clone(),
            final_state: self.final_state.clone(),
            reached_accepting: self.reached_accepting,
            violations,
            path,
            consumed: self.consumed,
        }
    }
}

/// A run conforms when no invariant was violated and the machine accepted.
pub open spec fn conforming(r: ReplayView) -> bool {
    r.violations.len() == 0 && r.reached_accepting
}

impl ReplayResult {
    /// True when no invariants were violated and the machine accepted.
    pub fn is_conforming(&self) -> (b: bool)
        ensures
            b == conforming(self@),
    {
        self.violations.len() == 0 && self.reached_accepting
    }
}

/// Lexicographic order on character sequences (the order of `String`).
pub open spec fn lex_lt(a: Seq<char>, b: Seq<char>) -> bool
    decreases a.len(),
{
    if a.len() == 0 {
        b.len() > 0
    } else if b.len() == 0 {
        false
    } else if a[0] != b[0] {
        (a[0] as u32) < (b[0] as u32)
    } else {
        lex_lt(a.drop_first(), b.drop_first())
    }
}

/// Inserts `x` into a strictly increasing sequence, unless already present.
pub open spec fn insert_sorted(s: Seq<Seq<char>>, x: Seq<char>) -> Seq<Seq<char>>
    decreases s.len(),
{
    if s.len() == 0 {
        seq![x]
    } else if s[0] == x {
        s
    } else if lex_lt(x, s[0]) {
        seq![x] + s
    } else {
        seq![s[0]] + insert_sorted(s.drop_first(), x)
    }
}

/// The `role:msg` label of a transition.
pub open spec fn transition_label(t: TransitionView) -> Seq<char> {
    t.role + ":"@ + t.msg
}

/// The labels of the transitions among the first `n` that leave `state`,
/// sorted and without duplicates.
pub open spec fn expected_prefix(ts: Seq<TransitionView>, state: Seq<char>, n: nat) -> Seq<Seq<char>>
    decreases n,
{
    if n == 0 {
        seq![]
    } else {
        let prev = expected_prefix(ts, state, (n - 1) as nat);
        if ts[n - 1].from == state {
            insert_sorted(prev, transition_label(ts[n - 1]))
        } else {
            prev
        }
    }
}

/// The sorted, de-duplicated `role:msg` labels accepted from `state`.
pub open spec fn expected_labels(spec: ProtocolSpecView, state: Seq<char>) -> Seq<Seq<char>> {
    expected_prefix(spec.transitions, state, spec.transitions.len())
}

/// The elements of `s` separated by `sep`.
pub open spec fn join(s: Seq<Seq<char>>, sep: Seq<char>) -> Seq<char>
    decreases s.len(),
{
    if s.len() == 0 {
        seq![]
    } else if s.len() == 1 {
        s[0]
    } else {
        join(s.drop_last(), sep) + sep + s.last()
    }
}

/// Some transition leaves `state` on message `msg` for a role other than `role`.
pub open spec fn msg_for_other_role(
    ts: Seq<TransitionView>,
    state: Seq<char>,
    msg: Seq<char>,
    role: Seq<char>,
) -> bool {
    exists|k: int| 0 <= k < ts.len() && #[trigger] ts[k].from == state && ts[k].msg == msg && ts[k].role != role
}

/// The working state of a replay.
pub struct ReplayState {
    pub state: Seq<char>,
    pub seen: Set<u64>,
    pub last_seq: Map<Seq<char>, u64>,
    pub violations: Seq<ViolationView>,
    pub path: Seq<PathStepView>,
}

/// The detail of a message that has no transition from the current state.
pub open spec fn detail_unexpected(spec: ProtocolSpecView, state: Seq<char>, ev: EventView) -> Seq<
    char,
> {
    "got "@ + ev.role + ":"@ + ev.msg + " in state `"@ + state + "`; expected one of ["@ + join(
        expected_labels(spec, state),
        ", "@,
    ) + "]"@
}

pub open spec fn detail_nonce_missing(ev: EventView) -> Seq<char> {
    "transition "@ + ev.role + ":"@ + ev.msg + " requires a nonce but none present"@
}

pub open spec fn detail_nonce_replayed(n: u64) -> Seq<char> {
    "nonce "@ + decimal(n as nat) + " replayed (already observed)"@
}

pub open spec fn detail_seq_missing(ev: EventView) -> Seq<char> {
    "transition "@ + ev.role + ":"@ + ev.msg + " requires seq but none present"@
}

pub open spec fn detail_seq_wrong(ev: EventView, s: u64, expected: nat) -> Seq<char> {
    "role `"@ + ev.role + "` seq="@ + decimal(s as nat) + " but expected "@ + decimal(expected)
}

pub open spec fn detail_not_accepting(spec: ProtocolSpecView, state: Seq<char>) -> Seq<char> {
    "final state `"@ + state + "` is not accepting (accepting: ["@ + join(spec.accepting, ", "@)
        + "])"@
}

pub open spec fn event_violation(
    kind: ViolationKind,
    i: nat,
    ev: EventView,
    state: Seq<char>,
    detail: Seq<char>,
) -> ViolationView {
    ViolationView { kind, event_index: i, event_id: Some(ev.id), state, detail }
}

/// The nonce check for event `i` under transition `t`: the violations and the
/// set of seen nonces after it.
pub open spec fn nonce_step(
    t: TransitionView,
    st: ReplayState,
    i: nat,
    ev: EventView,
) -> (Seq<ViolationView>, Set<u64>) {
    if t.requires_fresh_nonce {
        match ev.nonce {
            None => (
                st.violations.push(
                    event_violation(
                        ViolationKind::NonceReplay,
                        i,
                        ev,
                        st.state,
                        detail_nonce_missing(ev),
                    ),
                ),
                st.seen,
            ),
            Some(n) => if st.seen.contains(n) {
                (
                    st.violations.push(
                        event_violation(
                            ViolationKind::NonceReplay,
                            i,
                            ev,
                            st.state,
                            detail_nonce_replayed(n),
                        ),
                    ),
                    st.seen,
                )
            } else {
                (st.violations, st.seen.insert(n))
            },
        }
    } else {
        match ev.nonce {
            Some(n) => (st.violations, st.seen.insert(n)),
            None => (st.violations, st.seen),
        }
    }
}

/// The sequence number expected next from a role whose last one was `prev`.
pub open spec fn expected_seq(prev: Option<u64>) -> nat {
    match prev {
        Some(p) => (p + 1) as nat,
        None => 0,
    }
}

pub open spec fn last_seq_of(m: Map<Seq<char>, u64>, role: Seq<char>) -> Option<u64> {
    if m.contains_key(role) {
        Some(m[role])
    } else {
        None
    }
}

/// Whether the sequence check for `ev` overflows: the role's last sequence
/// number is the largest `u64` and the transition requires the next one.
pub open spec fn seq_overflows(t: TransitionView, st: ReplayState, ev: EventView) -> bool {
    t.requires_seq && ev.seq is Some && last_seq_of(st.last_seq, ev.role) == Some(u64::MAX)
}

/// The sequence check for event `i` under transition `t`, after the nonce check
/// left `viols`: the violations and per-role last sequence numbers after it.
pub open spec fn seq_step(
    t: TransitionView,
    st: ReplayState,
    viols: Seq<ViolationView>,
    i: nat,
    ev: EventView,
) -> (Seq<ViolationView>, Map<Seq<char>, u64>) {
    if t.requires_seq {
        match ev.seq {
            None => (
                viols.push(
                    event_violation(
                        ViolationKind::SequenceViolation,
                        i,
                        ev,
                        st.state,
                        detail_seq_missing(ev),
                    ),
                ),
                st.last_seq,
            ),
            Some(s) => {
                let expected = expected_seq(last_seq_of(st.last_seq, ev.role));
                (
                    if s != expected {
                        viols.push(
                            event_violation(
                                ViolationKind::SequenceViolation,
                                i,
                                ev,
                                st.state,
                                detail_seq_wrong(ev, s, expected),
                            ),
                        )
                    } else {
                        viols
                    },
                    st.last_seq.insert(ev.role, s),
                )
            },
        }
    } else {
        match ev.seq {
            Some(s) => (viols, st.last_seq.insert(ev.role, s)),
            None => (viols, st.last_seq),
        }
    }
}

/// Whether event `ev` (the `i`-th) makes the replay overflow in state `st`.
pub open spec fn step_aborts(spec: ProtocolSpecView, st: ReplayState, ev: EventView) -> bool {
    let cands = matching_spec(spec.transitions, st.state, ev.role, ev.msg);
    cands.len() > 0 && seq_overflows(cands[0], st, ev)
}

/// The replay state after processing event `ev`, the `i`-th.
///
/// An event with no transition is flagged (as a role mismatch when the message
/// is expected from another role, else as unexpected) and does not advance the
/// machine. Otherwise the first matching transition is taken, after the nonce
/// and sequence checks; nonces and sequence numbers are recorded even when the
/// transition does not require them.
pub open spec fn replay_step(spec: ProtocolSpecView, st: ReplayState, i: nat, ev: EventView) -> ReplayState {
    let cands = matching_spec(spec.transitions, st.state, ev.role, ev.msg);
    if cands.len() == 0 {
        let kind = if msg_for_other_role(spec.transitions, st.state, ev.msg, ev.role) {
            ViolationKind::RoleMismatch
        } else {
            ViolationKind::UnexpectedMessage
        };
        ReplayState {
            violations: st.violations.push(
                event_violation(kind, i, ev, st.state, detail_unexpected(spec, st.state, ev)),
            ),
            ..st
        }
    } else {
        let t = cands[0];
        let (v1, seen) = nonce_step(t, st, i, ev);
        let (v2, last_seq) = seq_step(t, st, v1, i, ev);
        ReplayState {
            state: t.to,
            seen,
            last_seq,
            violations: v2,
            path: st.path.push(
                PathStepView { event_index: i, event_label: label_spec(ev), from: st.state, to: t.to },
            ),
        }
    }
}

/// The initial replay state.
pub open spec fn replay_init(spec: ProtocolSpecView) -> ReplayState {
    ReplayState {
        state: spec.initial,
        seen: Set::empty(),
        last_seq: Map::empty(),
        violations: seq![],
        path: seq![],
    }
}

/// The replay state after the first `n` events.
pub open spec fn replay_prefix(spec: ProtocolSpecView, evs: Seq<EventView>, n: nat) -> ReplayState
    decreases n,
{
    if n == 0 {
        replay_init(spec)
    } else {
        replay_step(spec, replay_prefix(spec, evs, (n - 1) as nat), (n - 1) as nat, evs[n - 1])
    }
}

/// Whether the replay overflows within the first `n` events.
pub open spec fn aborts_prefix(spec: ProtocolSpecView, evs: Seq<EventView>, n: nat) -> bool
    decreases n,
{
    if n == 0 {
        false
    } else {
        aborts_prefix(spec, evs, (n - 1) as nat) || step_aborts(
            spec,
            replay_prefix(spec, evs, (n - 1) as nat),
            evs[n - 1],
        )
    }
}

/// Whether replaying the transcript overflows a sequence counter (the role's
/// last sequence number is `u64::MAX` and a transition requires the next one).
pub open spec fn replay_aborts(spec: ProtocolSpecView, t: crate::model::TranscriptView) -> bool {
    aborts_prefix(spec, t.events, t.events.len())
}

/// The outcome of replaying transcript `t` against `spec`.
pub open spec fn replay_spec(spec: ProtocolSpecView, t: crate::model::TranscriptView) -> ReplayView {
    let st = replay_prefix(spec, t.events, t.events.len());
    let accepting = spec.accepting.contains(st.state);
    ReplayView {
        protocol: spec.name,
        final_state: st.state,
        reached_accepting: accepting,
        violations: if accepting {
            st.violations
        } else {
            st.violations.push(
                ViolationView {
                    kind: ViolationKind::NotAccepting,
                    event_index: t.events.len(),
                    event_id: None,
                    state: st.state,
                    detail: detail_not_accepting(spec, st.state),
                },
            )
        },
        path: st.path,
        consumed: t.events.len(),
    }
}

/// The per-role sequence map held as a list of `(role, seq)` records, later
/// records overriding earlier ones.
pub open spec fn seq_map(v: Seq<(String, u64)>) -> Map<Seq<char>, u64>
    decreases v.len(),
{
    if v.len() == 0 {
        Map::empty()
    } else {
        seq_map(v.drop_last()).insert(v.last().0@, v.last().1)
    }
}

fn last_seq_lookup(v: &Vec<(String, u64)>, role: &str) -> (r: Option<u64>)
    ensures
        r == last_seq_of(seq_map(v@), role@),
{
    let mut j = v.len();
    assert(v@.take(j as int) =~= v@);
    while j > 0
        invariant
            j <= v@.len(),
            last_seq_of(seq_map(v@), role@) == last_seq_of(seq_map(v@.take(j as int)), role@),
        decreases j,
    {
        let ghost pre = v@.take(j as int);
        assert(pre.drop_last() =~= v@.take(j - 1));
        assert(pre.last() == v@[j - 1]);
        if str_eq(v[j - 1].0.as_str(), role) {
            return Some(v[j - 1].1);
        }
        j -= 1;
    }
    assert(v@.take(0) =~= Seq::<(String, u64)>::empty());
    None
}

fn lex_lt_exec(a: &str, b: &str) -> (r: bool)
    ensures
        r == lex_lt(a@, b@),
{
    let ac = chars_of(a);
    let bc = chars_of(b);
    let mut i: usize = 0;
    assert(a@.skip(0) =~= a@);
    assert(b@.skip(0) =~= b@);
    loop
        invariant
            ac@ == a@,
            bc@ == b@,
            i <= a@.len(),
            i <= b@.len(),
            lex_lt(a@, b@) == lex_lt(a@.skip(i as int), b@.skip(i as int)),
        decreases a@.len() - i,
    {
        if i == ac.len() {
            return i < bc.len();
        }
        if i == bc.len() {
            return false;
        }
        if ac[i] != bc[i] {
            return (ac[i] as u32) < (bc[i] as u32);
        }
        assert(a@.skip(i as int).drop_first() =~= a@.skip(i + 1));
        assert(b@.skip(i as int).drop_first() =~= b@.skip(i + 1));
        i += 1;
    }
}

fn insert_sorted_exec(v: &mut Vec<String>, x: String)
    ensures
        strings_view(final(v)@) == insert_sorted(strings_view(old(v)@), x@),
{
    let ghost s = strings_view(v@);
    let mut k: usize = 0;
    assert(s.take(0) + s.skip(0) =~= s);
    while k < v.len()
        invariant
            s == strings_view(v@),
            s == strings_view(old(v)@),
            k <= v@.len(),
            insert_sorted(s, x@) == s.take(k as int) + insert_sorted(s.skip(k as int), x@),
        decreases v@.len() - k,
    {
        let ghost rest = s.skip(k as int);
        assert(rest[0] == v@[k as int]@);
        if str_eq(v[k].as_str(), x.as_str()) {
            assert(insert_sorted(rest, x@) == rest);
            assert(s.take(k as int) + rest =~= s);
            return;
        }
        if lex_lt_exec(x.as_str(), v[k].as_str()) {
            let ghost xs = x@;
            assert(insert_sorted(rest, xs) == seq![xs] + rest);
            v.insert(k, x);
            assert(strings_view(v@) =~= s.take(k as int) + (seq![xs] + rest));
            return;
        }
        assert(insert_sorted(rest, x@) == seq![rest[0]] + insert_sorted(rest.drop_first(), x@));
        assert(rest.drop_first() =~= s.skip(k + 1));
        assert(s.take(k as int) + seq![rest[0]] =~= s.take(k + 1));
        k += 1;
    }
    let ghost xs = x@;
    v.push(x);
    assert(s.skip(k as int) =~= Seq::<Seq<char>>::empty());
    assert(s.take(k as int) =~= s);
    assert(strings_view(v@) =~= s + seq![xs]);
}

/// The sorted, de-duplicated `role:msg` labels accepted from `state`.
fn expected_here(spec: &ProtocolSpec, state: &str) -> (v: Vec<String>)
    ensures
        strings_view(v@) == expected_labels(spec@, state@),
{
    let ghost ts = spec@.transitions;
    let mut v: Vec<String> = Vec::new();
    let mut i: usize = 0;
    assert(strings_view(v@) =~= Seq::<Seq<char>>::empty());
    while i < spec.transitions.len()
        invariant
            i <= spec.transitions@.len(),
            ts == spec@.transitions,
            strings_view(v@) == expected_prefix(ts, state@, i as nat),
        decreases spec.transitions@.len() - i,
    {
        let t = &spec.transitions[i];
        assert(ts[i as int] == t@);
        if str_eq(t.from.as_str(), state) {
            let mut label = String::new();
            push_str(&mut label, t.role.as_str());
            push_str(&mut label, ":");
            push_str(&mut label, t.msg.as_str());
            insert_sorted_exec(&mut v, label);
        }
        i += 1;
    }
    v
}

/// Appends the elements of `v` separated by `sep`.
fn push_joined(out: &mut String, v: &Vec<String>, sep: &str)
    ensures
        final(out)@ == old(out)@ + join(strings_view(v@), sep@),
{
    let ghost start = out@;
    let ghost s = strings_view(v@);
    let mut i: usize = 0;
    assert(s.take(0) =~= Seq::<Seq<char>>::empty());
    while i < v.len()
        invariant
            i <= v@.len(),
            s == strings_view(v@),
            out@ == start + join(s.take(i as int), sep@),
        decreases v@.len() - i,
    {
        if i > 0 {
            push_str(out, sep);
        }
        push_str(out, v[i].as_str());
        assert(s.take(i + 1).drop_last() =~= s.take(i as int));
        assert(s.take(i + 1).last() == v@[i as int]@);
        assert(i == 0 ==> s.take(i + 1) =~= seq![v@[i as int]@]);
        i += 1;
    }
    assert(s.take(i as int) =~= s);
}

fn msg_exists_for_other_role(spec: &ProtocolSpec, state: &str, msg: &str, role: &str) -> (r: bool)
    ensures
        r == msg_for_other_role(spec@.transitions, state@, msg@, role@),
{
    let ghost ts = spec@.transitions;
    let mut i: usize = 0;
    while i < spec.transitions.len()
        invariant
            i <= spec.transitions@.len(),
            ts == spec@.transitions,
            forall|k: int|
                0 <= k < i ==> !(#[trigger] ts[k].from == state@ && ts[k].msg == msg@ && ts[k].role
                    != role@),
        decreases spec.transitions@.len() - i,
    {
        let t = &spec.transitions[i];
        assert(ts[i as int] == t@);
        if str_eq(t.from.as_str(), state) && str_eq(t.msg.as_str(), msg) && !str_eq(
            t.role.as_str(),
            role,
        ) {
            assert(ts[i as int].from == state@ && ts[i as int].msg == msg@ && ts[i as int].role
                != role@);
            return true;
        }
        i += 1;
    }
    false
}

proof fn lemma_abort_prefix_grows(spec: ProtocolSpecView, evs: Seq<EventView>, k: nat, n: nat)
    requires
        k <= n,
        aborts_prefix(spec, evs, k),
    ensures
        aborts_prefix(spec, evs, n),
    decreases n - k,
{
    if k < n {
        lemma_abort_prefix_grows(spec, evs, k, (n - 1) as nat);
    }
}

/// Replays a transcript against a specification, collecting all violations.
///
/// The walk is fail-soft: after an unexpected message or a role mismatch the
/// state does not advance (the offending event is skipped), so later events are
/// still evaluated. A replay that ends outside the accepting states gets a
/// final `NotAccepting` violation. The result is `None` exactly when a
/// transition requires the successor of a role's sequence number `u64::MAX`.
pub fn try_replay(spec: &ProtocolSpec, transcript: &Transcript) -> (r: Option<ReplayResult>)
    ensures
        r is None <==> replay_aborts(spec@, transcript@),
        r matches Some(res) ==> res@ == replay_spec(spec@, transcript@),
{
    let ghost sv = spec@;
    let ghost evs = transcript@.events;
    let n = transcript.events.len();
    let mut state = spec.initial.clone();
    let mut seen: BTreeSet<u64> = BTreeSet::new();
    let mut last_seq: Vec<(String, u64)> = Vec::new();
    let mut violations: Vec<Violation> = Vec::new();
    let mut path: Vec<PathStep> = Vec::new();
    let mut consumed: usize = 0;
    assert(violations@.map_values(|v: Violation| v@) =~= Seq::<ViolationView>::empty());
    assert(path@.map_values(|p: PathStep| p@) =~= Seq::<PathStepView>::empty());
    let mut i: usize = 0;
    while i < n
        invariant
            n == transcript.events@.len(),
            evs == transcript@.events,
            sv == spec@,
            i <= n,
            consumed == i,
            !aborts_prefix(sv, evs, i as nat),
            ({
                let st = replay_prefix(sv, evs, i as nat);
                &&& state@ == st.state
                &&& seen@ == st.seen
                &&& seq_map(last_seq@) == st.last_seq
                &&& violations@.map_values(|v: Violation| v@) == st.violations
                &&& path@.map_values(|p: PathStep| p@) == st.path
            }),
        decreases n - i,
    {
        let ev = &transcript.events[i];
        let ghost st = replay_prefix(sv, evs, i as nat);
        let ghost ev_v = ev@;
        assert(evs[i as int] == ev_v);
        consumed = i + 1;
        let candidates = spec.matching(state.as_str(), ev.role.as_str(), ev.msg.as_str());
        let ghost cands = matching_spec(sv.transitions, st.state, ev_v.role, ev_v.msg);
        assert(candidates@.map_values(|t: &crate::model::Transition| t@) == cands);
        if candidates.len() == 0 {
            let other = msg_exists_for_other_role(spec, state.as_str(), ev.msg.as_str(), ev.role.as_str());
            let kind = if other {
                ViolationKind::RoleMismatch
            } else {
                ViolationKind::UnexpectedMessage
            };
            let expected = expected_here(spec, state.as_str());
            let mut detail = String::new();
            push_str(&mut detail, "got ");
            push_str(&mut detail, ev.role.as_str());
            push_str(&mut detail, ":");
            push_str(&mut detail, ev.msg.as_str());
            push_str(&mut detail, " in state `");
            push_str(&mut detail, state.as_str());
            push_str(&mut detail, "`; expected one of [");
            push_joined(&mut detail, &expected, ", ");
            push_str(&mut detail, "]");
            assert(detail@ =~= detail_unexpected(sv, st.state, ev_v));
            let ghost before = violations@;
            let v = Violation {
                kind,
                event_index: i,
                event_id: Some(ev.id.clone()),
                state: state.clone(),
                detail,
            };
            let ghost vv = v@;
            violations.push(v);
            assert(violations@.map_values(|v: Violation| v@) =~= before.map_values(
                |v: Violation| v@,
            ).push(vv));
        } else {
            let t = candidates[0];
            assert(t@ == cands[0]);
            // Nonce invariant.
            let ghost (v1, seen1) = nonce_step(cands[0], st, i as nat, ev_v);
            if t.requires_fresh_nonce {
                match ev.nonce {
                    None => {
                        let mut detail = String::new();
                        push_str(&mut detail, "transition ");
                        push_str(&mut detail, ev.role.as_str());
                        push_str(&mut detail, ":");
                        push_str(&mut detail, ev.msg.as_str());
                        push_str(&mut detail, " requires a nonce but none present");
                        let ghost before = violations@;
                        let v = Violation {
                            kind: ViolationKind::NonceReplay,
                            event_index: i,
                            event_id: Some(ev.id.clone()),
                            state: state.clone(),
                            detail,
                        };
                        let ghost vv = v@;
                        violations.push(v);
                        assert(violations@.map_values(|v: Violation| v@) =~= before.map_values(
                            |v: Violation| v@,
                        ).push(vv));
                    },
                    Some(nv) => {
                        if seen.contains(&nv) {
                            let mut detail = String::new();
                            push_str(&mut detail, "nonce ");
                            push_decimal(&mut detail, nv);
                            push_str(&mut detail, " replayed (already observed)");
                            let ghost before = violations@;
                            let v = Violation {
                                kind: ViolationKind::NonceReplay,
                                event_index: i,
                                event_id: Some(ev.id.clone()),
                                state: state.clone(),
                                detail,
                            };
                            let ghost vv = v@;
                            violations.push(v);
                            assert(violations@.map_values(|v: Violation| v@) =~= before.map_values(
                                |v: Violation| v@,
                            ).push(vv));
                        } else {
                            seen.insert(nv);
                        }
                    },
                }
            } else if let Some(nv) = ev.nonce {
                seen.insert(nv);
            }
            assert(violations@.map_values(|v: Violation| v@) == v1);
            assert(seen@ == seen1);
            // Sequence invariant.
            let ghost (v2, last2) = seq_step(cands[0], st, v1, i as nat, ev_v);
            if t.requires_seq {
                match ev.seq {
                    None => {
                        let mut detail = String::new();
                        push_str(&mut detail, "transition ");
                        push_str(&mut detail, ev.role.as_str());
                        push_str(&mut detail, ":");
                        push_str(&mut detail, ev.msg.as_str());
                        push_str(&mut detail, " requires seq but none present");
                        let ghost before = violations@;
                        let v = Violation {
                            kind: ViolationKind::SequenceViolation,
                            event_index: i,
                            event_id: Some(ev.id.clone()),
                            state: state.clone(),
                            detail,
                        };
                        let ghost vv = v@;
                        violations.push(v);
                        assert(violations@.map_values(|v: Violation| v@) =~= before.map_values(
                            |v: Violation| v@,
                        ).push(vv));
                    },
                    Some(sq) => {
                        let prev = last_seq_lookup(&last_seq, ev.role.as_str());
                        let expected: u64 = match prev {
                            Some(p) => {
                                if p == u64::MAX {
                                    proof {
                                        assert(step_aborts(sv, st, ev_v));
                                        lemma_abort_prefix_grows(sv, evs, (i + 1) as nat, n as nat);
                                    }
                                    return None;
                                }
                                p + 1
                            },
                            None => 0,
                        };
                        if sq != expected {
                            let mut detail = String::new();
                            push_str(&mut detail, "role `");
                            push_str(&mut detail, ev.role.as_str());
                            push_str(&mut detail, "` seq=");
                            push_decimal(&mut detail, sq);
                            push_str(&mut detail, " but expected ");
                            push_decimal(&mut detail, expected);
                            let ghost before = violations@;
                            let v = Violation {
                                kind: ViolationKind::SequenceViolation,
                                event_index: i,
                                event_id: Some(ev.id.clone()),
                                state: state.clone(),
                                detail,
                            };
                            let ghost vv = v@;
                            violations.push(v);
                            assert(violations@.map_values(|v: Violation| v@) =~= before.map_values(
                                |v: Violation| v@,
                            ).push(vv));
                        }
                        let ghost before_last = last_seq@;
                        last_seq.push((ev.role.clone(), sq));
                        assert(last_seq@.drop_last() =~= before_last);
                    },
                }
            } else if let Some(sq) = ev.seq {
                let ghost before_last = last_seq@;
                last_seq.push((ev.role.clone(), sq));
                assert(last_seq@.drop_last() =~= before_last);
            }
            assert(violations@.map_values(|v: Violation| v@) == v2);
            assert(seq_map(last_seq@) =~= last2);
            let ghost before = path@;
            let step = PathStep {
                event_index: i,
                event_label: ev.label(),
                from: state.clone(),
                to: t.to.clone(),
            };
            let ghost pv = step@;
            path.push(step);
            assert(path@.map_values(|p: PathStep| p@) =~= before.map_values(|p: PathStep| p@).push(
                pv,
            ));
            state = t.to.clone();
        }
        i += 1;
    }
    let reached_accepting = spec.is_accepting(state.as_str());
    if !reached_accepting {
        let mut detail = String::new();
        push_str(&mut detail, "final state `");
        push_str(&mut detail, state.as_str());
        push_str(&mut detail, "` is not accepting (accepting: [");
        push_joined(&mut detail, &spec.accepting, ", ");
        push_str(&mut detail, "])");
        let ghost before = violations@;
        let v = Violation {
            kind: ViolationKind::NotAccepting,
            event_index: n,
            event_id: None,
            state: state.clone(),
            detail,
        };
        let ghost vv = v@;
        violations.push(v);
        assert(violations@.map_values(|v: Violation| v@) =~= before.map_values(|v: Violation| v@).push(
            vv,
        ));
    }
    Some(
        ReplayResult {
            protocol: spec.name.clone(),
            final_state: state,
            reached_accepting,
            violations,
            path,
            consumed,
        },
    )
}

/// Replays a transcript against a specification, collecting all violations.
///
/// The replay is not defined when a transition requires the successor of a
/// role's sequence number `u64::MAX`; `requires` leaves that input out (see
/// [`try_replay`]).
pub fn replay(spec: &ProtocolSpec, transcript: &Transcript) -> (r: ReplayResult)
    requires
        !replay_aborts(spec@, transcript@),
    ensures
        r@ == replay_spec(spec@, transcript@),
{
    try_replay(spec, transcript).unwrap()
}

/// Whether replaying this transcript conforms to the specification.
pub fn conforms(spec: &ProtocolSpec, transcript: &Transcript) -> (b: bool)
    requires
        !replay_aborts(spec@, transcript@),
    ensures
        b == conforming(replay_spec(spec@, transcript@)),
{
    replay(spec, transcript).is_conforming()
}

/// A transcript for the named protocol holding copies of `events`.
pub fn transcript_from(protocol: &str, events: &[Event]) -> (t: Transcript)
    ensures
        t@.protocol == protocol@,
        t@.events == events_view(events@),
{
    let mut out: Vec<Event> = Vec::new();
    let mut i: usize = 0;
    while i < events.len()
        invariant
            i <= events@.len(),
            events_view(out@) == events_view(events@.take(i as int)),
        decreases events@.len() - i,
    {
        let e = events[i].clone();
        let ghost before = out@;
        out.push(e);
        assert(events@.take(i + 1) =~= events@.take(i as int).push(events@[i as int]));
        assert(events_view(out@) =~= events_view(before).push(events@[i as int]@));
        assert(events_view(out@) =~= events_view(events@.take(i + 1)));
        i += 1;
    }
    assert(events@.take(i as int) =~= events@);
    Transcript { protocol: protocol.to_owned(), events: out }
}

/// Whether a violation flags a skipped event (no transition for it).
pub open spec fn is_skip(v: ViolationView) -> bool {
    v.kind == ViolationKind::UnexpectedMessage || v.kind == ViolationKind::RoleMismatch
}

/// The number of skipped-event violations.
pub open spec fn count_skips(vs: Seq<ViolationView>) -> nat
    decreases vs.len(),
{
    if vs.len() == 0 {
        0
    } else {
        count_skips(vs.drop_last()) + if is_skip(vs.last()) {
            1nat
        } else {
            0nat
        }
    }
}

/// `path` is a walk through the machine driven by `evs`: it starts in the
/// initial state, consecutive steps connect, it ends in `last`, every step is a
/// declared transition for its event's role and message, and the events it
/// consumes are in increasing order.
pub open spec fn is_walk(
    spec: ProtocolSpecView,
    evs: Seq<EventView>,
    path: Seq<PathStepView>,
    last: Seq<char>,
) -> bool {
    &&& (path.len() == 0 ==> last == spec.initial)
    &&& (path.len() > 0 ==> path[0].from == spec.initial && path.last().to == last)
    &&& forall|k: int| 0 <= k < path.len() - 1 ==> #[trigger] path[k].to == path[k + 1].from
    &&& forall|k: int|
        0 <= k < path.len() ==> {
            &&& #[trigger] path[k].event_index < evs.len()
            &&& exists|t: TransitionView|
                #![trigger spec.transitions.contains(t)]
                spec.transitions.contains(t) && t.from == path[k].from && t.to == path[k].to
                    && t.role == evs[path[k].event_index as int].role && t.msg
                    == evs[path[k].event_index as int].msg
        }
    &&& forall|k: int, l: int|
        0 <= k < l < path.len() ==> #[trigger] path[k].event_index < #[trigger] path[l].event_index
}

pub proof fn lemma_matching_spec(
    ts: Seq<TransitionView>,
    from: Seq<char>,
    role: Seq<char>,
    msg: Seq<char>,
)
    ensures
        forall|k: int|
            0 <= k < matching_spec(ts, from, role, msg).len() ==> ts.contains(
                #[trigger] matching_spec(ts, from, role, msg)[k],
            ) && crate::model::transition_matches(matching_spec(ts, from, role, msg)[k], from, role, msg),
    decreases ts.len(),
{
    if ts.len() > 0 {
        lemma_matching_spec(ts.drop_last(), from, role, msg);
        let m = matching_spec(ts, from, role, msg);
        let p = matching_spec(ts.drop_last(), from, role, msg);
        assert forall|k: int| 0 <= k < m.len() implies ts.contains(#[trigger] m[k])
            && crate::model::transition_matches(m[k], from, role, msg) by {
            if k < p.len() {
                assert(m[k] == p[k]);
                let j = choose|j: int| 0 <= j < ts.drop_last().len() && ts.drop_last()[j] == p[k];
                assert(ts[j] == p[k]);
            } else {
                assert(m[k] == ts.last());
                assert(ts[ts.len() - 1] == ts.last());
            }
        }
    }
}

pub proof fn lemma_nonce_seq_steps_keep_len(
    t: TransitionView,
    st: ReplayState,
    i: nat,
    ev: EventView,
)
    ensures
        ({
            let (v1, _s) = nonce_step(t, st, i, ev);
            let (v2, _m) = seq_step(t, st, v1, i, ev);
            &&& v1.len() >= st.violations.len()
            &&& v1.subrange(0, st.violations.len() as int) == st.violations
            &&& v2.len() >= v1.len()
            &&& v2.subrange(0, v1.len() as int) == v1
            &&& forall|k: int| st.violations.len() <= k < v2.len() ==> !is_skip(#[trigger] v2[k])
        }),
{
    let (v1, _s) = nonce_step(t, st, i, ev);
    let (v2, _m) = seq_step(t, st, v1, i, ev);
    assert(v1.subrange(0, st.violations.len() as int) =~= st.violations);
    assert(v2.subrange(0, v1.len() as int) =~= v1);
}

pub proof fn lemma_count_skips_extend(a: Seq<ViolationView>, b: Seq<ViolationView>)
    requires
        a.len() <= b.len(),
        b.subrange(0, a.len() as int) == a,
        forall|k: int| a.len() <= k < b.len() ==> !is_skip(#[trigger] b[k]),
    ensures
        count_skips(b) == count_skips(a),
    decreases b.len(),
{
    if b.len() > a.len() {
        assert(b.drop_last().subrange(0, a.len() as int) =~= a);
        assert(!is_skip(b[b.len() - 1]));
        lemma_count_skips_extend(a, b.drop_last());
    } else {
        assert(b =~= a);
    }
}

/// Every event is accounted for: after `n` events, the walk's steps plus the
/// skipped-event violations number exactly `n`, and the replay state's path is
/// a walk through the machine ending in the current state.
pub proof fn lemma_replay_prefix_walk(spec: ProtocolSpecView, evs: Seq<EventView>, n: nat)
    requires
        n <= evs.len(),
    ensures
        replay_prefix(spec, evs, n).path.len() + count_skips(replay_prefix(spec, evs, n).violations)
            == n,
        is_walk(spec, evs, replay_prefix(spec, evs, n).path, replay_prefix(spec, evs, n).state),
        forall|k: int|
            0 <= k < replay_prefix(spec, evs, n).path.len() ==> #[trigger] replay_prefix(
                spec,
                evs,
                n,
            ).path[k].event_index < n,
    decreases n,
{
    if n > 0 {
        let m = (n - 1) as nat;
        lemma_replay_prefix_walk(spec, evs, m);
        let st = replay_prefix(spec, evs, m);
        let ev = evs[m as int];
        let st2 = replay_prefix(spec, evs, n);
        let cands = matching_spec(spec.transitions, st.state, ev.role, ev.msg);
        if cands.len() == 0 {
            assert(st2.violations.drop_last() =~= st.violations);
        } else {
            lemma_matching_spec(spec.transitions, st.state, ev.role, ev.msg);
            let t = cands[0];
            assert(spec.transitions.contains(t));
            lemma_nonce_seq_steps_keep_len(t, st, m, ev);
            let (v1, _s) = nonce_step(t, st, m, ev);
            let (v2, _mm) = seq_step(t, st, v1, m, ev);
            assert(st2.violations == v2);
            assert forall|k: int| 0 <= k < st.violations.len() implies v2[k] == st.violations[k] by {
                assert(v2.subrange(0, v1.len() as int)[k] == v1[k]);
                assert(v1.subrange(0, st.violations.len() as int)[k] == st.violations[k]);
            }
            assert(v2.subrange(0, st.violations.len() as int) =~= st.violations);
            lemma_count_skips_extend(st.violations, st2.violations);
            assert(st2.path.drop_last() =~= st.path);
            let p2 = st2.path;
            assert forall|k: int| 0 <= k < p2.len() implies {
                &&& #[trigger] p2[k].event_index < evs.len()
                &&& exists|t2: TransitionView|
                    #![trigger spec.transitions.contains(t2)]
                    spec.transitions.contains(t2) && t2.from == p2[k].from && t2.to == p2[k].to
                        && t2.role == evs[p2[k].event_index as int].role && t2.msg
                        == evs[p2[k].event_index as int].msg
            } by {
                if k < p2.len() - 1 {
                    assert(p2[k] == st.path[k]);
                } else {
                    assert(p2[k].event_index == m);
                    assert(spec.transitions.contains(t) && t.from == p2[k].from && t.to == p2[k].to
                        && t.role == evs[p2[k].event_index as int].role && t.msg
                        == evs[p2[k].event_index as int].msg);
                }
            }
            assert forall|k: int| 0 <= k < p2.len() - 1 implies #[trigger] p2[k].to == p2[k
                + 1].from by {
                if k < p2.len() - 2 {
                    assert(p2[k] == st.path[k]);
                    assert(p2[k + 1] == st.path[k + 1]);
                } else {
                    assert(p2[k] == st.path.last());
                }
            }
            assert forall|k: int, l: int| 0 <= k < l < p2.len() implies #[trigger] p2[k].event_index
                < #[trigger] p2[l].event_index by {
                assert(p2[k] == st.path[k]);
                if l < p2.len() - 1 {
                    assert(p2[l] == st.path[l]);
                }
            }
        }
    }
}

/// Law: a replay consumes every event, and its path is a walk through the
/// machine from the initial state to the final state; when the replay
/// conforms, the walk takes one declared transition per event, in order, and
/// ends in an accepting state.
pub proof fn lemma_replay_walk(spec: ProtocolSpecView, t: crate::model::TranscriptView)
    ensures
        replay_spec(spec, t).consumed == t.events.len(),
        is_walk(spec, t.events, replay_spec(spec, t).path, replay_spec(spec, t).final_state),
        replay_spec(spec, t).reached_accepting <==> spec.accepting.contains(
            replay_spec(spec, t).final_state,
        ),
        conforming(replay_spec(spec, t)) ==> {
            &&& replay_spec(spec, t).path.len() == t.events.len()
            &&& forall|k: int|
                0 <= k < t.events.len() ==> (#[trigger] replay_spec(spec, t).path[k]).event_index
                    == k
            &&& spec.accepting.contains(replay_spec(spec, t).final_state)
        },
{
    let n = t.events.len();
    lemma_replay_prefix_walk(spec, t.events, n);
    let st = replay_prefix(spec, t.events, n);
    let r = replay_spec(spec, t);
    if conforming(r) {
        assert(st.violations.len() == 0);
        assert(count_skips(st.violations) == 0);
        assert(st.path.len() == n);
        // Strictly increasing indices below n, n of them: index k is k.
        assert forall|k: int| 0 <= k < n implies (#[trigger] r.path[k]).event_index == k by {
            lemma_increasing_indices(st.path, n);
        }
    }
}

proof fn lemma_increasing_indices(path: Seq<PathStepView>, n: nat)
    requires
        path.len() == n,
        forall|k: int| 0 <= k < path.len() ==> #[trigger] path[k].event_index < n,
        forall|k: int, l: int|
            0 <= k < l < path.len() ==> #[trigger] path[k].event_index < #[trigger] path[l].event_index,
    ensures
        forall|k: int| 0 <= k < n ==> (#[trigger] path[k]).event_index == k,
    decreases n,
{
    if n > 0 {
        let last = path[n - 1];
        assert forall|k: int| 0 <= k < n - 1 implies #[trigger] path.drop_last()[k].event_index < n - 1 by {
            assert(path.drop_last()[k] == path[k]);
            assert(path[k].event_index < path[n - 1].event_index);
        }
        assert forall|k: int, l: int|
            0 <= k < l < path.drop_last().len() implies #[trigger] path.drop_last()[k].event_index
            < #[trigger] path.drop_last()[l].event_index by {
            assert(path.drop_last()[k] == path[k]);
            assert(path.drop_last()[l] == path[l]);
        }
        lemma_increasing_indices(path.drop_last(), (n - 1) as nat);
        assert forall|k: int| 0 <= k < n implies (#[trigger] path[k]).event_index == k by {
            if k < n - 1 {
                assert(path.drop_last()[k] == path[k]);
            } else {
                if n >= 2 {
                    assert(path.drop_last()[n - 2] == path[n - 2]);
                    assert(path[n - 2].event_index == n - 2);
                    assert(path[n - 2].event_index < path[n - 1].event_index);
                }
            }
        }
    }
}

/// Law: an empty transcript conforms exactly when the initial state is accepting.
pub proof fn lemma_empty_transcript(spec: ProtocolSpecView, t: crate::model::TranscriptView)
    requires
        t.events.len() == 0,
    ensures
        conforming(replay_spec(spec, t)) <==> spec.accepting.contains(spec.initial),
        replay_spec(spec, t).final_state == spec.initial,
{
}

/// The nonces carried by the first `k` events.
pub open spec fn nonces_before(evs: Seq<EventView>, k: nat) -> Set<u64> {
    Set::new(|n: u64| exists|j: int| 0 <= j < k && #[trigger] evs[j].nonce == Some(n))
}

/// The sequence number of the last of the first `k` events that has `role`
/// and carries one.
pub open spec fn last_seq_before(evs: Seq<EventView>, k: nat, role: Seq<char>) -> Option<u64>
    decreases k,
{
    if k == 0 || k > evs.len() {
        None
    } else if evs[k - 1].role == role && evs[k - 1].seq is Some {
        evs[k - 1].seq
    } else {
        last_seq_before(evs, (k - 1) as nat, role)
    }
}

/// Event `k` took a declared transition, and met that transition's nonce and
/// sequence requirements: a fresh nonce is one no earlier event carried, and a
/// sequence number is the successor of the role's previous one (0 for its first).
pub open spec fn event_conforms(spec: ProtocolSpecView, evs: Seq<EventView>, k: nat) -> bool {
    let st = replay_prefix(spec, evs, k);
    let ev = evs[k as int];
    let cands = matching_spec(spec.transitions, st.state, ev.role, ev.msg);
    &&& cands.len() > 0
    &&& cands[0].requires_fresh_nonce ==> ev.nonce is Some && !nonces_before(evs, k).contains(
        ev.nonce->0,
    )
    &&& cands[0].requires_seq ==> ev.seq is Some && ev.seq->0 == expected_seq(
        last_seq_before(evs, k, ev.role),
    )
}

proof fn lemma_violations_grow(spec: ProtocolSpecView, evs: Seq<EventView>, m: nat)
    requires
        m < evs.len(),
    ensures
        replay_prefix(spec, evs, m).violations.len() <= replay_prefix(spec, evs, m + 1).violations.len(),
{
    let st = replay_prefix(spec, evs, m);
    let ev = evs[m as int];
    let cands = matching_spec(spec.transitions, st.state, ev.role, ev.msg);
    if cands.len() > 0 {
        lemma_nonce_seq_steps_keep_len(cands[0], st, m, ev);
    }
}

proof fn lemma_violations_grow_to(spec: ProtocolSpecView, evs: Seq<EventView>, m: nat, n: nat)
    requires
        m <= n <= evs.len(),
    ensures
        replay_prefix(spec, evs, m).violations.len() <= replay_prefix(spec, evs, n).violations.len(),
    decreases n - m,
{
    if m < n {
        lemma_violations_grow(spec, evs, m);
        lemma_violations_grow_to(spec, evs, m + 1, n);
    }
}

/// While no violation has occurred, the replay state records exactly the
/// nonces and the last sequence numbers of the events so far.
proof fn lemma_clean_history(spec: ProtocolSpecView, evs: Seq<EventView>, m: nat)
    requires
        m <= evs.len(),
        replay_prefix(spec, evs, m).violations.len() == 0,
    ensures
        replay_prefix(spec, evs, m).seen == nonces_before(evs, m),
        forall|role: Seq<char>|
            #[trigger] last_seq_of(replay_prefix(spec, evs, m).last_seq, role) == last_seq_before(
                evs,
                m,
                role,
            ),
        forall|k: nat| k < m ==> #[trigger] event_conforms(spec, evs, k),
    decreases m,
{
    if m == 0 {
        assert(nonces_before(evs, 0) =~= Set::<u64>::empty());
    } else {
        let k = (m - 1) as nat;
        lemma_violations_grow(spec, evs, k);
        lemma_clean_history(spec, evs, k);
        let st = replay_prefix(spec, evs, k);
        let ev = evs[k as int];
        let cands = matching_spec(spec.transitions, st.state, ev.role, ev.msg);
        assert(cands.len() > 0);
        let t = cands[0];
        lemma_nonce_seq_steps_keep_len(t, st, k, ev);
        let (v1, seen1) = nonce_step(t, st, k, ev);
        let (v2, last2) = seq_step(t, st, v1, k, ev);
        assert(v1.len() == 0);
        assert(v2.len() == 0);
        assert(event_conforms(spec, evs, k));
        assert(seen1 =~= nonces_before(evs, m)) by {
            assert forall|n: u64| seen1.contains(n) <==> nonces_before(evs, m).contains(n) by {
                if nonces_before(evs, m).contains(n) {
                    let j = choose|j: int| 0 <= j < m && #[trigger] evs[j].nonce == Some(n);
                    if j < k {
                        assert(nonces_before(evs, k).contains(n));
                    }
                }
                if nonces_before(evs, k).contains(n) {
                    let j = choose|j: int| 0 <= j < k && #[trigger] evs[j].nonce == Some(n);
                    assert(evs[j].nonce == Some(n) && j < m);
                }
            }
        }
        assert forall|role: Seq<char>|
            #[trigger] last_seq_of(last2, role) == last_seq_before(evs, m, role) by {
            assert(last_seq_of(st.last_seq, role) == last_seq_before(evs, k, role));
        }
        assert forall|j: nat| j < m implies #[trigger] event_conforms(spec, evs, j) by {
            if j < k {
                assert(event_conforms(spec, evs, j));
            }
        }
    }
}

/// Law: in a conforming replay every event took a declared transition and met
/// its metadata requirements: a transition that requires a fresh nonce got a
/// nonce that no earlier event carried, and one that requires a sequence
/// number got the successor of the role's previous sequence number (0 for the
/// role's first).
pub proof fn lemma_conforming_metadata(spec: ProtocolSpecView, t: crate::model::TranscriptView)
    requires
        conforming(replay_spec(spec, t)),
    ensures
        forall|k: nat| k < t.events.len() ==> #[trigger] event_conforms(spec, t.events, k),
{
    let n = t.events.len();
    assert(replay_prefix(spec, t.events, n).violations.len() == 0);
    lemma_clean_history(spec, t.events, n);
}

/// While every event so far conformed, the replay has no violation and
/// records exactly the nonces and last sequence numbers of those events.
proof fn lemma_conforming_prefix(spec: ProtocolSpecView, evs: Seq<EventView>, m: nat)
    requires
        m <= evs.len(),
        forall|k: nat| k < m ==> #[trigger] event_conforms(spec, evs, k),
    ensures
        replay_prefix(spec, evs, m).violations.len() == 0,
        replay_prefix(spec, evs, m).seen == nonces_before(evs, m),
        forall|role: Seq<char>|
            #[trigger] last_seq_of(replay_prefix(spec, evs, m).last_seq, role) == last_seq_before(
                evs,
                m,
                role,
            ),
    decreases m,
{
    if m == 0 {
        assert(nonces_before(evs, 0) =~= Set::<u64>::empty());
    } else {
        let k = (m - 1) as nat;
        assert forall|j: nat| j < k implies #[trigger] event_conforms(spec, evs, j) by {
            assert(event_conforms(spec, evs, j));
        }
        lemma_conforming_prefix(spec, evs, k);
        assert(event_conforms(spec, evs, k));
        let st = replay_prefix(spec, evs, k);
        let ev = evs[k as int];
        let cands = matching_spec(spec.transitions, st.state, ev.role, ev.msg);
        let t = cands[0];
        let (v1, seen1) = nonce_step(t, st, k, ev);
        let (v2, last2) = seq_step(t, st, v1, k, ev);
        assert(v1.len() == 0);
        assert(v2.len() == 0);
        assert(seen1 =~= nonces_before(evs, m)) by {
            assert forall|n: u64| seen1.contains(n) <==> nonces_before(evs, m).contains(n) by {
                if nonces_before(evs, m).contains(n) {
                    let j = choose|j: int| 0 <= j < m && #[trigger] evs[j].nonce == Some(n);
                    if j < k {
                        assert(nonces_before(evs, k).contains(n));
                    }
                }
                if nonces_before(evs, k).contains(n) {
                    let j = choose|j: int| 0 <= j < k && #[trigger] evs[j].nonce == Some(n);
                    assert(evs[j].nonce == Some(n) && j < m);
                }
            }
        }
        assert forall|role: Seq<char>|
            #[trigger] last_seq_of(last2, role) == last_seq_before(evs, m, role) by {
            assert(last_seq_of(st.last_seq, role) == last_seq_before(evs, k, role));
        }
    }
}

/// Law: a replay conforms when every event takes a declared transition and
/// meets that transition's own requirements (a fresh nonce only where the
/// transition requires one, the successor sequence number only where it
/// requires one) and the walk ends in an accepting state. Nonces and sequence
/// numbers on transitions that do not require them raise no violation.
pub proof fn lemma_conforming_complete(spec: ProtocolSpecView, t: crate::model::TranscriptView)
    requires
        forall|k: nat| k < t.events.len() ==> #[trigger] event_conforms(spec, t.events, k),
        spec.accepting.contains(replay_spec(spec, t).final_state),
    ensures
        conforming(replay_spec(spec, t)),
        replay_spec(spec, t).violations.len() == 0,
{
    lemma_conforming_prefix(spec, t.events, t.events.len());
}

} // verus!
