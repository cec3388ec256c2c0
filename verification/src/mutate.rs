//! Deterministic transcript mutations.
//!
//! A mutation is a single edit applied to a transcript's event list: drop,
//! duplicate, reorder, or corrupt one metadata field. Plans of mutations are
//! generated by a SplitMix64 generator, so the same seed and transcript length
//! always give the same plan. The generator is not cryptographically secure and
//! is only used to pick which edit comes next.

use vstd::prelude::*;

use crate::model::{
    events_view, strings_view, Event, EventView, Transcript, TranscriptView,
};
use crate::text::{decimal, push_decimal, push_str, str_eq};

verus! {

/// The SplitMix64 state increment.
pub const SPLITMIX_GAMMA: u64 = 0x9E37_79B9_7F4A_7C15;

/// The first SplitMix64 mixing multiplier.
pub const SPLITMIX_MUL1: u64 = 0xBF58_476D_1CE4_E5B9;

/// The second SplitMix64 mixing multiplier.
pub const SPLITMIX_MUL2: u64 = 0x94D0_49BB_1331_11EB;

/// The state after one step of the generator.
pub open spec fn splitmix_next_state(state: u64) -> u64 {
    state.wrapping_add(SPLITMIX_GAMMA)
}

/// The output mixed from a (stepped) state.
pub open spec fn splitmix_output(state: u64) -> u64 {
    let z1 = (state ^ (state >> 30u64)).wrapping_mul(SPLITMIX_MUL1);
    let z2 = (z1 ^ (z1 >> 27u64)).wrapping_mul(SPLITMIX_MUL2);
    z2 ^ (z2 >> 31u64)
}

/// SplitMix64: a tiny, deterministic pseudorandom generator, used here only to
/// schedule mutations reproducibly.
#[derive(Debug)]
pub struct SplitMix64 {
    state: u64,
}

impl View for SplitMix64 {
    type V = u64;

    /// The generator's state.
    closed spec fn view(&self) -> u64 {
        self.state
    }
}

impl Clone for SplitMix64 {
    fn clone(&self) -> (res: Self)
        ensures
            res@ == self@,
    {
        SplitMix64 { state: self.state }
    }
}

/// One draw of `below(n)` from state `state`: the value drawn and the new state.
pub open spec fn draw(state: u64, n: nat) -> (nat, u64) {
    if n == 0 {
        (0, state)
    } else {
        let s = splitmix_next_state(state);
        ((splitmix_output(s) as nat) % n, s)
    }
}

impl SplitMix64 {
    /// A generator seeded with `seed`.
    pub fn new(seed: u64) -> (r: Self)
        ensures
            r@ == seed,
    {
        SplitMix64 { state: seed }
    }

    /// The next 64-bit output.
    pub fn next_u64(&mut self) -> (r: u64)
        ensures
            final(self)@ == splitmix_next_state(old(self)@),
            r == splitmix_output(final(self)@),
    {
        self.state = self.state.wrapping_add(SPLITMIX_GAMMA);
        let mut z = self.state;
        z = (z ^ (z >> 30u64)).wrapping_mul(SPLITMIX_MUL1);
        z = (z ^ (z >> 27u64)).wrapping_mul(SPLITMIX_MUL2);
        z ^ (z >> 31u64)
    }

    /// An integer in `[0, n)`, or 0 without advancing when `n == 0`.
    pub fn below(&mut self, n: usize) -> (r: usize)
        ensures
            (r as nat, final(self)@) == draw(old(self)@, n as nat),
            n > 0 ==> r < n,
            n == 0 ==> r == 0,
    {
        if n == 0 {
            0
        } else {
            let x = self.next_u64();
            (x % (n as u64)) as usize
        }
    }
}

/// Which metadata field a [`Mutation::CorruptMeta`] targets.
#[derive(Debug, Clone, Copy, PartialEq, Eq, Structural)]
pub enum MetaField {
    /// Zero out or reuse the nonce.
    Nonce,
    /// Perturb the sequence number.
    Sequence,
    /// Flip the role to a different declared role.
    Role,
}

/// A single deterministic edit to a transcript.
#[derive(Debug, Clone, Copy, PartialEq, Eq, Structural)]
pub enum Mutation {
    /// Remove the event at `index`.
    Drop { index: usize },
    /// Insert a copy of the event at `index` immediately after it.
    Duplicate { index: usize },
    /// Swap the events at `a` and `b`.
    Reorder { a: usize, b: usize },
    /// Corrupt a metadata field of the event at `index`.
    CorruptMeta { index: usize, field: MetaField },
}

/// The report label of a mutation's kind.
pub open spec fn kind_spec(m: Mutation) -> Seq<char> {
    match m {
        Mutation::Drop { .. } => "drop"@,
        Mutation::Duplicate { .. } => "duplicate"@,
        Mutation::Reorder { .. } => "reorder"@,
        Mutation::CorruptMeta { .. } => "corrupt_meta"@,
    }
}

/// The name of a metadata field.
pub open spec fn field_name(f: MetaField) -> Seq<char> {
    match f {
        MetaField::Nonce => "nonce"@,
        MetaField::Sequence => "seq"@,
        MetaField::Role => "role"@,
    }
}

/// The human-readable description of a mutation.
pub open spec fn describe_spec(m: Mutation) -> Seq<char> {
    match m {
        Mutation::Drop { index } => "drop event #"@ + decimal(index as nat),
        Mutation::Duplicate { index } => "duplicate event #"@ + decimal(index as nat),
        Mutation::Reorder { a, b } => "reorder events #"@ + decimal(a as nat) + " <-> #"@
            + decimal(b as nat),
        Mutation::CorruptMeta { index, field } => "corrupt "@ + field_name(field)
            + " of event #"@ + decimal(index as nat),
    }
}

pub(crate) fn field_label(f: MetaField) -> (r: &'static str)
    ensures
        r@ == field_name(f),
{
    match f {
        MetaField::Nonce => "nonce",
        MetaField::Sequence => "seq",
        MetaField::Role => "role",
    }
}

impl Mutation {
    /// A stable label for reports.
    pub fn kind(&self) -> (r: &'static str)
        ensures
            r@ == kind_spec(*self),
    {
        match self {
            Mutation::Drop { .. } => "drop",
            Mutation::Duplicate { .. } => "duplicate",
            Mutation::Reorder { .. } => "reorder",
            Mutation::CorruptMeta { .. } => "corrupt_meta",
        }
    }

    /// A human-readable description, e.g. `reorder events #0 <-> #2`.
    pub fn describe(&self) -> (s: String)
        ensures
            s@ == describe_spec(*self),
    {
        let mut s = String::new();
        match *self {
            Mutation::Drop { index } => {
                push_str(&mut s, "drop event #");
                push_decimal(&mut s, index as u64);
            },
            Mutation::Duplicate { index } => {
                push_str(&mut s, "duplicate event #");
                push_decimal(&mut s, index as u64);
            },
            Mutation::Reorder { a, b } => {
                push_str(&mut s, "reorder events #");
                push_decimal(&mut s, a as u64);
                push_str(&mut s, " <-> #");
                push_decimal(&mut s, b as u64);
            },
            Mutation::CorruptMeta { index, field } => {
                push_str(&mut s, "corrupt ");
                push_str(&mut s, field_label(field));
                push_str(&mut s, " of event #");
                push_decimal(&mut s, index as u64);
            },
        }
        s
    }
}

/// The copy inserted by a duplication: the same event with `~dup` appended to its id.
pub open spec fn dup_event(e: EventView) -> EventView {
    EventView { id: e.id + "~dup"@, ..e }
}

/// The first role of `roles` that differs from `role`.
pub open spec fn first_other_role(roles: Seq<Seq<char>>, role: Seq<char>) -> Option<Seq<char>>
    decreases roles.len(),
{
    if roles.len() == 0 {
        None
    } else if roles[0] != role {
        Some(roles[0])
    } else {
        first_other_role(roles.drop_first(), role)
    }
}

/// The event after corrupting one metadata field.
pub open spec fn corrupt_event(e: EventView, field: MetaField, roles: Seq<Seq<char>>) -> EventView {
    match field {
        MetaField::Nonce => EventView {
            nonce: if e.nonce == Some(0u64) {
                None
            } else {
                Some(0u64)
            },
            ..e
        },
        MetaField::Sequence => EventView {
            seq: Some(
                match e.seq {
                    Some(s) => s.wrapping_add(7),
                    None => 99u64,
                },
            ),
            ..e
        },
        MetaField::Role => match first_other_role(roles, e.role) {
            Some(r) => EventView { role: r, ..e },
            None => e,
        },
    }
}

/// The events after applying one mutation; mutations whose indices are out of
/// range leave the events unchanged.
pub open spec fn mutate_events(
    evs: Seq<EventView>,
    m: Mutation,
    roles: Seq<Seq<char>>,
) -> Seq<EventView> {
    let n = evs.len();
    match m {
        Mutation::Drop { index } => if index < n {
            evs.remove(index as int)
        } else {
            evs
        },
        Mutation::Duplicate { index } => if index < n {
            evs.insert(index + 1, dup_event(evs[index as int]))
        } else {
            evs
        },
        Mutation::Reorder { a, b } => if a < n && b < n && a != b {
            evs.update(a as int, evs[b as int]).update(b as int, evs[a as int])
        } else {
            evs
        },
        Mutation::CorruptMeta { index, field } => if index < n {
            evs.update(index as int, corrupt_event(evs[index as int], field, roles))
        } else {
            evs
        },
    }
}

/// The transcript after applying one mutation.
pub open spec fn apply_one_spec(
    t: TranscriptView,
    m: Mutation,
    roles: Seq<Seq<char>>,
) -> TranscriptView {
    TranscriptView { protocol: t.protocol, events: mutate_events(t.events, m, roles) }
}

/// The transcript after applying a plan of mutations in order.
pub open spec fn apply_all_spec(
    t: TranscriptView,
    plan: Seq<Mutation>,
    roles: Seq<Seq<char>>,
) -> TranscriptView
    decreases plan.len(),
{
    if plan.len() == 0 {
        t
    } else {
        apply_one_spec(apply_all_spec(t, plan.drop_last(), roles), plan.last(), roles)
    }
}

/// Index of the first role in `roles` that differs from `role`, if any.
fn find_other_role(roles: &[String], role: &str) -> (r: Option<usize>)
    ensures
        match r {
            Some(i) => i < roles@.len() && first_other_role(strings_view(roles@), role@) == Some(
                roles@[i as int]@,
            ),
            None => first_other_role(strings_view(roles@), role@) is None,
        },
{
    let ghost rs = strings_view(roles@);
    let mut i: usize = 0;
    assert(rs.skip(0) =~= rs);
    while i < roles.len()
        invariant
            i <= roles@.len(),
            rs == strings_view(roles@),
            first_other_role(rs, role@) == first_other_role(rs.skip(i as int), role@),
        decreases roles@.len() - i,
    {
        let ghost rest = rs.skip(i as int);
        assert(rest[0] == roles@[i as int]@);
        if !str_eq(roles[i].as_str(), role) {
            return Some(i);
        }
        assert(rest.drop_first() =~= rs.skip(i + 1));
        i += 1;
    }
    assert(rs.skip(i as int).len() == 0);
    None
}

/// Applies a single mutation to a transcript, returning the mutated copy.
///
/// Mutations that reference an out-of-range index are no-ops, so a plan
/// generated for one transcript length stays well-defined after earlier drops
/// shrink the list.
pub fn apply_one(transcript: &Transcript, m: &Mutation, roles: &[String]) -> (out: Transcript)
    ensures
        out@ == apply_one_spec(transcript@, *m, strings_view(roles@)),
{
    let mut out = transcript.clone();
    let ghost evs = out@.events;
    let ghost rs = strings_view(roles@);
    let n = out.events.len();
    match *m {
        Mutation::Drop { index } => {
            if index < out.events.len() {
                out.events.remove(index);
                assert(events_view(out.events@) =~= evs.remove(index as int));
            }
        },
        Mutation::Duplicate { index } => {
            if index < out.events.len() {
                let mut copy = out.events[index].clone();
                push_str(&mut copy.id, "~dup");
                out.events.insert(index + 1, copy);
                assert(events_view(out.events@) =~= evs.insert(
                    index + 1,
                    dup_event(evs[index as int]),
                ));
            }
        },
        Mutation::Reorder { a, b } => {
            if a < n && b < n && a != b {
                let ea = out.events[a].clone();
                let eb = out.events[b].clone();
                out.events[a] = eb;
                out.events[b] = ea;
                assert(events_view(out.events@) =~= evs.update(a as int, evs[b as int]).update(
                    b as int,
                    evs[a as int],
                ));
            }
        },
        Mutation::CorruptMeta { index, field } => {
            if index < out.events.len() {
                let mut ev = out.events[index].clone();
                match field {
                    MetaField::Nonce => {
                        ev.nonce = match ev.nonce {
                            Some(0) => None,
                            _ => Some(0),
                        };
                    },
                    MetaField::Sequence => {
                        ev.seq = Some(
                            match ev.seq {
                                Some(s) => s.wrapping_add(7),
                                None => 99,
                            },
                        );
                    },
                    MetaField::Role => {
                        if let Some(k) = find_other_role(roles, ev.role.as_str()) {
                            ev.role = roles[k].clone();
                        }
                    },
                }
                assert(ev@ == corrupt_event(evs[index as int], field, rs));
                out.events[index] = ev;
                assert(events_view(out.events@) =~= evs.update(
                    index as int,
                    corrupt_event(evs[index as int], field, rs),
                ));
            }
        },
    }
    out
}

/// Applies a sequence of mutations in order.
pub fn apply_all(transcript: &Transcript, plan: &[Mutation], roles: &[String]) -> (out: Transcript)
    ensures
        out@ == apply_all_spec(transcript@, plan@, strings_view(roles@)),
{
    let mut cur = transcript.clone();
    let mut i: usize = 0;
    while i < plan.len()
        invariant
            i <= plan@.len(),
            cur@ == apply_all_spec(transcript@, plan@.take(i as int), strings_view(roles@)),
        decreases plan@.len() - i,
    {
        assert(plan@.take(i + 1).drop_last() == plan@.take(i as int));
        cur = apply_one(&cur, &plan[i], roles);
        i += 1;
    }
    assert(plan@.take(i as int) == plan@);
    cur
}

/// The metadata field selected by a draw below three.
pub open spec fn field_of(k: nat) -> MetaField {
    if k == 0 {
        MetaField::Nonce
    } else if k == 1 {
        MetaField::Sequence
    } else {
        MetaField::Role
    }
}

/// One generated mutation for a transcript of `tlen` events, and the generator
/// state after it.
pub open spec fn gen_mutation(state: u64, tlen: nat) -> (Mutation, u64) {
    let (choice, s1) = draw(state, 4);
    if choice == 0 {
        let (i, s2) = draw(s1, tlen);
        (Mutation::Drop { index: i as usize }, s2)
    } else if choice == 1 {
        let (i, s2) = draw(s1, tlen);
        (Mutation::Duplicate { index: i as usize }, s2)
    } else if choice == 2 {
        let (a, s2) = draw(s1, tlen);
        let (b0, s3) = draw(s2, tlen);
        let b = if a == b0 {
            (b0 + 1) % tlen
        } else {
            b0
        };
        (Mutation::Reorder { a: a as usize, b: b as usize }, s3)
    } else {
        let (k, s2) = draw(s1, 3);
        let (i, s3) = draw(s2, tlen);
        (Mutation::CorruptMeta { index: i as usize, field: field_of(k) }, s3)
    }
}

/// The plan of `len` mutations generated from `state` for a transcript of
/// `tlen` events, and the final generator state. An empty transcript gets an
/// empty plan and leaves the generator untouched.
pub open spec fn gen_plan(state: u64, tlen: nat, len: nat) -> (Seq<Mutation>, u64)
    decreases len,
{
    if tlen == 0 || len == 0 {
        (seq![], state)
    } else {
        let (p, s) = gen_plan(state, tlen, (len - 1) as nat);
        let (m, s2) = gen_mutation(s, tlen);
        (p.push(m), s2)
    }
}

/// Every index a mutation names is below `n`.
pub open spec fn mutation_in_range(m: Mutation, n: nat) -> bool {
    match m {
        Mutation::Drop { index } => index < n,
        Mutation::Duplicate { index } => index < n,
        Mutation::Reorder { a, b } => a < n && b < n,
        Mutation::CorruptMeta { index, .. } => index < n,
    }
}

proof fn lemma_gen_mutation_in_range(state: u64, tlen: nat)
    requires
        tlen > 0,
    ensures
        mutation_in_range(gen_mutation(state, tlen).0, tlen),
{
}

/// Law: a generated plan has exactly the requested length (for a non-empty
/// transcript) and only names indices valid for the original transcript.
pub proof fn lemma_gen_plan_shape(state: u64, tlen: nat, len: nat)
    ensures
        gen_plan(state, tlen, len).0.len() == (if tlen == 0 {
            0
        } else {
            len
        }),
        forall|i: int|
            0 <= i < gen_plan(state, tlen, len).0.len() ==> mutation_in_range(
                #[trigger] gen_plan(state, tlen, len).0[i],
                tlen,
            ),
    decreases len,
{
    if tlen != 0 && len != 0 {
        lemma_gen_plan_shape(state, tlen, (len - 1) as nat);
        let (p, s) = gen_plan(state, tlen, (len - 1) as nat);
        lemma_gen_mutation_in_range(s, tlen);
    }
}

fn generate_one(rng: &mut SplitMix64, transcript_len: usize) -> (m: Mutation)
    requires
        transcript_len > 0,
    ensures
        (m, final(rng)@) == gen_mutation(old(rng)@, transcript_len as nat),
{
    let choice = rng.below(4);
    if choice == 0 {
        Mutation::Drop { index: rng.below(transcript_len) }
    } else if choice == 1 {
        Mutation::Duplicate { index: rng.below(transcript_len) }
    } else if choice == 2 {
        let a = rng.below(transcript_len);
        let mut b = rng.below(transcript_len);
        if a == b {
            b = (b + 1) % transcript_len;
        }
        Mutation::Reorder { a, b }
    } else {
        let k = rng.below(3);
        let field = if k == 0 {
            MetaField::Nonce
        } else if k == 1 {
            MetaField::Sequence
        } else {
            MetaField::Role
        };
        Mutation::CorruptMeta { index: rng.below(transcript_len), field }
    }
}

/// Deterministically generates a plan of `len` mutations for a transcript of
/// `transcript_len` events.
///
/// Only indices valid for the original transcript length are generated;
/// [`apply_one`] tolerates drift caused by earlier drops.
pub fn generate_plan(rng: &mut SplitMix64, transcript_len: usize, len: usize) -> (plan: Vec<
    Mutation,
>)
    ensures
        (plan@, final(rng)@) == gen_plan(old(rng)@, transcript_len as nat, len as nat),
{
    let mut plan: Vec<Mutation> = Vec::new();
    if transcript_len == 0 {
        return plan;
    }
    let mut i: usize = 0;
    while i < len
        invariant
            i <= len,
            transcript_len > 0,
            (plan@, rng@) == gen_plan(old(rng)@, transcript_len as nat, i as nat),
        decreases len - i,
    {
        let m = generate_one(rng, transcript_len);
        plan.push(m);
        i += 1;
    }
    plan
}

/// Law: an out-of-range mutation leaves the transcript unchanged.
pub proof fn lemma_out_of_range_is_noop(t: TranscriptView, m: Mutation, roles: Seq<Seq<char>>)
    requires
        !mutation_in_range(m, t.events.len()),
    ensures
        apply_one_spec(t, m, roles) == t,
{
}

/// Law: a drop removes one event, a duplication adds one, and reorders and
/// metadata corruptions keep the number of events (for in-range indices).
pub proof fn lemma_apply_one_len(t: TranscriptView, m: Mutation, roles: Seq<Seq<char>>)
    requires
        mutation_in_range(m, t.events.len()),
    ensures
        apply_one_spec(t, m, roles).events.len() == match m {
            Mutation::Drop { .. } => t.events.len() - 1,
            Mutation::Duplicate { .. } => t.events.len() as int + 1,
            _ => t.events.len() as int,
        },
{
}

/// Law: reordering the same pair twice restores the transcript.
pub proof fn lemma_reorder_involution(t: TranscriptView, a: usize, b: usize, roles: Seq<Seq<char>>)
    ensures
        apply_one_spec(
            apply_one_spec(t, Mutation::Reorder { a, b }, roles),
            Mutation::Reorder { a, b },
            roles,
        ) == t,
{
    let once = apply_one_spec(t, Mutation::Reorder { a, b }, roles);
    assert(apply_one_spec(once, Mutation::Reorder { a, b }, roles).events =~= t.events);
}

/// Law: dropping the copy right after a duplication restores the transcript.
pub proof fn lemma_duplicate_then_drop(t: TranscriptView, index: usize, roles: Seq<Seq<char>>)
    requires
        index < t.events.len(),
        index < usize::MAX,
    ensures
        apply_one_spec(
            apply_one_spec(t, Mutation::Duplicate { index }, roles),
            Mutation::Drop { index: (index + 1) as usize },
            roles,
        ) == t,
{
    let once = apply_one_spec(t, Mutation::Duplicate { index }, roles);
    assert(apply_one_spec(once, Mutation::Drop { index: (index + 1) as usize }, roles).events
        =~= t.events);
}

/// Law: applying two plans one after the other is applying their concatenation.
pub proof fn lemma_apply_all_concat(
    t: TranscriptView,
    p1: Seq<Mutation>,
    p2: Seq<Mutation>,
    roles: Seq<Seq<char>>,
)
    ensures
        apply_all_spec(apply_all_spec(t, p1, roles), p2, roles) == apply_all_spec(
            t,
            p1 + p2,
            roles,
        ),
    decreases p2.len(),
{
    if p2.len() == 0 {
        assert(p1 + p2 =~= p1);
    } else {
        lemma_apply_all_concat(t, p1, p2.drop_last(), roles);
        assert((p1 + p2).drop_last() =~= p1 + p2.drop_last());
        assert((p1 + p2).last() == p2.last());
    }
}

/// Law: a reorder of two distinct in-range positions swaps exactly those two
/// events: position `a` gets the event that was at `b`, position `b` the event
/// that was at `a`, and every other position keeps its event.
pub proof fn lemma_reorder_swaps(t: TranscriptView, a: usize, b: usize, roles: Seq<Seq<char>>)
    requires
        a < t.events.len(),
        b < t.events.len(),
        a != b,
    ensures
        ({
            let r = apply_one_spec(t, Mutation::Reorder { a, b }, roles);
            &&& r.protocol == t.protocol
            &&& r.events.len() == t.events.len()
            &&& r.events[a as int] == t.events[b as int]
            &&& r.events[b as int] == t.events[a as int]
            &&& forall|k: int|
                0 <= k < t.events.len() && k != a && k != b ==> #[trigger] r.events[k]
                    == t.events[k]
        }),
{
}

/// Law: a drop at an in-range position removes exactly that event; the events
/// before it stay in place and those after it move up by one.
pub proof fn lemma_drop_removes(t: TranscriptView, index: usize, roles: Seq<Seq<char>>)
    requires
        index < t.events.len(),
    ensures
        ({
            let r = apply_one_spec(t, Mutation::Drop { index }, roles);
            &&& r.protocol == t.protocol
            &&& r.events.len() + 1 == t.events.len()
            &&& forall|k: int| 0 <= k < index ==> #[trigger] r.events[k] == t.events[k]
            &&& forall|k: int|
                index <= k < r.events.len() ==> #[trigger] r.events[k] == t.events[k + 1]
        }),
{
}

/// Law: a duplication at an in-range position inserts, right after that
/// event, a copy that differs only by `~dup` appended to its id; the other
/// events keep their order.
pub proof fn lemma_duplicate_inserts(t: TranscriptView, index: usize, roles: Seq<Seq<char>>)
    requires
        index < t.events.len(),
    ensures
        ({
            let r = apply_one_spec(t, Mutation::Duplicate { index }, roles);
            let e = t.events[index as int];
            let d = r.events[index + 1];
            &&& r.protocol == t.protocol
            &&& r.events.len() == t.events.len() + 1
            &&& forall|k: int| 0 <= k <= index ==> #[trigger] r.events[k] == t.events[k]
            &&& d.id == e.id + "~dup"@ && d.role == e.role && d.msg == e.msg && d.nonce
                == e.nonce && d.seq == e.seq && d.meta == e.meta
            &&& forall|k: int|
                index + 1 < k < r.events.len() ==> #[trigger] r.events[k] == t.events[k - 1]
        }),
{
}

/// Law: a metadata corruption at an in-range position changes only that
/// event, and only the field it targets (its id and message stay).
pub proof fn lemma_corrupt_changes_one(
    t: TranscriptView,
    index: usize,
    field: MetaField,
    roles: Seq<Seq<char>>,
)
    requires
        index < t.events.len(),
    ensures
        ({
            let r = apply_one_spec(t, Mutation::CorruptMeta { index, field }, roles);
            let e = t.events[index as int];
            let c = r.events[index as int];
            &&& r.protocol == t.protocol
            &&& r.events.len() == t.events.len()
            &&& forall|k: int|
                0 <= k < t.events.len() && k != index ==> #[trigger] r.events[k] == t.events[k]
            &&& c.id == e.id && c.msg == e.msg && c.meta == e.meta
            &&& field != MetaField::Nonce ==> c.nonce == e.nonce
            &&& field != MetaField::Sequence ==> c.seq == e.seq
            &&& field != MetaField::Role ==> c.role == e.role
            &&& field == MetaField::Nonce ==> c.nonce != e.nonce
            &&& field == MetaField::Sequence ==> c.seq is Some
        }),
{
}

} // verus!
