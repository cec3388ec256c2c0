//! Core data model: protocol specifications and transcripts.
//!
//! A protocol specification is a declarative state machine: named states, a
//! designated initial state, accepting states and transitions, each triggered by
//! a message type sent by a role. A transcript is an ordered list of observed
//! events. Nonces and sequence numbers are plain integers checked for shape only.

use std::collections::BTreeMap;
use vstd::prelude::*;

use crate::text::{decimal, push_char, push_decimal, push_str, str_eq};

verus! {

/// A participant role in a handshake.
pub type Role = String;

/// A message type label.
pub type MsgType = String;

/// A named protocol state.
pub type StateName = String;

/// A single transition rule of the protocol state machine.
#[derive(Debug, PartialEq)]
pub struct Transition {
    /// State the machine must be in for this transition to apply.
    pub from: StateName,
    /// State entered after the transition fires.
    pub to: StateName,
    /// Role expected to have sent the message.
    pub role: Role,
    /// Message type that triggers the transition.
    pub msg: MsgType,
    /// The message must carry a nonce not seen before.
    pub requires_fresh_nonce: bool,
    /// The message must carry the next per-role sequence number.
    pub requires_seq: bool,
    /// Optional human note surfaced in reports.
    pub note: Option<String>,
}

/// The abstract value of a [`Transition`].
pub struct TransitionView {
    pub from: Seq<char>,
    pub to: Seq<char>,
    pub role: Seq<char>,
    pub msg: Seq<char>,
    pub requires_fresh_nonce: bool,
    pub requires_seq: bool,
    pub note: Option<Seq<char>>,
}

pub open spec fn opt_string_view(o: Option<String>) -> Option<Seq<char>> {
    match o {
        Some(s) => Some(s@),
        None => None,
    }
}

impl View for Transition {
    type V = TransitionView;

    open spec fn view(&self) -> TransitionView {
        TransitionView {
            from: self.from@,
            to: self.to@,
            role: self.role@,
            msg: self.msg@,
            requires_fresh_nonce: self.requires_fresh_nonce,
            requires_seq: self.requires_seq,
            note: opt_string_view(self.note),
        }
    }
}

fn clone_opt_string(o: &Option<String>) -> (r: Option<String>)
    ensures
        opt_string_view(r) == opt_string_view(*o),
{
    match o {
        Some(s) => Some(s.clone()),
        None => None,
    }
}

impl Clone for Transition {
    fn clone(&self) -> (res: Self)
        ensures
            res@ == self@,
    {
        Transition {
            from: self.from.clone(),
            to: self.to.clone(),
            role: self.role.clone(),
            msg: self.msg.clone(),
            requires_fresh_nonce: self.requires_fresh_nonce,
            requires_seq: self.requires_seq,
            note: clone_opt_string(&self.note),
        }
    }
}

/// The declarative protocol specification (a state machine).
#[derive(Debug, PartialEq)]
pub struct ProtocolSpec {
    pub name: String,
    pub roles: Vec<Role>,
    pub initial: StateName,
    pub accepting: Vec<StateName>,
    pub states: Vec<StateName>,
    pub transitions: Vec<Transition>,
    /// Free-form description surfaced in reports.
    pub description: Option<String>,
}

/// The abstract value of a [`ProtocolSpec`].
pub struct ProtocolSpecView {
    pub name: Seq<char>,
    pub roles: Seq<Seq<char>>,
    pub initial: Seq<char>,
    pub accepting: Seq<Seq<char>>,
    pub states: Seq<Seq<char>>,
    pub transitions: Seq<TransitionView>,
    pub description: Option<Seq<char>>,
}

pub open spec fn strings_view(v: Seq<String>) -> Seq<Seq<char>> {
    v.map_values(|s: String| s@)
}

impl View for ProtocolSpec {
    type V = ProtocolSpecView;

    open spec fn view(&self) -> ProtocolSpecView {
        ProtocolSpecView {
            name: self.name@,
            roles: strings_view(self.roles@),
            initial: self.initial@,
            accepting: strings_view(self.accepting@),
            states: strings_view(self.states@),
            transitions: self.transitions@.map_values(|t: Transition| t@),
            description: opt_string_view(self.description),
        }
    }
}

impl Clone for ProtocolSpec {
    fn clone(&self) -> (res: Self)
        ensures
            res@ == self@,
    {
        let roles = self.roles.clone();
        let accepting = self.accepting.clone();
        let states = self.states.clone();
        let transitions = self.transitions.clone();
        assert(strings_view(roles@) =~= strings_view(self.roles@));
        assert(strings_view(accepting@) =~= strings_view(self.accepting@));
        assert(strings_view(states@) =~= strings_view(self.states@));
        assert(transitions@.map_values(|t: Transition| t@) =~= self.transitions@.map_values(
            |t: Transition| t@,
        ));
        ProtocolSpec {
            name: self.name.clone(),
            roles,
            initial: self.initial.clone(),
            accepting,
            states,
            transitions,
            description: clone_opt_string(&self.description),
        }
    }
}

/// Whether a transition applies to the key `(from, role, msg)`.
pub open spec fn transition_matches(
    t: TransitionView,
    from: Seq<char>,
    role: Seq<char>,
    msg: Seq<char>,
) -> bool {
    t.from == from && t.role == role && t.msg == msg
}

/// The transitions of `ts` that apply to `(from, role, msg)`, in order.
pub open spec fn matching_spec(
    ts: Seq<TransitionView>,
    from: Seq<char>,
    role: Seq<char>,
    msg: Seq<char>,
) -> Seq<TransitionView>
    decreases ts.len(),
{
    if ts.len() == 0 {
        seq![]
    } else {
        let prefix = matching_spec(ts.drop_last(), from, role, msg);
        if transition_matches(ts.last(), from, role, msg) {
            prefix.push(ts.last())
        } else {
            prefix
        }
    }
}

/// Message for an undeclared initial state.
pub open spec fn msg_bad_initial(s: Seq<char>) -> Seq<char> {
    "initial state `"@ + s + "` is not declared"@
}

/// Message for an undeclared accepting state.
pub open spec fn msg_bad_accepting(s: Seq<char>) -> Seq<char> {
    "accepting state `"@ + s + "` is not declared"@
}

/// Message for a transition whose `from` state is unknown.
pub open spec fn msg_bad_from(i: nat, s: Seq<char>) -> Seq<char> {
    "transition #"@ + decimal(i) + " references unknown `from` state `"@ + s + "`"@
}

/// Message for a transition whose `to` state is unknown.
pub open spec fn msg_bad_to(i: nat, s: Seq<char>) -> Seq<char> {
    "transition #"@ + decimal(i) + " references unknown `to` state `"@ + s + "`"@
}

/// Message for a transition whose role is not declared.
pub open spec fn msg_bad_role(i: nat, s: Seq<char>) -> Seq<char> {
    "transition #"@ + decimal(i) + " references undeclared role `"@ + s + "`"@
}

/// Problems with the initial state.
pub open spec fn lint_initial(v: ProtocolSpecView) -> Seq<Seq<char>> {
    if v.states.contains(v.initial) {
        seq![]
    } else {
        seq![msg_bad_initial(v.initial)]
    }
}

/// Problems with the first `n` accepting states.
pub open spec fn lint_accepting(v: ProtocolSpecView, n: nat) -> Seq<Seq<char>>
    decreases n,
{
    if n == 0 {
        seq![]
    } else {
        let acc = v.accepting[n - 1];
        lint_accepting(v, (n - 1) as nat) + if v.states.contains(acc) {
            Seq::<Seq<char>>::empty()
        } else {
            seq![msg_bad_accepting(acc)]
        }
    }
}

/// Problems with the transition at index `i`.
pub open spec fn transition_problems(v: ProtocolSpecView, i: nat) -> Seq<Seq<char>> {
    let t = v.transitions[i as int];
    (if v.states.contains(t.from) {
        Seq::<Seq<char>>::empty()
    } else {
        seq![msg_bad_from(i, t.from)]
    }) + (if v.states.contains(t.to) {
        Seq::<Seq<char>>::empty()
    } else {
        seq![msg_bad_to(i, t.to)]
    }) + (if v.roles.contains(t.role) {
        Seq::<Seq<char>>::empty()
    } else {
        seq![msg_bad_role(i, t.role)]
    })
}

/// Problems with the first `n` transitions.
pub open spec fn lint_transitions(v: ProtocolSpecView, n: nat) -> Seq<Seq<char>>
    decreases n,
{
    if n == 0 {
        seq![]
    } else {
        lint_transitions(v, (n - 1) as nat) + transition_problems(v, (n - 1) as nat)
    }
}

/// All structural problems of a specification, in report order.
pub open spec fn lint_spec(v: ProtocolSpecView) -> Seq<Seq<char>> {
    lint_initial(v) + lint_accepting(v, v.accepting.len()) + lint_transitions(
        v,
        v.transitions.len(),
    )
}

/// A specification is internally consistent when every state it names is
/// declared and every transition names a declared role.
pub open spec fn is_consistent(v: ProtocolSpecView) -> bool {
    &&& v.states.contains(v.initial)
    &&& forall|i: int| 0 <= i < v.accepting.len() ==> v.states.contains(#[trigger] v.accepting[i])
    &&& forall|i: int|
        0 <= i < v.transitions.len() ==> {
            &&& v.states.contains(#[trigger] v.transitions[i].from)
            &&& v.states.contains(v.transitions[i].to)
            &&& v.roles.contains(v.transitions[i].role)
        }
}

proof fn lemma_lint_accepting_empty(v: ProtocolSpecView, n: nat)
    requires
        n <= v.accepting.len(),
    ensures
        lint_accepting(v, n).len() == 0 <==> forall|i: int|
            0 <= i < n ==> v.states.contains(#[trigger] v.accepting[i]),
    decreases n,
{
    if n > 0 {
        lemma_lint_accepting_empty(v, (n - 1) as nat);
    }
}

proof fn lemma_lint_transitions_empty(v: ProtocolSpecView, n: nat)
    requires
        n <= v.transitions.len(),
    ensures
        lint_transitions(v, n).len() == 0 <==> forall|i: int|
            0 <= i < n ==> {
                &&& v.states.contains(#[trigger] v.transitions[i].from)
                &&& v.states.contains(v.transitions[i].to)
                &&& v.roles.contains(v.transitions[i].role)
            },
    decreases n,
{
    if n > 0 {
        lemma_lint_transitions_empty(v, (n - 1) as nat);
        let t = v.transitions[n - 1];
        assert(transition_problems(v, (n - 1) as nat).len() == 0 <==> (v.states.contains(t.from)
            && v.states.contains(t.to) && v.roles.contains(t.role)));
    }
}

/// Law: the lint report is empty exactly when the specification is internally
/// consistent.
pub proof fn lemma_lint_empty_iff_consistent(v: ProtocolSpecView)
    ensures
        lint_spec(v).len() == 0 <==> is_consistent(v),
{
    lemma_lint_accepting_empty(v, v.accepting.len());
    lemma_lint_transitions_empty(v, v.transitions.len());
}

/// Whether `s` occurs in `v` (compared by content).
fn contains_str(v: &Vec<String>, s: &str) -> (r: bool)
    ensures
        r == strings_view(v@).contains(s@),
{
    let mut i: usize = 0;
    while i < v.len()
        invariant
            i <= v.len(),
            forall|j: int| 0 <= j < i ==> v@[j]@ != s@,
        decreases v.len() - i,
    {
        if str_eq(v[i].as_str(), s) {
            assert(strings_view(v@)[i as int] == s@);
            return true;
        }
        i += 1;
    }
    proof {
        if strings_view(v@).contains(s@) {
            let k = choose|k: int| 0 <= k < strings_view(v@).len() && strings_view(v@)[k] == s@;
            assert(v@[k]@ == s@);
        }
    }
    false
}

impl ProtocolSpec {
    /// Finds the transitions that apply for a given `(from, role, msg)` key, in
    /// declaration order.
    pub fn matching(&self, from: &str, role: &str, msg: &str) -> (res: Vec<&Transition>)
        ensures
            res@.map_values(|t: &Transition| t@) == matching_spec(
                self@.transitions,
                from@,
                role@,
                msg@,
            ),
    {
        let mut res: Vec<&Transition> = Vec::new();
        let ghost ts = self@.transitions;
        let mut i: usize = 0;
        while i < self.transitions.len()
            invariant
                i <= self.transitions.len(),
                ts == self@.transitions,
                res@.map_values(|t: &Transition| t@) == matching_spec(
                    ts.take(i as int),
                    from@,
                    role@,
                    msg@,
                ),
            decreases self.transitions.len() - i,
        {
            let t = &self.transitions[i];
            assert(ts.take(i + 1).drop_last() == ts.take(i as int));
            assert(ts.take(i + 1).last() == t@);
            if str_eq(t.from.as_str(), from) && str_eq(t.role.as_str(), role) && str_eq(
                t.msg.as_str(),
                msg,
            ) {
                res.push(t);
                assert(res@.map_values(|t: &Transition| t@) =~= matching_spec(
                    ts.take(i as int),
                    from@,
                    role@,
                    msg@,
                ).push(t@));
            }
            i += 1;
        }
        assert(ts.take(i as int) == ts);
        res
    }

    /// Whether `state` is one of the accepting states.
    pub fn is_accepting(&self, state: &str) -> (r: bool)
        ensures
            r == self@.accepting.contains(state@),
    {
        contains_str(&self.accepting, state)
    }

    /// Whether `state` is a declared state.
    pub fn has_state(&self, state: &str) -> (r: bool)
        ensures
            r == self@.states.contains(state@),
    {
        contains_str(&self.states, state)
    }

    /// Structural sanity checks on the specification itself. Returns
    /// human-readable problems; an empty list means the specification is
    /// internally consistent.
    pub fn lint(&self) -> (problems: Vec<String>)
        ensures
            strings_view(problems@) == lint_spec(self@),
            problems@.len() == 0 <==> is_consistent(self@),
    {
        let ghost v = self@;
        let mut problems: Vec<String> = Vec::new();
        if !self.has_state(self.initial.as_str()) {
            let mut m = String::new();
            push_str(&mut m, "initial state `");
            push_str(&mut m, self.initial.as_str());
            push_str(&mut m, "` is not declared");
            problems.push(m);
        }
        assert(strings_view(problems@) =~= lint_initial(v));
        let mut i: usize = 0;
        while i < self.accepting.len()
            invariant
                i <= self.accepting.len(),
                v == self@,
                strings_view(problems@) =~= lint_initial(v) + lint_accepting(v, i as nat),
            decreases self.accepting.len() - i,
        {
            let acc = self.accepting[i].as_str();
            let ghost before = strings_view(problems@);
            assert(v.accepting[i as int] == acc@);
            if !self.has_state(acc) {
                let mut m = String::new();
                push_str(&mut m, "accepting state `");
                push_str(&mut m, acc);
                push_str(&mut m, "` is not declared");
                problems.push(m);
            }
            assert(strings_view(problems@) =~= before + (if v.states.contains(acc@) {
                Seq::<Seq<char>>::empty()
            } else {
                seq![msg_bad_accepting(acc@)]
            }));
            assert(strings_view(problems@) =~= lint_initial(v) + lint_accepting(
                v,
                (i + 1) as nat,
            ));
            i += 1;
        }
        let ghost base = strings_view(problems@);
        let mut i: usize = 0;
        while i < self.transitions.len()
            invariant
                i <= self.transitions.len(),
                v == self@,
                base == lint_initial(v) + lint_accepting(v, v.accepting.len()),
                strings_view(problems@) =~= base + lint_transitions(v, i as nat),
            decreases self.transitions.len() - i,
        {
            let t = &self.transitions[i];
            let ghost before = strings_view(problems@);
            assert(v.transitions[i as int] == t@);
            if !self.has_state(t.from.as_str()) {
                let mut m = String::new();
                push_str(&mut m, "transition #");
                push_decimal(&mut m, i as u64);
                push_str(&mut m, " references unknown `from` state `");
                push_str(&mut m, t.from.as_str());
                push_str(&mut m, "`");
                problems.push(m);
            }
            let ghost mid1 = strings_view(problems@);
            if !self.has_state(t.to.as_str()) {
                let mut m = String::new();
                push_str(&mut m, "transition #");
                push_decimal(&mut m, i as u64);
                push_str(&mut m, " references unknown `to` state `");
                push_str(&mut m, t.to.as_str());
                push_str(&mut m, "`");
                problems.push(m);
            }
            let ghost mid2 = strings_view(problems@);
            if !contains_str(&self.roles, t.role.as_str()) {
                let mut m = String::new();
                push_str(&mut m, "transition #");
                push_decimal(&mut m, i as u64);
                push_str(&mut m, " references undeclared role `");
                push_str(&mut m, t.role.as_str());
                push_str(&mut m, "`");
                problems.push(m);
            }
            assert(strings_view(problems@) =~= before + transition_problems(v, i as nat));
            i += 1;
        }
        proof {
            lemma_lint_empty_iff_consistent(v);
        }
        problems
    }
}

/// A single observed handshake event.
#[derive(Debug, PartialEq)]
pub struct Event {
    /// Stable identifier used in reports and minimization.
    pub id: String,
    pub role: Role,
    pub msg: MsgType,
    pub nonce: Option<u64>,
    pub seq: Option<u64>,
    /// Arbitrary string key/value metadata.
    pub meta: BTreeMap<String, String>,
}

/// The abstract value of an [`Event`].
pub struct EventView {
    pub id: Seq<char>,
    pub role: Seq<char>,
    pub msg: Seq<char>,
    pub nonce: Option<u64>,
    pub seq: Option<u64>,
    pub meta: Map<String, String>,
}

impl View for Event {
    type V = EventView;

    open spec fn view(&self) -> EventView {
        EventView {
            id: self.id@,
            role: self.role@,
            msg: self.msg@,
            nonce: self.nonce,
            seq: self.seq,
            meta: self.meta@,
        }
    }
}

impl Clone for Event {
    fn clone(&self) -> (res: Self)
        ensures
            res@ == self@,
    {
        Event {
            id: self.id.clone(),
            role: self.role.clone(),
            msg: self.msg.clone(),
            nonce: self.nonce,
            seq: self.seq,
            meta: self.meta.clone(),
        }
    }
}

/// The label of an event: `role:msg`, followed by `#nonce` when a nonce is present.
pub open spec fn label_spec(e: EventView) -> Seq<char> {
    e.role + ":"@ + e.msg + match e.nonce {
        Some(n) => "#"@ + decimal(n as nat),
        None => Seq::<char>::empty(),
    }
}

impl Event {
    /// A new event with no nonce, no sequence number and no metadata.
    pub fn new(id: &str, role: &str, msg: &str) -> (e: Event)
        ensures
            e@.id == id@,
            e@.role == role@,
            e@.msg == msg@,
            e@.nonce is None,
            e@.seq is None,
            e@.meta == Map::<String, String>::empty(),
    {
        Event {
            id: id.to_owned(),
            role: role.to_owned(),
            msg: msg.to_owned(),
            nonce: None,
            seq: None,
            meta: BTreeMap::new(),
        }
    }

    /// A concise label used in path rendering, e.g. `initiator:e#3`.
    pub fn label(&self) -> (s: String)
        ensures
            s@ == label_spec(self@),
    {
        let mut s = String::new();
        push_str(&mut s, self.role.as_str());
        push_char(&mut s, ':');
        push_str(&mut s, self.msg.as_str());
        if let Some(n) = self.nonce {
            push_char(&mut s, '#');
            push_decimal(&mut s, n);
        }
        proof {
            reveal_strlit(":");
            reveal_strlit("#");
        }
        s
    }
}

/// A transcript: an ordered sequence of events, plus the name of the protocol
/// it targets.
#[derive(Debug, PartialEq)]
pub struct Transcript {
    pub protocol: String,
    pub events: Vec<Event>,
}

/// The abstract value of a [`Transcript`].
pub struct TranscriptView {
    pub protocol: Seq<char>,
    pub events: Seq<EventView>,
}

pub open spec fn events_view(v: Seq<Event>) -> Seq<EventView> {
    v.map_values(|e: Event| e@)
}

impl View for Transcript {
    type V = TranscriptView;

    open spec fn view(&self) -> TranscriptView {
        TranscriptView { protocol: self.protocol@, events: events_view(self.events@) }
    }
}

impl Clone for Transcript {
    fn clone(&self) -> (res: Self)
        ensures
            res@ == self@,
    {
        let events = self.events.clone();
        assert(events_view(events@) =~= events_view(self.events@));
        Transcript { protocol: self.protocol.clone(), events }
    }
}

impl Transcript {
    /// An empty transcript for the named protocol.
    pub fn new(protocol: &str) -> (t: Transcript)
        ensures
            t@.protocol == protocol@,
            t@.events.len() == 0,
    {
        Transcript { protocol: protocol.to_owned(), events: Vec::new() }
    }
}

} // verus!
