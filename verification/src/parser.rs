//! Builds the model types from JSON documents.
//!
//! Two document kinds are read: a protocol specification (with a
//! `transitions` array) and a transcript (with an `events` array).

use vstd::prelude::*;

use crate::json::{
    byte_offset, entries_view, json_error_text, parse, parse_document, value_get, Json, JsonValue,
    Step,
};
use crate::model::{opt_string_view, strings_view, ProtocolSpec, ProtocolSpecView, Transition, TransitionView};
use crate::text::{decimal, push_decimal, push_str};

verus! {

/// Error produced while turning JSON into model types.
#[derive(Debug, PartialEq)]
pub struct ParseError(pub String);

impl Clone for ParseError {
    fn clone(&self) -> (res: Self)
        ensures
            res.0@ == self.0@,
    {
        ParseError(self.0.clone())
    }
}

/// The rendering of a parse error.
pub open spec fn parse_error_text(m: Seq<char>) -> Seq<char> {
    "parse error: "@ + m
}

impl ParseError {
    /// The human-readable rendering, `parse error: message`.
    pub fn to_string(&self) -> (s: String)
        ensures
            s@ == parse_error_text(self.0@),
    {
        let mut s = String::new();
        push_str(&mut s, "parse error: ");
        push_str(&mut s, self.0.as_str());
        s
    }
}

/// The string stored under `key` in an object, if it is a string.
pub open spec fn field_str(v: JsonValue, key: Seq<char>) -> Option<Seq<char>> {
    match value_get(v, key) {
        Some(JsonValue::Str(s)) => Some(s),
        _ => None,
    }
}

/// The boolean stored under `key`, or `false` when absent or not a boolean.
pub open spec fn field_bool(v: JsonValue, key: Seq<char>) -> bool {
    match value_get(v, key) {
        Some(JsonValue::Bool(b)) => b,
        _ => false,
    }
}

pub open spec fn msg_missing_str(key: Seq<char>) -> Seq<char> {
    "missing required string field `"@ + key + "`"@
}

pub open spec fn msg_not_array(key: Seq<char>) -> Seq<char> {
    "field `"@ + key + "` must be an array"@
}

pub open spec fn msg_not_string_elem(i: nat, key: Seq<char>) -> Seq<char> {
    "element "@ + decimal(i) + " of `"@ + key + "` must be a string"@
}

pub open spec fn msg_transition_missing(i: nat, key: Seq<char>) -> Seq<char> {
    "transition #"@ + decimal(i) + ": missing field `"@ + key + "`"@
}

pub open spec fn msg_event_missing(i: nat, key: Seq<char>) -> Seq<char> {
    "event #"@ + decimal(i) + ": missing `"@ + key + "`"@
}

/// The strings among the first `n` items, or the index of the first item
/// that is not a string.
pub open spec fn strings_prefix(items: Seq<JsonValue>, n: nat) -> Result<Seq<Seq<char>>, nat>
    decreases n,
{
    if n == 0 {
        Ok(seq![])
    } else {
        match strings_prefix(items, (n - 1) as nat) {
            Ok(v) => match items[n - 1] {
                JsonValue::Str(s) => Ok(v.push(s)),
                _ => Err((n - 1) as nat),
            },
            Err(i) => Err(i),
        }
    }
}

pub proof fn lemma_strings_prefix_err(items: Seq<JsonValue>, m: nat, n: nat)
    requires
        m <= n,
        strings_prefix(items, m) is Err,
    ensures
        strings_prefix(items, n) == strings_prefix(items, m),
    decreases n - m,
{
    if n > m {
        lemma_strings_prefix_err(items, m, (n - 1) as nat);
    }
}

pub proof fn lemma_transitions_prefix_err(items: Seq<JsonValue>, m: nat, n: nat)
    requires
        m <= n,
        transitions_prefix(items, m) is Err,
    ensures
        transitions_prefix(items, n) == transitions_prefix(items, m),
    decreases n - m,
{
    if n > m {
        lemma_transitions_prefix_err(items, m, (n - 1) as nat);
    }
}

/// The array of strings stored under `key`.
pub open spec fn field_str_array(v: JsonValue, key: Seq<char>) -> Result<Seq<Seq<char>>, Seq<char>> {
    match value_get(v, key) {
        Some(JsonValue::Arr(items)) => match strings_prefix(items, items.len()) {
            Ok(ss) => Ok(ss),
            Err(i) => Err(msg_not_string_elem(i, key)),
        },
        _ => Err(msg_not_array(key)),
    }
}

/// The transition described by object `t`, the `i`-th of its array.
pub open spec fn transition_from_value(t: JsonValue, i: nat) -> Result<TransitionView, Seq<char>> {
    if field_str(t, "from"@) is None {
        Err(msg_transition_missing(i, "from"@))
    } else if field_str(t, "to"@) is None {
        Err(msg_transition_missing(i, "to"@))
    } else if field_str(t, "role"@) is None {
        Err(msg_transition_missing(i, "role"@))
    } else if field_str(t, "msg"@) is None {
        Err(msg_transition_missing(i, "msg"@))
    } else {
        Ok(
            TransitionView {
                from: field_str(t, "from"@)->0,
                to: field_str(t, "to"@)->0,
                role: field_str(t, "role"@)->0,
                msg: field_str(t, "msg"@)->0,
                requires_fresh_nonce: field_bool(t, "requires_fresh_nonce"@),
                requires_seq: field_bool(t, "requires_seq"@),
                note: field_str(t, "note"@),
            },
        )
    }
}

/// The transitions described by the first `n` items, or the first error.
pub open spec fn transitions_prefix(items: Seq<JsonValue>, n: nat) -> Result<
    Seq<TransitionView>,
    Seq<char>,
>
    decreases n,
{
    if n == 0 {
        Ok(seq![])
    } else {
        match transitions_prefix(items, (n - 1) as nat) {
            Ok(v) => match transition_from_value(items[n - 1], (n - 1) as nat) {
                Ok(t) => Ok(v.push(t)),
                Err(m) => Err(m),
            },
            Err(m) => Err(m),
        }
    }
}

/// The protocol specification described by a document, or the first problem
/// found (fields are checked in the order name, roles, initial, states,
/// accepting, transitions).
pub open spec fn protocol_from_value(doc: JsonValue) -> Result<ProtocolSpecView, Seq<char>> {
    if field_str(doc, "name"@) is None {
        Err(msg_missing_str("name"@))
    } else if field_str_array(doc, "roles"@) is Err {
        Err(field_str_array(doc, "roles"@)->Err_0)
    } else if field_str(doc, "initial"@) is None {
        Err(msg_missing_str("initial"@))
    } else if field_str_array(doc, "states"@) is Err {
        Err(field_str_array(doc, "states"@)->Err_0)
    } else if field_str_array(doc, "accepting"@) is Err {
        Err(field_str_array(doc, "accepting"@)->Err_0)
    } else {
        match value_get(doc, "transitions"@) {
            Some(JsonValue::Arr(items)) => match transitions_prefix(items, items.len()) {
                Ok(ts) => Ok(
                    ProtocolSpecView {
                        name: field_str(doc, "name"@)->0,
                        roles: field_str_array(doc, "roles"@)->Ok_0,
                        initial: field_str(doc, "initial"@)->0,
                        accepting: field_str_array(doc, "accepting"@)->Ok_0,
                        states: field_str_array(doc, "states"@)->Ok_0,
                        transitions: ts,
                        description: field_str(doc, "description"@),
                    },
                ),
                Err(m) => Err(m),
            },
            _ => Err(msg_not_array("transitions"@)),
        }
    }
}

/// The result of reading a document from text: the document's value through
/// `f`, or the rendering of the JSON error.
pub open spec fn json_text_error(c: Seq<char>, m: Seq<char>, p: int) -> Seq<char> {
    json_error_text(m, byte_offset(c, p))
}

/// The protocol specification described by a JSON text.
pub open spec fn protocol_from_text(c: Seq<char>) -> Result<ProtocolSpecView, Seq<char>> {
    match parse_document(c) {
        Step::Done(v, _) => protocol_from_value(v),
        Step::Fail(m, p) => Err(json_text_error(c, m, p)),
        Step::Abort => Err(seq![]),
    }
}

/// The JSON strings holding `ss`, in order.
pub open spec fn str_values(ss: Seq<Seq<char>>) -> Seq<JsonValue> {
    ss.map_values(|s: Seq<char>| JsonValue::Str(s))
}

/// Object `t` describes transition `tr`: its `from`, `to`, `role` and `msg`
/// members are the transition's strings, and each requirement flag is set
/// exactly when the member is `true`.
pub open spec fn describes_transition(t: JsonValue, tr: TransitionView) -> bool {
    &&& value_get(t, "from"@) == Some(JsonValue::Str(tr.from))
    &&& value_get(t, "to"@) == Some(JsonValue::Str(tr.to))
    &&& value_get(t, "role"@) == Some(JsonValue::Str(tr.role))
    &&& value_get(t, "msg"@) == Some(JsonValue::Str(tr.msg))
    &&& tr.requires_fresh_nonce <==> value_get(t, "requires_fresh_nonce"@) == Some(
        JsonValue::Bool(true),
    )
    &&& tr.requires_seq <==> value_get(t, "requires_seq"@) == Some(JsonValue::Bool(true))
}

proof fn lemma_strings_prefix_values(items: Seq<JsonValue>, n: nat)
    requires
        n <= items.len(),
        strings_prefix(items, n) is Ok,
    ensures
        strings_prefix(items, n)->Ok_0.len() == n,
        forall|k: int|
            0 <= k < n ==> items[k] == JsonValue::Str(#[trigger] strings_prefix(items, n)->Ok_0[k]),
    decreases n,
{
    if n > 0 {
        lemma_strings_prefix_values(items, (n - 1) as nat);
        let v = strings_prefix(items, (n - 1) as nat)->Ok_0;
        assert forall|k: int| 0 <= k < n implies items[k] == JsonValue::Str(
            #[trigger] strings_prefix(items, n)->Ok_0[k],
        ) by {
            if k < n - 1 {
                assert(strings_prefix(items, n)->Ok_0[k] == v[k]);
            }
        }
    }
}

proof fn lemma_str_array_values(doc: JsonValue, key: Seq<char>)
    requires
        field_str_array(doc, key) is Ok,
    ensures
        value_get(doc, key) == Some(JsonValue::Arr(str_values(field_str_array(doc, key)->Ok_0))),
{
    if let Some(JsonValue::Arr(items)) = value_get(doc, key) {
        lemma_strings_prefix_values(items, items.len());
        assert(items =~= str_values(field_str_array(doc, key)->Ok_0));
    }
}

proof fn lemma_transitions_prefix_values(items: Seq<JsonValue>, n: nat)
    requires
        n <= items.len(),
        transitions_prefix(items, n) is Ok,
    ensures
        transitions_prefix(items, n)->Ok_0.len() == n,
        forall|k: int|
            0 <= k < n ==> transition_from_value(items[k], k as nat) == Ok::<TransitionView, Seq<char>>(
                #[trigger] transitions_prefix(items, n)->Ok_0[k],
            ),
    decreases n,
{
    if n > 0 {
        lemma_transitions_prefix_values(items, (n - 1) as nat);
        let v = transitions_prefix(items, (n - 1) as nat)->Ok_0;
        assert forall|k: int| 0 <= k < n implies transition_from_value(items[k], k as nat) == Ok::<
            TransitionView,
            Seq<char>,
        >(#[trigger] transitions_prefix(items, n)->Ok_0[k]) by {
            if k < n - 1 {
                assert(transitions_prefix(items, n)->Ok_0[k] == v[k]);
            }
        }
    }
}

/// Law: a specification read from a document holds exactly what the document
/// says: its name and initial state are the document's `name` and `initial`
/// strings, its roles, states and accepting states are the document's
/// `roles`, `states` and `accepting` string arrays in order, and its
/// transitions are, one for one and in order, the objects of the
/// document's `transitions` array.
pub proof fn lemma_protocol_reads_document(c: Seq<char>)
    ensures
        protocol_from_text(c) matches Ok(p) ==> parse_document(c) matches Step::Done(doc, _) && {
            &&& value_get(doc, "name"@) == Some(JsonValue::Str(p.name))
            &&& value_get(doc, "initial"@) == Some(JsonValue::Str(p.initial))
            &&& value_get(doc, "roles"@) == Some(JsonValue::Arr(str_values(p.roles)))
            &&& value_get(doc, "states"@) == Some(JsonValue::Arr(str_values(p.states)))
            &&& value_get(doc, "accepting"@) == Some(JsonValue::Arr(str_values(p.accepting)))
            &&& value_get(doc, "transitions"@) matches Some(JsonValue::Arr(items)) && items.len()
                == p.transitions.len() && forall|k: int|
                0 <= k < items.len() ==> describes_transition(
                    #[trigger] items[k],
                    p.transitions[k],
                )
        },
{
    if let Step::Done(doc, _) = parse_document(c) {
        if let Ok(p) = protocol_from_value(doc) {
            lemma_str_array_values(doc, "roles"@);
            lemma_str_array_values(doc, "states"@);
            lemma_str_array_values(doc, "accepting"@);
            if let Some(JsonValue::Arr(items)) = value_get(doc, "transitions"@) {
                lemma_transitions_prefix_values(items, items.len());
                assert forall|k: int| 0 <= k < items.len() implies describes_transition(
                    #[trigger] items[k],
                    p.transitions[k],
                ) by {
                    assert(transition_from_value(items[k], k as nat) == Ok::<
                        TransitionView,
                        Seq<char>,
                    >(p.transitions[k]));
                }
            }
        }
    }
}

fn require_str(obj: &Json, key: &str) -> (r: Result<String, ParseError>)
    ensures
        match field_str(obj@, key@) {
            Some(s) => r matches Ok(x) && x@ == s,
            None => r matches Err(e) && e.0@ == msg_missing_str(key@),
        },
{
    match obj.get(key) {
        Some(v) => match v.as_str() {
            Some(s) => {
                return Ok(s.to_owned());
            },
            None => {},
        },
        None => {},
    }
    let mut m = String::new();
    push_str(&mut m, "missing required string field `");
    push_str(&mut m, key);
    push_str(&mut m, "`");
    Err(ParseError(m))
}

fn opt_str(obj: &Json, key: &str) -> (r: Option<String>)
    ensures
        opt_string_view(r) == field_str(obj@, key@),
{
    match obj.get(key) {
        Some(v) => match v.as_str() {
            Some(s) => Some(s.to_owned()),
            None => None,
        },
        None => None,
    }
}

fn opt_bool(obj: &Json, key: &str) -> (r: bool)
    ensures
        r == field_bool(obj@, key@),
{
    match obj.get(key) {
        Some(v) => match v.as_bool() {
            Some(b) => b,
            None => false,
        },
        None => false,
    }
}

fn str_array(obj: &Json, key: &str) -> (r: Result<Vec<String>, ParseError>)
    ensures
        match field_str_array(obj@, key@) {
            Ok(ss) => r matches Ok(v) && strings_view(v@) == ss,
            Err(m) => r matches Err(e) && e.0@ == m,
        },
{
    let arr = match obj.get(key) {
        Some(v) => v.as_array(),
        None => None,
    };
    match arr {
        None => {
            let mut m = String::new();
            push_str(&mut m, "field `");
            push_str(&mut m, key);
            push_str(&mut m, "` must be an array");
            Err(ParseError(m))
        },
        Some(arr) => {
            let ghost items = crate::json::items_view(arr@);
            assert(value_get(obj@, key@) == Some(JsonValue::Arr(items)));
            proof {
                crate::json::lemma_items_view_index(arr@);
            }
            let mut out: Vec<String> = Vec::new();
            let mut i: usize = 0;
            assert(strings_view(out@) =~= Seq::<Seq<char>>::empty());
            while i < arr.len()
                invariant
                    i <= arr@.len(),
                    items == crate::json::items_view(arr@),
                    value_get(obj@, key@) == Some(JsonValue::Arr(items)),
                    items.len() == arr@.len(),
                    forall|k: int| 0 <= k < arr@.len() ==> #[trigger] items[k] == arr@[k]@,
                    strings_prefix(items, i as nat) == Ok::<Seq<Seq<char>>, nat>(strings_view(out@)),
                decreases arr@.len() - i,
            {
                match arr[i].as_str() {
                    Some(s) => {
                        let ghost before = out@;
                        out.push(s.to_owned());
                        assert(strings_view(out@) =~= strings_view(before).push(s@));
                    },
                    None => {
                        let mut m = String::new();
                        push_str(&mut m, "element ");
                        push_decimal(&mut m, i as u64);
                        push_str(&mut m, " of `");
                        push_str(&mut m, key);
                        push_str(&mut m, "` must be a string");
                        proof {
                            assert(!(items[i as int] is Str));
                            assert(strings_prefix(items, (i + 1) as nat) == Err::<Seq<Seq<char>>, nat>(
                                i as nat,
                            ));
                            lemma_strings_prefix_err(items, (i + 1) as nat, items.len());
                        }
                        return Err(ParseError(m));
                    },
                }
                i += 1;
            }
            Ok(out)
        },
    }
}

fn transition_missing(i: usize, key: &str) -> (e: ParseError)
    ensures
        e.0@ == msg_transition_missing(i as nat, key@),
{
    let mut m = String::new();
    push_str(&mut m, "transition #");
    push_decimal(&mut m, i as u64);
    push_str(&mut m, ": missing field `");
    push_str(&mut m, key);
    push_str(&mut m, "`");
    ParseError(m)
}

fn parse_transition(t: &Json, i: usize) -> (r: Result<Transition, ParseError>)
    ensures
        match transition_from_value(t@, i as nat) {
            Ok(tv) => r matches Ok(x) && x@ == tv,
            Err(m) => r matches Err(e) && e.0@ == m,
        },
{
    let from = match opt_str(t, "from") {
        Some(s) => s,
        None => {
            return Err(transition_missing(i, "from"));
        },
    };
    let to = match opt_str(t, "to") {
        Some(s) => s,
        None => {
            return Err(transition_missing(i, "to"));
        },
    };
    let role = match opt_str(t, "role") {
        Some(s) => s,
        None => {
            return Err(transition_missing(i, "role"));
        },
    };
    let msg = match opt_str(t, "msg") {
        Some(s) => s,
        None => {
            return Err(transition_missing(i, "msg"));
        },
    };
    let requires_fresh_nonce = opt_bool(t, "requires_fresh_nonce");
    let requires_seq = opt_bool(t, "requires_seq");
    let note = opt_str(t, "note");
    Ok(Transition { from, to, role, msg, requires_fresh_nonce, requires_seq, note })
}

fn parse_protocol_value(doc: &Json) -> (r: Result<ProtocolSpec, ParseError>)
    ensures
        match protocol_from_value(doc@) {
            Ok(pv) => r matches Ok(p) && p@ == pv,
            Err(m) => r matches Err(e) && e.0@ == m,
        },
{
    let name = require_str(doc, "name")?;
    let roles = str_array(doc, "roles")?;
    let initial = require_str(doc, "initial")?;
    let states = str_array(doc, "states")?;
    let accepting = str_array(doc, "accepting")?;
    let description = opt_str(doc, "description");
    let trans_arr = match doc.get("transitions") {
        Some(v) => v.as_array(),
        None => None,
    };
    let trans_arr = match trans_arr {
        Some(a) => a,
        None => {
            let mut m = String::new();
            push_str(&mut m, "field `transitions` must be an array");
            proof {
                reveal_strlit("field `");
                reveal_strlit("transitions");
                reveal_strlit("` must be an array");
                reveal_strlit("field `transitions` must be an array");
            }
            assert(m@ =~= msg_not_array("transitions"@));
            return Err(ParseError(m));
        },
    };
    let ghost items = crate::json::items_view(trans_arr@);
    assert(value_get(doc@, "transitions"@) == Some(JsonValue::Arr(items)));
    proof {
        crate::json::lemma_items_view_index(trans_arr@);
    }
    let mut transitions: Vec<Transition> = Vec::new();
    let mut i: usize = 0;
    assert(transitions@.map_values(|t: Transition| t@) =~= Seq::<TransitionView>::empty());
    while i < trans_arr.len()
        invariant
            i <= trans_arr@.len(),
            items == crate::json::items_view(trans_arr@),
            value_get(doc@, "transitions"@) == Some(JsonValue::Arr(items)),
            field_str(doc@, "name"@) == Some(name@),
            field_str_array(doc@, "roles"@) == Ok::<Seq<Seq<char>>, Seq<char>>(strings_view(roles@)),
            field_str(doc@, "initial"@) == Some(initial@),
            field_str_array(doc@, "states"@) == Ok::<Seq<Seq<char>>, Seq<char>>(strings_view(states@)),
            field_str_array(doc@, "accepting"@) == Ok::<Seq<Seq<char>>, Seq<char>>(
                strings_view(accepting@),
            ),
            field_str(doc@, "description"@) == opt_string_view(description),
            items.len() == trans_arr@.len(),
            forall|k: int| 0 <= k < trans_arr@.len() ==> #[trigger] items[k] == trans_arr@[k]@,
            transitions_prefix(items, i as nat) == Ok::<Seq<TransitionView>, Seq<char>>(
                transitions@.map_values(|t: Transition| t@),
            ),
        decreases trans_arr@.len() - i,
    {
        let t = match parse_transition(&trans_arr[i], i) {
            Ok(t) => t,
            Err(e) => {
                proof {
                    assert(transitions_prefix(items, (i + 1) as nat) == Err::<Seq<TransitionView>, Seq<char>>(
                        e.0@,
                    ));
                    lemma_transitions_prefix_err(items, (i + 1) as nat, items.len());
                }
                return Err(e);
            },
        };
        let ghost before = transitions@;
        transitions.push(t);
        assert(transitions@.map_values(|t: Transition| t@) =~= before.map_values(
            |t: Transition| t@,
        ).push(t@));
        i += 1;
    }
    Ok(ProtocolSpec { name, roles, initial, accepting, states, transitions, description })
}

fn json_parse_error(input: &str) -> (r: Result<Json, ParseError>)
    requires
        !(parse_document(input@) is Abort),
    ensures
        match parse_document(input@) {
            Step::Done(v, _) => r matches Ok(j) && j@ == v,
            Step::Fail(m, p) => r matches Err(e) && e.0@ == json_text_error(input@, m, p),
            Step::Abort => false,
        },
{
    match parse(input) {
        Ok(doc) => Ok(doc),
        Err(e) => Err(ParseError(e.to_string())),
    }
}

/// Parses a protocol specification document.
///
/// Success exactly when the text is a JSON document whose `name` and `initial`
/// are strings, whose `roles`, `states` and `accepting` are arrays of strings,
/// and whose `transitions` is an array of objects with string `from`, `to`,
/// `role` and `msg`; otherwise the error names the first problem.
pub fn parse_protocol(input: &str) -> (r: Result<ProtocolSpec, ParseError>)
    requires
        !(parse_document(input@) is Abort),
    ensures
        match protocol_from_text(input@) {
            Ok(pv) => r matches Ok(p) && p@ == pv,
            Err(m) => r matches Err(e) && e.0@ == m,
        },
{
    let doc = json_parse_error(input)?;
    parse_protocol_value(&doc)
}

/// An event's fields as read from a transcript document. The nonce and
/// sequence number are kept as the JSON values found (if any), and the
/// metadata as the entries of the `meta` object (empty when absent or not an
/// object); turning numbers into integers and text is left to the caller.
#[derive(Debug)]
pub struct EventFields {
    pub id: String,
    pub role: String,
    pub msg: String,
    pub nonce: Option<Json>,
    pub seq: Option<Json>,
    pub meta: Vec<(String, Json)>,
}

/// The fields of a transcript document.
#[derive(Debug)]
pub struct TranscriptFields {
    pub protocol: String,
    pub events: Vec<EventFields>,
}

/// The abstract value of [`EventFields`].
pub struct EventFieldsView {
    pub id: Seq<char>,
    pub role: Seq<char>,
    pub msg: Seq<char>,
    pub nonce: Option<JsonValue>,
    pub seq: Option<JsonValue>,
    pub meta: Seq<(Seq<char>, JsonValue)>,
}

pub open spec fn opt_json_view(o: Option<Json>) -> Option<JsonValue> {
    match o {
        Some(j) => Some(j@),
        None => None,
    }
}

impl View for EventFields {
    type V = EventFieldsView;

    open spec fn view(&self) -> EventFieldsView {
        EventFieldsView {
            id: self.id@,
            role: self.role@,
            msg: self.msg@,
            nonce: opt_json_view(self.nonce),
            seq: opt_json_view(self.seq),
            meta: entries_view(self.meta@),
        }
    }
}

/// The abstract value of [`TranscriptFields`].
pub struct TranscriptFieldsView {
    pub protocol: Seq<char>,
    pub events: Seq<EventFieldsView>,
}

impl View for TranscriptFields {
    type V = TranscriptFieldsView;

    open spec fn view(&self) -> TranscriptFieldsView {
        TranscriptFieldsView {
            protocol: self.protocol@,
            events: self.events@.map_values(|e: EventFields| e@),
        }
    }
}

/// The identifier given to the `i`-th event when it has none.
pub open spec fn default_event_id(i: nat) -> Seq<char> {
    "e"@ + decimal(i)
}

/// The fields of object `e`, the `i`-th event of its array.
pub open spec fn event_from_value(e: JsonValue, i: nat) -> Result<EventFieldsView, Seq<char>> {
    if field_str(e, "role"@) is None {
        Err(msg_event_missing(i, "role"@))
    } else if field_str(e, "msg"@) is None {
        Err(msg_event_missing(i, "msg"@))
    } else {
        Ok(
            EventFieldsView {
                id: match field_str(e, "id"@) {
                    Some(s) => s,
                    None => default_event_id(i),
                },
                role: field_str(e, "role"@)->0,
                msg: field_str(e, "msg"@)->0,
                nonce: value_get(e, "nonce"@),
                seq: value_get(e, "seq"@),
                meta: match value_get(e, "meta"@) {
                    Some(JsonValue::Obj(es)) => es,
                    _ => seq![],
                },
            },
        )
    }
}

/// The events described by the first `n` items, or the first error.
pub open spec fn events_prefix(items: Seq<JsonValue>, n: nat) -> Result<Seq<EventFieldsView>, Seq<char>>
    decreases n,
{
    if n == 0 {
        Ok(seq![])
    } else {
        match events_prefix(items, (n - 1) as nat) {
            Ok(v) => match event_from_value(items[n - 1], (n - 1) as nat) {
                Ok(e) => Ok(v.push(e)),
                Err(m) => Err(m),
            },
            Err(m) => Err(m),
        }
    }
}

pub proof fn lemma_events_prefix_err(items: Seq<JsonValue>, m: nat, n: nat)
    requires
        m <= n,
        events_prefix(items, m) is Err,
    ensures
        events_prefix(items, n) == events_prefix(items, m),
    decreases n - m,
{
    if n > m {
        lemma_events_prefix_err(items, m, (n - 1) as nat);
    }
}

/// The transcript fields described by a document, or the first problem found.
pub open spec fn transcript_from_value(doc: JsonValue) -> Result<TranscriptFieldsView, Seq<char>> {
    if field_str(doc, "protocol"@) is None {
        Err(msg_missing_str("protocol"@))
    } else {
        match value_get(doc, "events"@) {
            Some(JsonValue::Arr(items)) => match events_prefix(items, items.len()) {
                Ok(evs) => Ok(TranscriptFieldsView { protocol: field_str(doc, "protocol"@)->0, events: evs }),
                Err(m) => Err(m),
            },
            _ => Err(msg_not_array("events"@)),
        }
    }
}

/// The transcript fields described by a JSON text.
pub open spec fn transcript_from_text(c: Seq<char>) -> Result<TranscriptFieldsView, Seq<char>> {
    match parse_document(c) {
        Step::Done(v, _) => transcript_from_value(v),
        Step::Fail(m, p) => Err(json_text_error(c, m, p)),
        Step::Abort => Err(seq![]),
    }
}

fn event_missing(i: usize, key: &str) -> (e: ParseError)
    ensures
        e.0@ == msg_event_missing(i as nat, key@),
{
    let mut m = String::new();
    push_str(&mut m, "event #");
    push_decimal(&mut m, i as u64);
    push_str(&mut m, ": missing `");
    push_str(&mut m, key);
    push_str(&mut m, "`");
    ParseError(m)
}

fn copy_value(v: Option<&Json>) -> (r: Option<Json>)
    ensures
        opt_json_view(r) == crate::json::opt_view(v),
{
    match v {
        Some(j) => Some(j.deep_copy()),
        None => None,
    }
}

fn parse_event(e: &Json, i: usize) -> (r: Result<EventFields, ParseError>)
    ensures
        match event_from_value(e@, i as nat) {
            Ok(ev) => r matches Ok(x) && x@ == ev,
            Err(m) => r matches Err(err) && err.0@ == m,
        },
{
    let role = match opt_str(e, "role") {
        Some(s) => s,
        None => {
            return Err(event_missing(i, "role"));
        },
    };
    let msg = match opt_str(e, "msg") {
        Some(s) => s,
        None => {
            return Err(event_missing(i, "msg"));
        },
    };
    let id = match opt_str(e, "id") {
        Some(s) => s,
        None => {
            let mut s = String::new();
            push_str(&mut s, "e");
            push_decimal(&mut s, i as u64);
            s
        },
    };
    let nonce = copy_value(e.get("nonce"));
    let seq = copy_value(e.get("seq"));
    let mut meta: Vec<(String, Json)> = Vec::new();
    assert(entries_view(meta@) =~= Seq::<(Seq<char>, JsonValue)>::empty());
    match e.get("meta") {
        Some(m) => match m {
            Json::Obj(entries) => {
                if let Json::Obj(copied) = m.deep_copy() {
                    meta = copied;
                }
            },
            _ => {},
        },
        None => {},
    }
    Ok(EventFields { id, role, msg, nonce, seq, meta })
}

fn parse_transcript_value(doc: &Json) -> (r: Result<TranscriptFields, ParseError>)
    ensures
        match transcript_from_value(doc@) {
            Ok(tv) => r matches Ok(t) && t@ == tv,
            Err(m) => r matches Err(e) && e.0@ == m,
        },
{
    let protocol = require_str(doc, "protocol")?;
    let events_arr = match doc.get("events") {
        Some(v) => v.as_array(),
        None => None,
    };
    let events_arr = match events_arr {
        Some(a) => a,
        None => {
            let mut m = String::new();
            push_str(&mut m, "field `events` must be an array");
            proof {
                reveal_strlit("field `");
                reveal_strlit("events");
                reveal_strlit("` must be an array");
                reveal_strlit("field `events` must be an array");
            }
            assert(m@ =~= msg_not_array("events"@));
            return Err(ParseError(m));
        },
    };
    let ghost items = crate::json::items_view(events_arr@);
    assert(value_get(doc@, "events"@) == Some(JsonValue::Arr(items)));
    proof {
        crate::json::lemma_items_view_index(events_arr@);
    }
    let mut events: Vec<EventFields> = Vec::new();
    let mut i: usize = 0;
    assert(events@.map_values(|e: EventFields| e@) =~= Seq::<EventFieldsView>::empty());
    while i < events_arr.len()
        invariant
            i <= events_arr@.len(),
            items == crate::json::items_view(events_arr@),
            value_get(doc@, "events"@) == Some(JsonValue::Arr(items)),
            field_str(doc@, "protocol"@) == Some(protocol@),
            items.len() == events_arr@.len(),
            forall|k: int| 0 <= k < events_arr@.len() ==> #[trigger] items[k] == events_arr@[k]@,
            events_prefix(items, i as nat) == Ok::<Seq<EventFieldsView>, Seq<char>>(
                events@.map_values(|e: EventFields| e@),
            ),
        decreases events_arr@.len() - i,
    {
        let ev = match parse_event(&events_arr[i], i) {
            Ok(ev) => ev,
            Err(e) => {
                proof {
                    assert(events_prefix(items, (i + 1) as nat) == Err::<Seq<EventFieldsView>, Seq<char>>(
                        e.0@,
                    ));
                    lemma_events_prefix_err(items, (i + 1) as nat, items.len());
                }
                return Err(e);
            },
        };
        let ghost before = events@;
        let ghost evv = ev@;
        events.push(ev);
        assert(events@.map_values(|e: EventFields| e@) =~= before.map_values(|e: EventFields| e@).push(evv));
        i += 1;
    }
    Ok(TranscriptFields { protocol, events })
}

/// Reads the fields of a transcript document.
///
/// Success exactly when the text is a JSON document with a string `protocol`
/// and an `events` array whose items are objects with string `role` and
/// `msg`; an event without a string `id` is named `e<i>` after its index.
/// Otherwise the error names the first problem.
pub fn parse_transcript_fields(input: &str) -> (r: Result<TranscriptFields, ParseError>)
    requires
        !(parse_document(input@) is Abort),
    ensures
        match transcript_from_text(input@) {
            Ok(tv) => r matches Ok(t) && t@ == tv,
            Err(m) => r matches Err(e) && e.0@ == m,
        },
{
    let doc = json_parse_error(input)?;
    parse_transcript_value(&doc)
}

} // verus!
