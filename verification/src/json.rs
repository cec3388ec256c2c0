//! Minimal JSON value model, parser and serializer.
//!
//! The parser accepts objects, arrays, strings, numbers, booleans and null, plus
//! `//` line comments as a convenience for fixtures. Numbers keep their original
//! literal text. Object keys keep insertion order, so serialization is
//! deterministic.

use vstd::prelude::*;

use crate::text::{chars_of, push_char, push_str, string_from_range};

verus! {

/// The abstract value of a JSON document.
pub enum JsonValue {
    Null,
    Bool(bool),
    /// A number, by its literal text.
    Num(Seq<char>),
    Str(Seq<char>),
    Arr(Seq<JsonValue>),
    Obj(Seq<(Seq<char>, JsonValue)>),
}

/// A JSON value.
#[derive(Debug, PartialEq)]
pub enum Json {
    Null,
    Bool(bool),
    /// A number, kept as its literal text so that values round-trip unchanged.
    Num(String),
    Str(String),
    Arr(Vec<Json>),
    /// Objects keep their entries in insertion order.
    Obj(Vec<(String, Json)>),
}

pub open spec fn json_view(j: Json) -> JsonValue
    decreases j,
{
    match j {
        Json::Null => JsonValue::Null,
        Json::Bool(b) => JsonValue::Bool(b),
        Json::Num(s) => JsonValue::Num(s@),
        Json::Str(s) => JsonValue::Str(s@),
        Json::Arr(items) => JsonValue::Arr(items_view(items@)),
        Json::Obj(entries) => JsonValue::Obj(entries_view(entries@)),
    }
}

pub open spec fn items_view(s: Seq<Json>) -> Seq<JsonValue>
    decreases s,
{
    if s.len() == 0 {
        seq![]
    } else {
        seq![json_view(s[0])] + items_view(s.drop_first())
    }
}

pub open spec fn entries_view(s: Seq<(String, Json)>) -> Seq<(Seq<char>, JsonValue)>
    decreases s,
{
    if s.len() == 0 {
        seq![]
    } else {
        seq![(s[0].0@, json_view(s[0].1))] + entries_view(s.drop_first())
    }
}

impl View for Json {
    type V = JsonValue;

    open spec fn view(&self) -> JsonValue {
        json_view(*self)
    }
}


pub proof fn lemma_items_view_push(s: Seq<Json>, x: Json)
    ensures
        items_view(s.push(x)) == items_view(s).push(json_view(x)),
    decreases s.len(),
{
    if s.len() == 0 {
        assert(s.push(x).drop_first() =~= s);
    } else {
        lemma_items_view_push(s.drop_first(), x);
        assert(s.push(x).drop_first() =~= s.drop_first().push(x));
    }
}

pub proof fn lemma_entries_view_push(s: Seq<(String, Json)>, x: (String, Json))
    ensures
        entries_view(s.push(x)) == entries_view(s).push((x.0@, json_view(x.1))),
    decreases s.len(),
{
    if s.len() == 0 {
        assert(s.push(x).drop_first() =~= s);
    } else {
        lemma_entries_view_push(s.drop_first(), x);
        assert(s.push(x).drop_first() =~= s.drop_first().push(x));
    }
}

pub proof fn lemma_entries_view_index(s: Seq<(String, Json)>)
    ensures
        entries_view(s).len() == s.len(),
        forall|i: int|
            0 <= i < s.len() ==> #[trigger] entries_view(s)[i] == (s[i].0@, json_view(s[i].1)),
    decreases s.len(),
{
    if s.len() > 0 {
        lemma_entries_view_index(s.drop_first());
    }
}

pub proof fn lemma_items_view_index(s: Seq<Json>)
    ensures
        items_view(s).len() == s.len(),
        forall|i: int| 0 <= i < s.len() ==> #[trigger] items_view(s)[i] == json_view(s[i]),
    decreases s.len(),
{
    if s.len() > 0 {
        lemma_items_view_index(s.drop_first());
    }
}

/// The outcome of one parsing step: a value and the position just after it, an
/// error message and the position where it was detected, or an input on which
/// the parser aborts (arithmetic overflow while combining a surrogate pair).
pub enum Step<T> {
    Done(T, int),
    Fail(Seq<char>, int),
    Abort,
}

/// JSON whitespace.
pub open spec fn is_ws(ch: char) -> bool {
    ch == ' ' || ch == '\t' || ch == '\n' || ch == '\r'
}

/// ASCII decimal digit.
pub open spec fn is_digit(ch: char) -> bool {
    '0' <= ch <= '9'
}

/// The position just past the end of the line containing `i`: past its
/// newline, or the end of input.
pub open spec fn line_end(c: Seq<char>, i: int) -> int
    decreases c.len() - i,
{
    if i >= c.len() {
        c.len() as int
    } else if c[i] == '\n' {
        i + 1
    } else {
        line_end(c, i + 1)
    }
}

pub proof fn lemma_line_end(c: Seq<char>, i: int)
    requires
        0 <= i <= c.len(),
    ensures
        i <= line_end(c, i) <= c.len(),
        i < c.len() ==> i < line_end(c, i),
    decreases c.len() - i,
{
    if i < c.len() && c[i] != '\n' {
        lemma_line_end(c, i + 1);
    }
}

/// The position after skipping whitespace and `//` line comments from `i`.
pub open spec fn skip_ws(c: Seq<char>, i: int) -> int
    decreases c.len() - i,
{
    if 0 <= i < c.len() {
        if is_ws(c[i]) {
            skip_ws(c, i + 1)
        } else if c[i] == '/' && i + 1 < c.len() && c[i + 1] == '/' {
            proof {
                lemma_line_end(c, i);
            }
            skip_ws(c, line_end(c, i))
        } else {
            i
        }
    } else {
        i
    }
}

pub proof fn lemma_skip_ws(c: Seq<char>, i: int)
    requires
        0 <= i <= c.len(),
    ensures
        i <= skip_ws(c, i) <= c.len(),
    decreases c.len() - i,
{
    if i < c.len() {
        if is_ws(c[i]) {
            lemma_skip_ws(c, i + 1);
        } else if c[i] == '/' && i + 1 < c.len() && c[i + 1] == '/' {
            lemma_line_end(c, i);
            lemma_skip_ws(c, line_end(c, i));
        }
    }
}

/// Law: space, tab, line feed and carriage return are skipped between tokens:
/// skipping whitespace from one of them ends where skipping from the next
/// character does, and a value read at one of them is the value read just
/// after it (same value or error, same end position).
pub proof fn lemma_whitespace_skipped(c: Seq<char>, i: int)
    requires
        0 <= i < c.len(),
        c[i] == ' ' || c[i] == '\t' || c[i] == '\n' || c[i] == '\r',
    ensures
        skip_ws(c, i) == skip_ws(c, i + 1),
        parse_value(c, i) == parse_value(c, i + 1),
{
    lemma_skip_ws(c, i + 1);
}

/// The value of a hexadecimal digit.
pub open spec fn hex_val(ch: char) -> Option<nat> {
    if '0' <= ch <= '9' {
        Some((ch as nat - '0' as nat) as nat)
    } else if 'a' <= ch <= 'f' {
        Some((ch as nat - 'a' as nat + 10) as nat)
    } else if 'A' <= ch <= 'F' {
        Some((ch as nat - 'A' as nat + 10) as nat)
    } else {
        None
    }
}

/// Reads the remaining `4 - k` hex digits after position `pos`, accumulating `acc`.
pub open spec fn hex_digits(c: Seq<char>, pos: int, k: nat, acc: nat) -> Step<nat>
    decreases 4 - k,
{
    if k >= 4 {
        Step::Done(acc, pos)
    } else {
        let p = pos + 1;
        if 0 <= p < c.len() && hex_val(c[p]) is Some {
            hex_digits(c, p, k + 1, acc * 16 + hex_val(c[p])->0)
        } else {
            Step::Fail("invalid \\u escape"@, p)
        }
    }
}

/// The code unit of a `\u` escape whose `u` is at `e`; on success the position
/// is that of the last hex digit.
pub open spec fn hex4(c: Seq<char>, e: int) -> Step<nat> {
    hex_digits(c, e, 0, 0)
}

pub proof fn lemma_hex_digits(c: Seq<char>, pos: int, k: nat, acc: nat)
    requires
        k <= 4,
        acc < pow16(k),
        0 <= pos < c.len(),
    ensures
        hex_digits(c, pos, k, acc) matches Step::Done(v, q) ==> q == pos + 4 - k && v < 0x10000
            && q < c.len(),
        hex_digits(c, pos, k, acc) matches Step::Fail(_, q) ==> pos < q <= pos + 4 - k && q
            <= c.len(),
        !(hex_digits(c, pos, k, acc) is Abort),
    decreases 4 - k,
{
    if k < 4 {
        let p = pos + 1;
        if 0 <= p < c.len() && hex_val(c[p]) is Some {
            let d = hex_val(c[p])->0;
            assert(acc * 16 + d < pow16(k + 1)) by (nonlinear_arith)
                requires
                    acc < pow16(k),
                    d < 16,
                    pow16(k + 1) == pow16(k) * 16,
            ;
            lemma_hex_digits(c, p, k + 1, acc * 16 + d);
        }
    }
}

/// Sixteen to the power `k`, for `k` up to four.
pub open spec fn pow16(k: nat) -> nat {
    if k == 0 {
        1
    } else if k == 1 {
        16
    } else if k == 2 {
        256
    } else if k == 3 {
        4096
    } else {
        65536
    }
}

/// The character produced by a simple (one-letter) escape.
pub open spec fn simple_escape(ch: char) -> Option<char> {
    if ch == '"' {
        Some('"')
    } else if ch == '\\' {
        Some('\\')
    } else if ch == '/' {
        Some('/')
    } else if ch == 'n' {
        Some('\n')
    } else if ch == 't' {
        Some('\t')
    } else if ch == 'r' {
        Some('\r')
    } else if ch == 'b' {
        Some('\u{8}')
    } else if ch == 'f' {
        Some('\u{c}')
    } else {
        None
    }
}

/// A Unicode scalar value (a code point that is not a surrogate).
pub open spec fn is_scalar_value(v: int) -> bool {
    0 <= v <= 0x10FFFF && !(0xD800 <= v <= 0xDFFF)
}

/// The code point encoded by a high and a low surrogate.
pub open spec fn surrogate_pair(hi: nat, lo: nat) -> int {
    0x10000 + (hi - 0xD800) * 1024 + (lo - 0xDC00)
}

/// The body of a string literal from `k` (after the opening quote), with the
/// characters decoded so far in `acc`.
pub open spec fn string_body(c: Seq<char>, k: int, acc: Seq<char>) -> Step<Seq<char>>
    decreases c.len() - k,
{
    if !(0 <= k < c.len()) {
        Step::Fail("unterminated string"@, k)
    } else if c[k] == '"' {
        Step::Done(acc, k + 1)
    } else if c[k] == '\\' {
        let e = k + 1;
        if e >= c.len() {
            Step::Fail("invalid escape sequence"@, e)
        } else if simple_escape(c[e]) is Some {
            string_body(c, e + 1, acc.push(simple_escape(c[e])->0))
        } else if c[e] == 'u' {
            proof {
                lemma_hex_digits(c, e, 0, 0);
            }
            match hex4(c, e) {
                Step::Done(cp, p) => if 0xD800 <= cp <= 0xDBFF {
                    if p + 2 < c.len() && c[p + 1] == '\\' && c[p + 2] == 'u' {
                        proof {
                            lemma_hex_digits(c, p + 2, 0, 0);
                        }
                        match hex4(c, p + 2) {
                            Step::Done(lo, q) => if lo < 0xDC00 {
                                Step::Abort
                            } else if is_scalar_value(surrogate_pair(cp, lo)) {
                                string_body(c, q + 1, acc.push((surrogate_pair(cp, lo) as u32) as char))
                            } else {
                                Step::Fail("invalid surrogate pair"@, q)
                            },
                            Step::Fail(m, q) => Step::Fail(m, q),
                            Step::Abort => Step::Abort,
                        }
                    } else {
                        Step::Fail("unpaired high surrogate"@, p)
                    }
                } else if is_scalar_value(cp as int) {
                    string_body(c, p + 1, acc.push((cp as u32) as char))
                } else {
                    Step::Fail("invalid unicode escape"@, p)
                },
                Step::Fail(m, p) => Step::Fail(m, p),
                Step::Abort => Step::Abort,
            }
        } else {
            Step::Fail("invalid escape sequence"@, e)
        }
    } else {
        string_body(c, k + 1, acc.push(c[k]))
    }
}

/// A string literal whose opening quote is at `j`.
pub open spec fn parse_string(c: Seq<char>, j: int) -> Step<Seq<char>> {
    string_body(c, j + 1, seq![])
}

pub proof fn lemma_string_body(c: Seq<char>, k: int, acc: Seq<char>)
    requires
        0 <= k <= c.len(),
    ensures
        string_body(c, k, acc) matches Step::Done(_, q) ==> k < q <= c.len(),
        string_body(c, k, acc) matches Step::Fail(_, q) ==> k <= q <= c.len(),
    decreases c.len() - k,
{
    if 0 <= k < c.len() && c[k] != '"' {
        if c[k] == '\\' {
            let e = k + 1;
            if e < c.len() {
                if simple_escape(c[e]) is Some {
                    lemma_string_body(c, e + 1, acc.push(simple_escape(c[e])->0));
                } else if c[e] == 'u' {
                    lemma_hex_digits(c, e, 0, 0);
                    match hex4(c, e) {
                        Step::Done(cp, p) => {
                            if 0xD800 <= cp <= 0xDBFF {
                                if p + 2 < c.len() && c[p + 1] == '\\' && c[p + 2] == 'u' {
                                    lemma_hex_digits(c, p + 2, 0, 0);
                                    match hex4(c, p + 2) {
                                        Step::Done(lo, q) => {
                                            if lo >= 0xDC00 && is_scalar_value(
                                                surrogate_pair(cp, lo),
                                            ) {
                                                lemma_string_body(
                                                    c,
                                                    q + 1,
                                                    acc.push((surrogate_pair(cp, lo) as u32) as char),
                                                );
                                            }
                                        },
                                        _ => {},
                                    }
                                }
                            } else if is_scalar_value(cp as int) {
                                lemma_string_body(c, p + 1, acc.push((cp as u32) as char));
                            }
                        },
                        _ => {},
                    }
                }
            }
        } else {
            lemma_string_body(c, k + 1, acc.push(c[k]));
        }
    }
}

/// The end of a run of decimal digits starting at `i`.
pub open spec fn digits_end(c: Seq<char>, i: int) -> int
    decreases c.len() - i,
{
    if 0 <= i < c.len() && is_digit(c[i]) {
        digits_end(c, i + 1)
    } else {
        i
    }
}

pub proof fn lemma_digits_end(c: Seq<char>, i: int)
    requires
        0 <= i <= c.len(),
    ensures
        i <= digits_end(c, i) <= c.len(),
        forall|k: int| i <= k < digits_end(c, i) ==> is_digit(#[trigger] c[k]),
    decreases c.len() - i,
{
    if i < c.len() && is_digit(c[i]) {
        lemma_digits_end(c, i + 1);
    }
}

/// Start of the integer digits of a number literal at `j` (after an optional minus).
pub open spec fn num_int_start(c: Seq<char>, j: int) -> int {
    if 0 <= j < c.len() && c[j] == '-' {
        j + 1
    } else {
        j
    }
}

/// End of the integer digits.
pub open spec fn num_int_end(c: Seq<char>, j: int) -> int {
    digits_end(c, num_int_start(c, j))
}

/// Whether the number has a decimal point.
pub open spec fn num_has_dot(c: Seq<char>, j: int) -> bool {
    let b = num_int_end(c, j);
    0 <= b < c.len() && c[b] == '.'
}

/// End of the mantissa (integer digits, point and fraction digits).
pub open spec fn num_frac_end(c: Seq<char>, j: int) -> int {
    if num_has_dot(c, j) {
        digits_end(c, num_int_end(c, j) + 1)
    } else {
        num_int_end(c, j)
    }
}

/// Whether the number has an exponent marker.
pub open spec fn num_has_exp(c: Seq<char>, j: int) -> bool {
    let d = num_frac_end(c, j);
    0 <= d < c.len() && (c[d] == 'e' || c[d] == 'E')
}

/// Start of the exponent digits (after the marker and an optional sign).
pub open spec fn num_exp_start(c: Seq<char>, j: int) -> int {
    let e1 = num_frac_end(c, j) + 1;
    if 0 <= e1 < c.len() && (c[e1] == '+' || c[e1] == '-') {
        e1 + 1
    } else {
        e1
    }
}

/// End of the number literal at `j`.
pub open spec fn num_end(c: Seq<char>, j: int) -> int {
    if num_has_exp(c, j) {
        digits_end(c, num_exp_start(c, j))
    } else {
        num_frac_end(c, j)
    }
}

/// Whether the scanned literal is a well-formed decimal floating-point literal:
/// at least one mantissa digit, and at least one exponent digit when an
/// exponent marker is present.
pub open spec fn num_valid(c: Seq<char>, j: int) -> bool {
    let a = num_int_start(c, j);
    let b = num_int_end(c, j);
    &&& (b > a || (num_has_dot(c, j) && num_frac_end(c, j) > b + 1))
    &&& (num_has_exp(c, j) ==> num_end(c, j) > num_exp_start(c, j))
}

/// A number literal starting at `j`.
pub open spec fn parse_number(c: Seq<char>, j: int) -> Step<JsonValue> {
    let end = num_end(c, j);
    if num_valid(c, j) {
        Step::Done(JsonValue::Num(c.subrange(j, end)), end)
    } else {
        Step::Fail("invalid number literal"@, end)
    }
}

/// Whether the text at `j` starts with `w`.
pub open spec fn starts_with_at(c: Seq<char>, j: int, w: Seq<char>) -> bool {
    0 <= j && j + w.len() <= c.len() && c.subrange(j, j + w.len()) == w
}

/// A `true` or `false` literal at `j`.
pub open spec fn parse_bool(c: Seq<char>, j: int) -> Step<JsonValue> {
    if starts_with_at(c, j, "true"@) {
        Step::Done(JsonValue::Bool(true), j + 4)
    } else if starts_with_at(c, j, "false"@) {
        Step::Done(JsonValue::Bool(false), j + 5)
    } else {
        Step::Fail("invalid literal"@, j)
    }
}

/// A `null` literal at `j`.
pub open spec fn parse_null(c: Seq<char>, j: int) -> Step<JsonValue> {
    if starts_with_at(c, j, "null"@) {
        Step::Done(JsonValue::Null, j + 4)
    } else {
        Step::Fail("invalid literal"@, j)
    }
}

/// A value starting at or after `i` (leading whitespace is skipped).
pub open spec fn parse_value(c: Seq<char>, i: int) -> Step<JsonValue>
    decreases c.len() - i, 1nat,
{
    if 0 <= i <= c.len() {
        proof {
            lemma_skip_ws(c, i);
        }
        let j = skip_ws(c, i);
        if j >= c.len() {
            Step::Fail("unexpected end of input"@, j)
        } else if c[j] == '{' {
            parse_object(c, j)
        } else if c[j] == '[' {
            parse_array(c, j)
        } else if c[j] == '"' {
            match parse_string(c, j) {
                Step::Done(s, k) => Step::Done(JsonValue::Str(s), k),
                Step::Fail(m, k) => Step::Fail(m, k),
                Step::Abort => Step::Abort,
            }
        } else if c[j] == 't' || c[j] == 'f' {
            parse_bool(c, j)
        } else if c[j] == 'n' {
            parse_null(c, j)
        } else if c[j] == '-' || is_digit(c[j]) {
            parse_number(c, j)
        } else {
            Step::Fail("unexpected character"@, j)
        }
    } else {
        Step::Fail("unexpected end of input"@, i)
    }
}

/// An object whose opening brace is at `j`.
pub open spec fn parse_object(c: Seq<char>, j: int) -> Step<JsonValue>
    decreases c.len() - j, 0nat,
{
    if 0 <= j < c.len() {
        proof {
            lemma_skip_ws(c, j + 1);
        }
        let p = skip_ws(c, j + 1);
        if p < c.len() && c[p] == '}' {
            Step::Done(JsonValue::Obj(seq![]), p + 1)
        } else {
            object_members(c, p, seq![])
        }
    } else {
        Step::Fail("unexpected end of input"@, j)
    }
}

/// The members of an object from `k` on, with the entries read so far in `acc`.
pub open spec fn object_members(
    c: Seq<char>,
    k: int,
    acc: Seq<(Seq<char>, JsonValue)>,
) -> Step<JsonValue>
    decreases c.len() - k, 2nat,
{
    if 0 <= k <= c.len() {
        proof {
            lemma_skip_ws(c, k);
        }
        let p = skip_ws(c, k);
        if !(p < c.len() && c[p] == '"') {
            Step::Fail("expected string key in object"@, p)
        } else {
            proof {
                lemma_string_body(c, p + 1, seq![]);
            }
            match parse_string(c, p) {
                Step::Done(key, q) => {
                    proof {
                        lemma_skip_ws(c, q);
                    }
                    let r = skip_ws(c, q);
                    if !(r < c.len() && c[r] == ':') {
                        Step::Fail("expected ':' after object key"@, r)
                    } else {
                        match parse_value(c, r + 1) {
                            Step::Done(v, s) => if k < s <= c.len() {
                                proof {
                                    lemma_skip_ws(c, s);
                                }
                                let t = skip_ws(c, s);
                                if t < c.len() && c[t] == ',' {
                                    object_members(c, t + 1, acc.push((key, v)))
                                } else if t < c.len() && c[t] == '}' {
                                    Step::Done(JsonValue::Obj(acc.push((key, v))), t + 1)
                                } else {
                                    Step::Fail("expected ',' or '}' in object"@, t)
                                }
                            } else {
                                Step::Abort
                            },
                            Step::Fail(m, s) => Step::Fail(m, s),
                            Step::Abort => Step::Abort,
                        }
                    }
                },
                Step::Fail(m, q) => Step::Fail(m, q),
                Step::Abort => Step::Abort,
            }
        }
    } else {
        Step::Fail("unexpected end of input"@, k)
    }
}

/// An array whose opening bracket is at `j`.
pub open spec fn parse_array(c: Seq<char>, j: int) -> Step<JsonValue>
    decreases c.len() - j, 0nat,
{
    if 0 <= j < c.len() {
        proof {
            lemma_skip_ws(c, j + 1);
        }
        let p = skip_ws(c, j + 1);
        if p < c.len() && c[p] == ']' {
            Step::Done(JsonValue::Arr(seq![]), p + 1)
        } else {
            array_items(c, p, seq![])
        }
    } else {
        Step::Fail("unexpected end of input"@, j)
    }
}

/// The items of an array from `k` on, with the items read so far in `acc`.
pub open spec fn array_items(c: Seq<char>, k: int, acc: Seq<JsonValue>) -> Step<JsonValue>
    decreases c.len() - k, 2nat,
{
    if 0 <= k <= c.len() {
        match parse_value(c, k) {
            Step::Done(v, q) => if k < q <= c.len() {
                proof {
                    lemma_skip_ws(c, q);
                }
                let t = skip_ws(c, q);
                if t < c.len() && c[t] == ',' {
                    array_items(c, t + 1, acc.push(v))
                } else if t < c.len() && c[t] == ']' {
                    Step::Done(JsonValue::Arr(acc.push(v)), t + 1)
                } else {
                    Step::Fail("expected ',' or ']' in array"@, t)
                }
            } else {
                Step::Abort
            },
            Step::Fail(m, q) => Step::Fail(m, q),
            Step::Abort => Step::Abort,
        }
    } else {
        Step::Fail("unexpected end of input"@, k)
    }
}

/// A whole document: one value, optionally surrounded by whitespace and comments.
pub open spec fn parse_document(c: Seq<char>) -> Step<JsonValue> {
    match parse_value(c, 0) {
        Step::Done(v, q) => {
            let p = skip_ws(c, q);
            if p != c.len() {
                Step::Fail("trailing characters after JSON document"@, p)
            } else {
                Step::Done(v, p)
            }
        },
        other => other,
    }
}

/// The number of bytes in the UTF-8 encoding of `ch`.
pub open spec fn utf8_width(ch: char) -> nat {
    let v = ch as u32;
    if v < 0x80 {
        1
    } else if v < 0x800 {
        2
    } else if v < 0x10000 {
        3
    } else {
        4
    }
}

/// The number of bytes in the UTF-8 encoding of `c`.
pub open spec fn utf8_len(c: Seq<char>) -> nat
    decreases c.len(),
{
    if c.len() == 0 {
        0
    } else {
        utf8_width(c[0]) + utf8_len(c.drop_first())
    }
}

/// The byte offset of character position `i` in the UTF-8 encoding of `c`.
pub open spec fn byte_offset(c: Seq<char>, i: int) -> nat {
    utf8_len(c.take(i))
}

pub proof fn lemma_utf8_len_concat(a: Seq<char>, b: Seq<char>)
    ensures
        utf8_len(a + b) == utf8_len(a) + utf8_len(b),
    decreases a.len(),
{
    if a.len() == 0 {
        assert(a + b =~= b);
    } else {
        lemma_utf8_len_concat(a.drop_first(), b);
        assert((a + b).drop_first() =~= a.drop_first() + b);
    }
}

pub proof fn lemma_utf8_len_encode(c: Seq<char>)
    ensures
        utf8_len(c) == vstd::utf8::encode_utf8(c).len(),
    decreases c.len(),
{
    if c.len() > 0 {
        lemma_utf8_len_encode(c.drop_first());
        vstd::utf8::char_is_scalar(c[0]);
    }
}

pub proof fn lemma_byte_offset_step(c: Seq<char>, i: int)
    requires
        0 <= i < c.len(),
    ensures
        byte_offset(c, i + 1) == byte_offset(c, i) + utf8_width(c[i]),
        byte_offset(c, i + 1) <= utf8_len(c),
{
    assert(c.take(i + 1) =~= c.take(i) + seq![c[i]]);
    lemma_utf8_len_concat(c.take(i), seq![c[i]]);
    assert(seq![c[i]].drop_first() =~= Seq::<char>::empty());
    assert(utf8_len(seq![c[i]]) == utf8_width(c[i]) + utf8_len(Seq::<char>::empty()));
    assert(c =~= c.take(i + 1) + c.skip(i + 1));
    lemma_utf8_len_concat(c.take(i + 1), c.skip(i + 1));
}

/// A JSON parse error with the byte position where it was detected.
#[derive(Debug, PartialEq)]
pub struct JsonError {
    pub message: String,
    pub position: usize,
}

impl Clone for JsonError {
    fn clone(&self) -> (res: Self)
        ensures
            res.message@ == self.message@,
            res.position == self.position,
    {
        JsonError { message: self.message.clone(), position: self.position }
    }
}

/// The rendering of a parse error.
pub open spec fn json_error_text(message: Seq<char>, position: nat) -> Seq<char> {
    "JSON error at byte "@ + crate::text::decimal(position) + ": "@ + message
}

impl JsonError {
    /// The human-readable rendering, `JSON error at byte N: message`.
    pub fn to_string(&self) -> (s: String)
        ensures
            s@ == json_error_text(self.message@, self.position as nat),
    {
        let mut s = String::new();
        crate::text::push_str(&mut s, "JSON error at byte ");
        crate::text::push_decimal(&mut s, self.position as u64);
        crate::text::push_str(&mut s, ": ");
        crate::text::push_str(&mut s, self.message.as_str());
        s
    }
}

/// The character with the given code point (std's `char::from_u32`): `None`
/// exactly for surrogates and values above `0x10FFFF`.
#[verifier::external_body]
fn char_from_u32(v: u32) -> (r: Option<char>)
    ensures
        r is Some <==> is_scalar_value(v as int),
        r matches Some(ch) ==> ch as u32 == v,
{
    char::from_u32(v)
}

/// Relates an executable parsing result to a parsing step.
pub open spec fn leaf_step(r: Result<(Json, usize), (&'static str, usize)>, s: Step<JsonValue>) -> bool {
    match r {
        Ok((v, q)) => s == Step::Done(v@, q as int),
        Err((m, q)) => s == Step::<JsonValue>::Fail(m@, q as int),
    }
}

/// Why parsing stopped: an error message and the position where it was
/// detected, or an escape sequence on which the grammar is not defined.
enum Fault {
    Fail(&'static str, usize),
    Abort,
}

spec fn value_step(r: Result<(Json, usize), Fault>, s: Step<JsonValue>) -> bool {
    match r {
        Ok((v, q)) => s == Step::Done(v@, q as int),
        Err(Fault::Fail(m, q)) => s == Step::<JsonValue>::Fail(m@, q as int),
        Err(Fault::Abort) => s is Abort,
    }
}

fn line_end_exec(c: &Vec<char>, i: usize) -> (r: usize)
    requires
        i <= c@.len(),
    ensures
        r == line_end(c@, i as int),
{
    let mut p = i;
    while p < c.len()
        invariant
            i <= p <= c@.len(),
            line_end(c@, p as int) == line_end(c@, i as int),
        decreases c@.len() - p,
    {
        if c[p] == '\n' {
            return p + 1;
        }
        p += 1;
    }
    p
}

fn skip_ws_exec(c: &Vec<char>, i: usize) -> (r: usize)
    requires
        i <= c@.len(),
    ensures
        r == skip_ws(c@, i as int),
        i <= r <= c@.len(),
{
    let mut p = i;
    while p < c.len()
        invariant
            i <= p <= c@.len(),
            skip_ws(c@, p as int) == skip_ws(c@, i as int),
        decreases c@.len() - p,
    {
        let ch = c[p];
        if ch == ' ' || ch == '\t' || ch == '\n' || ch == '\r' {
            p += 1;
        } else if ch == '/' && p + 1 < c.len() && c[p + 1] == '/' {
            proof {
                lemma_line_end(c@, p as int);
            }
            p = line_end_exec(c, p);
        } else {
            return p;
        }
    }
    p
}

fn hex_val_exec(ch: char) -> (r: Option<u32>)
    ensures
        match hex_val(ch) {
            Some(d) => r == Some(d as u32),
            None => r is None,
        },
{
    if '0' <= ch && ch <= '9' {
        Some((ch as u32) - ('0' as u32))
    } else if 'a' <= ch && ch <= 'f' {
        Some((ch as u32) - ('a' as u32) + 10)
    } else if 'A' <= ch && ch <= 'F' {
        Some((ch as u32) - ('A' as u32) + 10)
    } else {
        None
    }
}

fn hex4_exec(c: &Vec<char>, e: usize) -> (r: Result<(u32, usize), (&'static str, usize)>)
    requires
        e < c@.len(),
    ensures
        match r {
            Ok((v, q)) => hex4(c@, e as int) == Step::Done(v as nat, q as int),
            Err((m, q)) => hex4(c@, e as int) == Step::<nat>::Fail(m@, q as int),
        },
{
    proof {
        lemma_hex_digits(c@, e as int, 0, 0);
    }
    let n = c.len();
    let mut pos = e;
    let mut acc: u32 = 0;
    let mut k: usize = 0;
    while k < 4
        invariant
            n == c@.len(),
            k <= 4,
            e <= pos < c@.len(),
            pos == e + k,
            acc < pow16(k as nat),
            hex4(c@, e as int) == hex_digits(c@, pos as int, k as nat, acc as nat),
        decreases 4 - k,
    {
        let p = pos + 1;
        if p < n {
            match hex_val_exec(c[p]) {
                Some(d) => {
                    assert(acc * 16 + d < pow16((k + 1) as nat)) by (nonlinear_arith)
                        requires
                            acc < pow16(k as nat),
                            d < 16,
                            pow16((k + 1) as nat) == pow16(k as nat) * 16,
                    ;
                    acc = acc * 16 + d;
                    pos = p;
                    k += 1;
                },
                None => {
                    return Err(("invalid \\u escape", p));
                },
            }
        } else {
            return Err(("invalid \\u escape", p));
        }
    }
    Ok((acc, pos))
}

fn simple_escape_exec(ch: char) -> (r: Option<char>)
    ensures
        r == simple_escape(ch),
{
    if ch == '"' {
        Some('"')
    } else if ch == '\\' {
        Some('\\')
    } else if ch == '/' {
        Some('/')
    } else if ch == 'n' {
        Some('\n')
    } else if ch == 't' {
        Some('\t')
    } else if ch == 'r' {
        Some('\r')
    } else if ch == 'b' {
        Some('\u{8}')
    } else if ch == 'f' {
        Some('\u{c}')
    } else {
        None
    }
}

fn parse_string_exec(c: &Vec<char>, j: usize) -> (r: Result<(String, usize), Fault>)
    requires
        j < c@.len(),
    ensures
        match r {
            Ok((v, q)) => parse_string(c@, j as int) == Step::Done(v@, q as int) && j < q <= c@.len(),
            Err(Fault::Fail(m, q)) => parse_string(c@, j as int) == Step::<Seq<char>>::Fail(m@, q as int)
                && q <= c@.len(),
            Err(Fault::Abort) => parse_string(c@, j as int) is Abort,
        },
{
    let n = c.len();
    let mut k = j + 1;
    let mut acc = String::new();
    proof {
        lemma_string_body(c@, k as int, acc@);
    }
    while k < c.len()
        invariant
            n == c@.len(),
            j < k <= c@.len(),
            string_body(c@, k as int, acc@) == parse_string(c@, j as int),
        decreases c@.len() - k,
    {
        proof {
            lemma_string_body(c@, k as int, acc@);
        }
        let ch = c[k];
        if ch == '"' {
            return Ok((acc, k + 1));
        } else if ch == '\\' {
            let e = k + 1;
            if e >= c.len() {
                return Err(Fault::Fail("invalid escape sequence", e));
            }
            match simple_escape_exec(c[e]) {
                Some(x) => {
                    push_char(&mut acc, x);
                    k = e + 1;
                },
                None => {
                    if c[e] == 'u' {
                        proof {
                            lemma_hex_digits(c@, e as int, 0, 0);
                        }
                        match hex4_exec(c, e) {
                            Err((m, p)) => {
                                return Err(Fault::Fail(m, p));
                            },
                            Ok((cp, p)) => {
                                if 0xD800 <= cp && cp <= 0xDBFF {
                                    if p < n && n - p > 2 && c[p + 1] == '\\' && c[p + 2] == 'u' {
                                        proof {
                                            lemma_hex_digits(c@, p + 2, 0, 0);
                                        }
                                        match hex4_exec(c, p + 2) {
                                            Err((m, q)) => {
                                                return Err(Fault::Fail(m, q));
                                            },
                                            Ok((lo, q)) => {
                                                if lo < 0xDC00 {
                                                    assert(string_body(c@, k as int, acc@) is Abort);
                                                    return Err(Fault::Abort);
                                                }
                                                let hi_part: u32 = (cp - 0xD800) * 1024;
                                                let v: u32 = 0x10000 + hi_part + (lo - 0xDC00);
                                                assert(v == surrogate_pair(cp as nat, lo as nat));
                                                match char_from_u32(v) {
                                                    Some(x) => {
                                                        proof {
                                                            vstd::utf8::char_u32_cast(x, v);
                                                        }
                                                        push_char(&mut acc, x);
                                                        k = q + 1;
                                                    },
                                                    None => {
                                                        return Err(Fault::Fail("invalid surrogate pair", q));
                                                    },
                                                }
                                            },
                                        }
                                    } else {
                                        return Err(Fault::Fail("unpaired high surrogate", p));
                                    }
                                } else {
                                    match char_from_u32(cp) {
                                        Some(x) => {
                                            proof {
                                                vstd::utf8::char_u32_cast(x, cp);
                                            }
                                            push_char(&mut acc, x);
                                            k = p + 1;
                                        },
                                        None => {
                                            return Err(Fault::Fail("invalid unicode escape", p));
                                        },
                                    }
                                }
                            },
                        }
                    } else {
                        return Err(Fault::Fail("invalid escape sequence", e));
                    }
                },
            }
        } else {
            push_char(&mut acc, ch);
            k = k + 1;
        }
    }
    Err(Fault::Fail("unterminated string", k))
}


fn digits_end_exec(c: &Vec<char>, i: usize) -> (r: usize)
    requires
        i <= c@.len(),
    ensures
        r == digits_end(c@, i as int),
        i <= r <= c@.len(),
{
    let mut p = i;
    while p < c.len()
        invariant
            i <= p <= c@.len(),
            digits_end(c@, p as int) == digits_end(c@, i as int),
        decreases c@.len() - p,
    {
        let ch = c[p];
        if '0' <= ch && ch <= '9' {
            p += 1;
        } else {
            return p;
        }
    }
    p
}

fn parse_number_exec(c: &Vec<char>, j: usize) -> (r: Result<(Json, usize), (&'static str, usize)>)
    requires
        j < c@.len(),
    ensures
        leaf_step(r, parse_number(c@, j as int)),
        r matches Ok((_, q)) ==> j < q <= c@.len(),
        r matches Err((_, q)) ==> q <= c@.len(),
{
    let n = c.len();
    let a = if c[j] == '-' {
        j + 1
    } else {
        j
    };
    let b = digits_end_exec(c, a);
    let has_dot = b < n && c[b] == '.';
    let d = if has_dot {
        digits_end_exec(c, b + 1)
    } else {
        b
    };
    let has_exp = d < n && (c[d] == 'e' || c[d] == 'E');
    let mut e2: usize = 0;
    let mut end = d;
    if has_exp {
        let e1 = d + 1;
        e2 = if e1 < n && (c[e1] == '+' || c[e1] == '-') {
            e1 + 1
        } else {
            e1
        };
        end = digits_end_exec(c, e2);
    }
    assert(a == num_int_start(c@, j as int));
    assert(b == num_int_end(c@, j as int));
    assert(has_dot == num_has_dot(c@, j as int));
    assert(d == num_frac_end(c@, j as int));
    assert(has_exp == num_has_exp(c@, j as int));
    assert(has_exp ==> e2 == num_exp_start(c@, j as int));
    assert(end == num_end(c@, j as int));
    let valid = (b > a || (has_dot && d > b + 1)) && (!has_exp || end > e2);
    if valid {
        let text = string_from_range(c, j, end);
        Ok((Json::Num(text), end))
    } else {
        Err(("invalid number literal", end))
    }
}

fn starts_with_exec(c: &Vec<char>, j: usize, w: &str) -> (r: bool)
    requires
        j <= c@.len(),
    ensures
        r == starts_with_at(c@, j as int, w@),
{
    let n = c.len();
    let wc = chars_of(w);
    if wc.len() > n - j {
        return false;
    }
    let mut k: usize = 0;
    while k < wc.len()
        invariant
            n == c@.len(),
            wc@ == w@,
            j + wc@.len() <= c@.len(),
            k <= wc@.len(),
            forall|m: int| 0 <= m < k ==> c@[j + m] == w@[m],
        decreases wc@.len() - k,
    {
        if c[j + k] != wc[k] {
            assert(c@.subrange(j as int, j + w@.len())[k as int] != w@[k as int]);
            return false;
        }
        k += 1;
    }
    assert(c@.subrange(j as int, j + w@.len()) =~= w@);
    true
}

fn parse_literal_exec(c: &Vec<char>, j: usize) -> (r: Result<(Json, usize), (&'static str, usize)>)
    requires
        j < c@.len(),
    ensures
        c@[j as int] == 't' || c@[j as int] == 'f' ==> leaf_step(r, parse_bool(c@, j as int)),
        c@[j as int] == 'n' ==> leaf_step(r, parse_null(c@, j as int)),
        r matches Ok((_, q)) ==> j < q <= c@.len(),
        r matches Err((_, q)) ==> q <= c@.len(),
{
    proof {
        reveal_strlit("true");
        reveal_strlit("false");
        reveal_strlit("null");
    }
    let n = c.len();
    if c[j] == 'n' {
        if starts_with_exec(c, j, "null") {
            return Ok((Json::Null, j + 4));
        }
        return Err(("invalid literal", j));
    }
    if starts_with_exec(c, j, "true") {
        Ok((Json::Bool(true), j + 4))
    } else if starts_with_exec(c, j, "false") {
        Ok((Json::Bool(false), j + 5))
    } else {
        Err(("invalid literal", j))
    }
}

fn parse_value_exec(c: &Vec<char>, i: usize) -> (r: Result<(Json, usize), Fault>)
    requires
        i <= c@.len(),
    ensures
        value_step(r, parse_value(c@, i as int)),
        r matches Ok((_, q)) ==> i < q <= c@.len(),
        r matches Err(Fault::Fail(_, q)) ==> q <= c@.len(),
    decreases c@.len() - i, 1nat,
{
    let j = skip_ws_exec(c, i);
    if j >= c.len() {
        return Err(Fault::Fail("unexpected end of input", j));
    }
    let ch = c[j];
    if ch == '{' {
        parse_object_exec(c, j)
    } else if ch == '[' {
        parse_array_exec(c, j)
    } else if ch == '"' {
        match parse_string_exec(c, j) {
            Ok((s, k)) => Ok((Json::Str(s), k)),
            Err(e) => Err(e),
        }
    } else if ch == 't' || ch == 'f' || ch == 'n' {
        match parse_literal_exec(c, j) {
            Ok(x) => Ok(x),
            Err((m, q)) => Err(Fault::Fail(m, q)),
        }
    } else if ch == '-' || ('0' <= ch && ch <= '9') {
        match parse_number_exec(c, j) {
            Ok(x) => Ok(x),
            Err((m, q)) => Err(Fault::Fail(m, q)),
        }
    } else {
        Err(Fault::Fail("unexpected character", j))
    }
}

fn parse_object_exec(c: &Vec<char>, j: usize) -> (r: Result<(Json, usize), Fault>)
    requires
        j < c@.len(),
        c@[j as int] == '{',
    ensures
        value_step(r, parse_object(c@, j as int)),
        r matches Ok((_, q)) ==> j < q <= c@.len(),
        r matches Err(Fault::Fail(_, q)) ==> q <= c@.len(),
    decreases c@.len() - j, 0nat,
{
    let n = c.len();
    let p0 = skip_ws_exec(c, j + 1);
    if p0 < n && c[p0] == '}' {
        let empty: Vec<(String, Json)> = Vec::new();
        assert(entries_view(empty@) =~= Seq::<(Seq<char>, JsonValue)>::empty());
        return Ok((Json::Obj(empty), p0 + 1));
    }
    let mut entries: Vec<(String, Json)> = Vec::new();
    let mut k = p0;
    assert(entries_view(entries@) =~= Seq::<(Seq<char>, JsonValue)>::empty());
    loop
        invariant
            n == c@.len(),
            j < k <= n,
            object_members(c@, k as int, entries_view(entries@)) == parse_object(c@, j as int),
        decreases n - k,
    {
        let p = skip_ws_exec(c, k);
        if !(p < n && c[p] == '"') {
            return Err(Fault::Fail("expected string key in object", p));
        }
        proof {
            lemma_string_body(c@, p + 1, seq![]);
        }
        let (key, q) = match parse_string_exec(c, p) {
            Ok(x) => x,
            Err(e) => {
                return Err(e);
            },
        };
        let r = skip_ws_exec(c, q);
        if !(r < n && c[r] == ':') {
            return Err(Fault::Fail("expected ':' after object key", r));
        }
        let (v, s) = match parse_value_exec(c, r + 1) {
            Ok(x) => x,
            Err(e) => {
                return Err(e);
            },
        };
        let t = skip_ws_exec(c, s);
        let ghost before = entries@;
        entries.push((key, v));
        proof {
            lemma_entries_view_push(before, (key, v));
        }
        if t < n && c[t] == ',' {
            k = t + 1;
        } else if t < n && c[t] == '}' {
            return Ok((Json::Obj(entries), t + 1));
        } else {
            return Err(Fault::Fail("expected ',' or '}' in object", t));
        }
    }
}

fn parse_array_exec(c: &Vec<char>, j: usize) -> (r: Result<(Json, usize), Fault>)
    requires
        j < c@.len(),
        c@[j as int] == '[',
    ensures
        value_step(r, parse_array(c@, j as int)),
        r matches Ok((_, q)) ==> j < q <= c@.len(),
        r matches Err(Fault::Fail(_, q)) ==> q <= c@.len(),
    decreases c@.len() - j, 0nat,
{
    let n = c.len();
    let p0 = skip_ws_exec(c, j + 1);
    if p0 < n && c[p0] == ']' {
        let empty: Vec<Json> = Vec::new();
        assert(items_view(empty@) =~= Seq::<JsonValue>::empty());
        return Ok((Json::Arr(empty), p0 + 1));
    }
    let mut items: Vec<Json> = Vec::new();
    let mut k = p0;
    assert(items_view(items@) =~= Seq::<JsonValue>::empty());
    loop
        invariant
            n == c@.len(),
            j < k <= n,
            array_items(c@, k as int, items_view(items@)) == parse_array(c@, j as int),
        decreases n - k,
    {
        let (v, q) = match parse_value_exec(c, k) {
            Ok(x) => x,
            Err(e) => {
                return Err(e);
            },
        };
        let t = skip_ws_exec(c, q);
        let ghost before = items@;
        items.push(v);
        proof {
            lemma_items_view_push(before, v);
        }
        if t < n && c[t] == ',' {
            k = t + 1;
        } else if t < n && c[t] == ']' {
            return Ok((Json::Arr(items), t + 1));
        } else {
            return Err(Fault::Fail("expected ',' or ']' in array", t));
        }
    }
}

fn byte_offset_exec(c: &Vec<char>, p: usize, total: usize) -> (r: usize)
    requires
        p <= c@.len(),
        utf8_len(c@) == total,
    ensures
        r == byte_offset(c@, p as int),
{
    let mut k: usize = 0;
    let mut b: usize = 0;
    assert(c@.take(0) =~= Seq::<char>::empty());
    while k < p
        invariant
            k <= p <= c@.len(),
            utf8_len(c@) == total,
            b == byte_offset(c@, k as int),
        decreases p - k,
    {
        proof {
            lemma_byte_offset_step(c@, k as int);
        }
        let v = c[k] as u32;
        let w: usize = if v < 0x80 {
            1
        } else if v < 0x800 {
            2
        } else if v < 0x10000 {
            3
        } else {
            4
        };
        b = b + w;
        k += 1;
    }
    b
}

/// Parses a JSON document from a string.
///
/// Whitespace and `//` line comments may surround values. On failure the error
/// names the problem and the byte position where it was detected. The parser
/// is not defined on a high-surrogate `\u` escape followed by a `\u` escape
/// below `DC00` (the combination overflows), which `requires` leaves out.
pub fn parse(input: &str) -> (r: Result<Json, JsonError>)
    requires
        !(parse_document(input@) is Abort),
    ensures
        match parse_document(input@) {
            Step::Done(v, _) => r matches Ok(j) && j@ == v,
            Step::Fail(m, p) => r matches Err(e) && e.message@ == m && e.position == byte_offset(
                input@,
                p,
            ),
            Step::Abort => false,
        },
{
    let c = chars_of(input);
    proof {
        lemma_utf8_len_encode(c@);
    }
    let total = input.as_bytes().len();
    match parse_value_exec(&c, 0) {
        Ok((v, q)) => {
            let p = skip_ws_exec(&c, q);
            if p != c.len() {
                Err(
                    JsonError {
                        message: "trailing characters after JSON document".to_owned(),
                        position: byte_offset_exec(&c, p, total),
                    },
                )
            } else {
                Ok(v)
            }
        },
        Err(Fault::Fail(m, q)) => Err(
            JsonError { message: m.to_owned(), position: byte_offset_exec(&c, q, total) },
        ),
        Err(Fault::Abort) => {
            proof {
                assert(false);
            }
            Err(JsonError { message: String::new(), position: 0 })
        },
    }
}

/// Whether parsing `input` reaches a high-surrogate `\u` escape followed by a
/// `\u` escape below `DC00`: the input on which [`parse`] is not defined.
pub fn parse_aborts(input: &str) -> (b: bool)
    ensures
        b == (parse_document(input@) is Abort),
{
    let c = chars_of(input);
    match parse_value_exec(&c, 0) {
        Err(Fault::Abort) => true,
        _ => false,
    }
}

/// The value stored under the first entry with key `key`, for an object.
pub open spec fn entries_get(es: Seq<(Seq<char>, JsonValue)>, key: Seq<char>) -> Option<JsonValue>
    decreases es.len(),
{
    if es.len() == 0 {
        None
    } else if es[0].0 == key {
        Some(es[0].1)
    } else {
        entries_get(es.drop_first(), key)
    }
}

/// The value under `key` when `v` is an object; `None` otherwise.
pub open spec fn value_get(v: JsonValue, key: Seq<char>) -> Option<JsonValue> {
    match v {
        JsonValue::Obj(es) => entries_get(es, key),
        _ => None,
    }
}

/// The view of an optional reference to a value.
pub open spec fn opt_view(r: Option<&Json>) -> Option<JsonValue> {
    match r {
        Some(j) => Some(j@),
        None => None,
    }
}

impl Json {
    /// The string content of a string value.
    pub fn as_str(&self) -> (r: Option<&str>)
        ensures
            match self@ {
                JsonValue::Str(s) => r matches Some(x) && x@ == s,
                _ => r is None,
            },
    {
        match self {
            Json::Str(s) => Some(s.as_str()),
            _ => None,
        }
    }

    /// The value of a boolean.
    pub fn as_bool(&self) -> (r: Option<bool>)
        ensures
            match self@ {
                JsonValue::Bool(b) => r == Some(b),
                _ => r is None,
            },
    {
        match self {
            Json::Bool(b) => Some(*b),
            _ => None,
        }
    }

    /// The items of an array.
    pub fn as_array(&self) -> (r: Option<&[Json]>)
        ensures
            match self {
                Json::Arr(items) => r matches Some(a) && a@ == items@,
                _ => r is None,
            },
            match self@ {
                JsonValue::Arr(items) => r matches Some(a) && items_view(a@) == items,
                _ => r is None,
            },
    {
        match self {
            Json::Arr(v) => Some(v.as_slice()),
            _ => None,
        }
    }

    /// Looks up a key in an object value: the value of the first entry with
    /// that key, or `None` for a missing key or a value that is not an object.
    pub fn get(&self, key: &str) -> (r: Option<&Json>)
        ensures
            opt_view(r) == value_get(self@, key@),
    {
        match self {
            Json::Obj(entries) => {
                let mut i: usize = 0;
                proof {
                    lemma_entries_view_index(entries@);
                }
                let ghost es = entries_view(entries@);
                assert(es.skip(0) =~= es);
                assert(self@ == JsonValue::Obj(es));
                while i < entries.len()
                    invariant
                        i <= entries@.len(),
                        es == entries_view(entries@),
                        es.len() == entries@.len(),
                        forall|k: int|
                            0 <= k < entries@.len() ==> #[trigger] es[k] == (
                                entries@[k].0@,
                                json_view(entries@[k].1),
                            ),
                        entries_get(es, key@) == entries_get(es.skip(i as int), key@),
                        self@ == JsonValue::Obj(es),
                    decreases entries@.len() - i,
                {
                    let ghost rest = es.skip(i as int);
                    assert(rest[0] == es[i as int]);
                    if crate::text::str_eq(entries[i].0.as_str(), key) {
                        return Some(&entries[i].1);
                    }
                    assert(rest.drop_first() =~= es.skip(i + 1));
                    i += 1;
                }
                None
            },
            _ => None,
        }
    }
}

/// Four lowercase hex digits of a value below `0x10000`.
pub open spec fn hex4_lower(v: nat) -> Seq<char> {
    seq![lower_hex_digit(v / 4096), lower_hex_digit((v / 256) % 16), lower_hex_digit((v / 16) % 16), lower_hex_digit(v % 16)]
}

/// The lowercase hex digit for a value below sixteen.
pub open spec fn lower_hex_digit(d: nat) -> char {
    if d < 10 {
        ((d + 48) as u32) as char
    } else {
        ((d + 87) as u32) as char
    }
}

/// The escaped form of one character inside a string literal.
pub open spec fn escape_char(ch: char) -> Seq<char> {
    if ch == '"' {
        seq!['\\', '"']
    } else if ch == '\\' {
        seq!['\\', '\\']
    } else if ch == '\n' {
        seq!['\\', 'n']
    } else if ch == '\r' {
        seq!['\\', 'r']
    } else if ch == '\t' {
        seq!['\\', 't']
    } else if (ch as u32) < 0x20 {
        seq!['\\', 'u'] + hex4_lower((ch as u32) as nat)
    } else {
        seq![ch]
    }
}

/// The escaped characters of `s`, without quotes.
pub open spec fn escape_chars(s: Seq<char>) -> Seq<char>
    decreases s.len(),
{
    if s.len() == 0 {
        seq![]
    } else {
        escape_chars(s.drop_last()) + escape_char(s.last())
    }
}

/// A string literal for `s`.
pub open spec fn quoted(s: Seq<char>) -> Seq<char> {
    seq!['"'] + escape_chars(s) + seq!['"']
}

/// The single-line serialization of a value.
pub open spec fn compact_text(v: JsonValue) -> Seq<char>
    decreases v,
{
    match v {
        JsonValue::Null => "null"@,
        JsonValue::Bool(b) => if b {
            "true"@
        } else {
            "false"@
        },
        JsonValue::Num(t) => t,
        JsonValue::Str(s) => quoted(s),
        JsonValue::Arr(items) => seq!['['] + compact_items(items) + seq![']'],
        JsonValue::Obj(es) => seq!['{'] + compact_entries(es) + seq!['}'],
    }
}

/// Comma-separated serializations of `items`.
pub open spec fn compact_items(items: Seq<JsonValue>) -> Seq<char>
    decreases items,
{
    if items.len() == 0 {
        seq![]
    } else if items.len() == 1 {
        compact_text(items[0])
    } else {
        compact_items(items.drop_last()) + seq![','] + compact_text(items.last())
    }
}

/// Comma-separated `"key":value` serializations of `es`.
pub open spec fn compact_entries(es: Seq<(Seq<char>, JsonValue)>) -> Seq<char>
    decreases es,
{
    if es.len() == 0 {
        seq![]
    } else {
        let e = es.last();
        let one = quoted(e.0) + seq![':'] + compact_text(e.1);
        if es.len() == 1 {
            one
        } else {
            compact_entries(es.drop_last()) + seq![','] + one
        }
    }
}

/// The nesting depth of a value: zero for scalars, one more than the deepest
/// item for arrays and objects.
pub open spec fn depth(v: JsonValue) -> nat
    decreases v,
{
    match v {
        JsonValue::Arr(items) => 1 + items_depth(items),
        JsonValue::Obj(es) => 1 + entries_depth(es),
        _ => 0,
    }
}

/// The greatest depth among `items`.
pub open spec fn items_depth(items: Seq<JsonValue>) -> nat
    decreases items,
{
    if items.len() == 0 {
        0
    } else {
        let a = items_depth(items.drop_last());
        let b = depth(items.last());
        if a > b {
            a
        } else {
            b
        }
    }
}

/// The greatest depth among the values of `es`.
pub open spec fn entries_depth(es: Seq<(Seq<char>, JsonValue)>) -> nat
    decreases es,
{
    if es.len() == 0 {
        0
    } else {
        let a = entries_depth(es.drop_last());
        let b = depth(es.last().1);
        if a > b {
            a
        } else {
            b
        }
    }
}

pub proof fn lemma_items_depth(items: Seq<JsonValue>)
    ensures
        forall|k: int| 0 <= k < items.len() ==> depth(#[trigger] items[k]) <= items_depth(items),
    decreases items.len(),
{
    if items.len() > 0 {
        lemma_items_depth(items.drop_last());
        assert forall|k: int| 0 <= k < items.len() implies depth(#[trigger] items[k]) <= items_depth(items) by {
            if k < items.len() - 1 {
                assert(items[k] == items.drop_last()[k]);
            }
        }
    }
}

pub proof fn lemma_entries_depth(es: Seq<(Seq<char>, JsonValue)>)
    ensures
        forall|k: int| 0 <= k < es.len() ==> depth(#[trigger] es[k].1) <= entries_depth(es),
    decreases es.len(),
{
    if es.len() > 0 {
        lemma_entries_depth(es.drop_last());
        assert forall|k: int| 0 <= k < es.len() implies depth(#[trigger] es[k].1) <= entries_depth(es) by {
            if k < es.len() - 1 {
                assert(es[k] == es.drop_last()[k]);
            }
        }
    }
}

/// Two spaces per indentation level.
pub open spec fn indent(n: nat) -> Seq<char>
    decreases n,
{
    if n == 0 {
        seq![]
    } else {
        indent((n - 1) as nat) + seq![' ', ' ']
    }
}

/// The serialization with 2-space indentation, at indentation level `ind`:
/// non-empty arrays and objects put one item per line; everything else is
/// written as in [`compact_text`].
pub open spec fn pretty_text(v: JsonValue, ind: nat) -> Seq<char>
    decreases v,
{
    match v {
        JsonValue::Arr(items) => if items.len() > 0 {
            seq!['[', '\n'] + pretty_items(items, ind, items.len()) + indent(ind) + seq![']']
        } else {
            compact_text(v)
        },
        JsonValue::Obj(es) => if es.len() > 0 {
            seq!['{', '\n'] + pretty_entries(es, ind, es.len()) + indent(ind) + seq!['}']
        } else {
            compact_text(v)
        },
        _ => compact_text(v),
    }
}

/// The lines of the first `items.len()` of `total` array items.
pub open spec fn pretty_items(items: Seq<JsonValue>, ind: nat, total: nat) -> Seq<char>
    decreases items,
{
    if items.len() == 0 {
        seq![]
    } else {
        pretty_items(items.drop_last(), ind, total) + indent(ind + 1) + pretty_text(
            items.last(),
            ind + 1,
        ) + (if items.len() < total {
            seq![',']
        } else {
            Seq::<char>::empty()
        }) + seq!['\n']
    }
}

/// The lines of the first `es.len()` of `total` object entries.
pub open spec fn pretty_entries(es: Seq<(Seq<char>, JsonValue)>, ind: nat, total: nat) -> Seq<char>
    decreases es,
{
    if es.len() == 0 {
        seq![]
    } else {
        let e = es.last();
        pretty_entries(es.drop_last(), ind, total) + indent(ind + 1) + quoted(e.0) + seq![
            ':',
            ' ',
        ] + pretty_text(e.1, ind + 1) + (if es.len() < total {
            seq![',']
        } else {
            Seq::<char>::empty()
        }) + seq!['\n']
    }
}

fn lower_hex_digit_exec(d: u32) -> (ch: char)
    requires
        d < 16,
    ensures
        ch == lower_hex_digit(d as nat),
{
    if d < 10 {
        ((d + 48) as u8) as char
    } else {
        ((d + 87) as u8) as char
    }
}

fn push_escaped(out: &mut String, ch: char)
    ensures
        final(out)@ == old(out)@ + escape_char(ch),
{
    let ghost before = out@;
    if ch == '"' {
        push_char(out, '\\');
        push_char(out, '"');
    } else if ch == '\\' {
        push_char(out, '\\');
        push_char(out, '\\');
    } else if ch == '\n' {
        push_char(out, '\\');
        push_char(out, 'n');
    } else if ch == '\r' {
        push_char(out, '\\');
        push_char(out, 'r');
    } else if ch == '\t' {
        push_char(out, '\\');
        push_char(out, 't');
    } else if (ch as u32) < 0x20 {
        let v = ch as u32;
        push_char(out, '\\');
        push_char(out, 'u');
        push_char(out, lower_hex_digit_exec(v / 4096));
        push_char(out, lower_hex_digit_exec((v / 256) % 16));
        push_char(out, lower_hex_digit_exec((v / 16) % 16));
        push_char(out, lower_hex_digit_exec(v % 16));
        assert(out@ =~= before + seq!['\\', 'u'] + hex4_lower((ch as u32) as nat));
    } else {
        push_char(out, ch);
    }
    assert(out@ =~= before + escape_char(ch));
}

/// Appends the escaped form of `s` in quotes.
pub fn write_string(out: &mut String, s: &str)
    ensures
        final(out)@ == old(out)@ + quoted(s@),
{
    let c = chars_of(s);
    let ghost start = out@;
    push_char(out, '"');
    let mut i: usize = 0;
    while i < c.len()
        invariant
            i <= c@.len(),
            c@ == s@,
            out@ == start + seq!['"'] + escape_chars(c@.take(i as int)),
        decreases c@.len() - i,
    {
        let ch = c[i];
        let ghost before = out@;
        push_escaped(out, ch);
        assert(out@ =~= before + escape_char(ch));
        assert(c@.take(i + 1).drop_last() =~= c@.take(i as int));
        i += 1;
    }
    assert(c@.take(i as int) =~= c@);
    push_char(out, '"');
    assert(out@ =~= start + quoted(s@));
}

fn push_indent(out: &mut String, n: usize)
    ensures
        final(out)@ == old(out)@ + indent(n as nat),
{
    let mut k: usize = 0;
    while k < n
        invariant
            k <= n,
            out@ == old(out)@ + indent(k as nat),
        decreases n - k,
    {
        push_char(out, ' ');
        push_char(out, ' ');
        k += 1;
        assert(out@ =~= old(out)@ + indent(k as nat));
    }
}

impl Json {
    /// Serializes with 2-space indentation.
    pub fn to_pretty(&self) -> (s: String)
        requires
            depth(self@) < usize::MAX,
        ensures
            s@ == pretty_text(self@, 0),
    {
        let mut out = String::new();
        self.write_pretty(&mut out, 0);
        assert(out@ =~= pretty_text(self@, 0));
        out
    }

    /// Serializes compactly (single line).
    pub fn to_compact(&self) -> (s: String)
        ensures
            s@ == compact_text(self@),
    {
        let mut out = String::new();
        self.write_compact(&mut out);
        assert(out@ =~= compact_text(self@));
        out
    }

    fn write_compact(&self, out: &mut String)
        ensures
            final(out)@ == old(out)@ + compact_text(self@),
        decreases self,
    {
        let ghost start = out@;
        match self {
            Json::Null => push_str(out, "null"),
            Json::Bool(b) => push_str(out, if *b {
                "true"
            } else {
                "false"
            }),
            Json::Num(t) => push_str(out, t.as_str()),
            Json::Str(s) => write_string(out, s.as_str()),
            Json::Arr(items) => {
                proof {
                    lemma_items_view_index(items@);
                }
                let ghost iv = items_view(items@);
                assert(decreases_to!(*self => *items));
                assert(decreases_to!(*items => items@));
                push_char(out, '[');
                let mut i: usize = 0;
                while i < items.len()
                    invariant
                        i <= items@.len(),
                        iv == items_view(items@),
                        decreases_to!(*self => *items),
                        decreases_to!(*items => items@),
                        iv.len() == items@.len(),
                        forall|k: int| 0 <= k < items@.len() ==> #[trigger] iv[k] == json_view(items@[k]),
                        out@ == start + seq!['['] + compact_items(iv.take(i as int)),
                    decreases items@.len() - i,
                {
                    if i > 0 {
                        push_char(out, ',');
                    }
                    proof {
                        assert(decreases_to!(items@ => items@[i as int]));
                    }
                    items[i].write_compact(out);
                    assert(iv.take(i + 1).drop_last() =~= iv.take(i as int));
                    assert(iv.take(i + 1).last() == iv[i as int]);
                    assert(i == 0 ==> iv.take(i + 1) =~= seq![iv[i as int]]);
                    assert(i == 0 ==> iv.take(i as int) =~= Seq::<JsonValue>::empty());
                    i += 1;
                }
                push_char(out, ']');
                assert(iv.take(i as int) =~= iv);
            },
            Json::Obj(entries) => {
                proof {
                    lemma_entries_view_index(entries@);
                }
                let ghost ev = entries_view(entries@);
                assert(decreases_to!(*self => *entries));
                assert(decreases_to!(*entries => entries@));
                push_char(out, '{');
                let mut i: usize = 0;
                while i < entries.len()
                    invariant
                        i <= entries@.len(),
                        ev == entries_view(entries@),
                        decreases_to!(*self => *entries),
                        decreases_to!(*entries => entries@),
                        ev.len() == entries@.len(),
                        forall|k: int|
                            0 <= k < entries@.len() ==> #[trigger] ev[k] == (
                                entries@[k].0@,
                                json_view(entries@[k].1),
                            ),
                        out@ == start + seq!['{'] + compact_entries(ev.take(i as int)),
                    decreases entries@.len() - i,
                {
                    if i > 0 {
                        push_char(out, ',');
                    }
                    write_string(out, entries[i].0.as_str());
                    push_char(out, ':');
                    proof {
                        assert(decreases_to!(entries@ => entries@[i as int]));
                        assert(decreases_to!(entries@[i as int] => entries@[i as int].1));
                    }
                    entries[i].1.write_compact(out);
                    assert(ev.take(i + 1).drop_last() =~= ev.take(i as int));
                    assert(ev.take(i + 1).last() == ev[i as int]);
                    assert(i == 0 ==> ev.take(i as int) =~= Seq::<(Seq<char>, JsonValue)>::empty());
                    i += 1;
                }
                push_char(out, '}');
                assert(ev.take(i as int) =~= ev);
            },
        }
        proof {
            reveal_strlit("null");
            reveal_strlit("true");
            reveal_strlit("false");
        }
        assert(out@ =~= start + compact_text(self@));
    }

    #[verifier::rlimit(40)]
    fn write_pretty(&self, out: &mut String, ind: usize)
        requires
            ind + depth(self@) < usize::MAX,
        ensures
            final(out)@ == old(out)@ + pretty_text(self@, ind as nat),
        decreases self,
    {
        let ghost start = out@;
        match self {
            Json::Arr(items) => {
                if items.len() == 0 {
                    self.write_compact(out);
                    return;
                }
                proof {
                    lemma_items_view_index(items@);
                    lemma_items_depth(items_view(items@));
                }
                let ghost iv = items_view(items@);
                assert(decreases_to!(*self => *items));
                assert(decreases_to!(*items => items@));
                push_char(out, '[');
                push_char(out, '\n');
                let n = items.len();
                let mut i: usize = 0;
                while i < n
                    invariant
                        n == items@.len(),
                        ind + 1 + items_depth(iv) < usize::MAX,
                        i <= n,
                        iv == items_view(items@),
                        decreases_to!(*self => *items),
                        decreases_to!(*items => items@),
                        iv.len() == n,
                        forall|k: int| 0 <= k < n ==> #[trigger] iv[k] == json_view(items@[k]),
                        out@ == start + seq!['[', '\n'] + pretty_items(iv.take(i as int), ind as nat, n as nat),
                    decreases n - i,
                {
                    push_indent(out, ind + 1);
                    proof {
                        assert(decreases_to!(items@ => items@[i as int]));
                        lemma_items_depth(iv);
                        assert(depth(iv[i as int]) <= items_depth(iv));
                    }
                    items[i].write_pretty(out, ind + 1);
                    if i + 1 < n {
                        push_char(out, ',');
                    }
                    push_char(out, '\n');
                    assert(iv.take(i + 1).drop_last() =~= iv.take(i as int));
                    assert(iv.take(i + 1).last() == iv[i as int]);
                    i += 1;
                }
                push_indent(out, ind);
                push_char(out, ']');
                assert(iv.take(i as int) =~= iv);
            },
            Json::Obj(entries) => {
                if entries.len() == 0 {
                    self.write_compact(out);
                    return;
                }
                proof {
                    lemma_entries_view_index(entries@);
                    lemma_entries_depth(entries_view(entries@));
                }
                let ghost ev = entries_view(entries@);
                assert(decreases_to!(*self => *entries));
                assert(decreases_to!(*entries => entries@));
                push_char(out, '{');
                push_char(out, '\n');
                let n = entries.len();
                let mut i: usize = 0;
                while i < n
                    invariant
                        n == entries@.len(),
                        ind + 1 + entries_depth(ev) < usize::MAX,
                        i <= n,
                        ev == entries_view(entries@),
                        decreases_to!(*self => *entries),
                        decreases_to!(*entries => entries@),
                        ev.len() == n,
                        forall|k: int|
                            0 <= k < n ==> #[trigger] ev[k] == (
                                entries@[k].0@,
                                json_view(entries@[k].1),
                            ),
                        out@ == start + seq!['{', '\n'] + pretty_entries(ev.take(i as int), ind as nat, n as nat),
                    decreases n - i,
                {
                    push_indent(out, ind + 1);
                    write_string(out, entries[i].0.as_str());
                    push_char(out, ':');
                    push_char(out, ' ');
                    proof {
                        assert(decreases_to!(entries@ => entries@[i as int]));
                        assert(decreases_to!(entries@[i as int] => entries@[i as int].1));
                        lemma_entries_depth(ev);
                        assert(depth(ev[i as int].1) <= entries_depth(ev));
                    }
                    entries[i].1.write_pretty(out, ind + 1);
                    if i + 1 < n {
                        push_char(out, ',');
                    }
                    push_char(out, '\n');
                    assert(ev.take(i + 1).drop_last() =~= ev.take(i as int));
                    assert(ev.take(i + 1).last() == ev[i as int]);
                    i += 1;
                }
                push_indent(out, ind);
                push_char(out, '}');
                assert(ev.take(i as int) =~= ev);
            },
            _ => {
                self.write_compact(out);
            },
        }
    }
}

/// The index of the first entry with key `key`.
pub open spec fn key_index(es: Seq<(Seq<char>, JsonValue)>, key: Seq<char>) -> Option<int>
    decreases es.len(),
{
    if es.len() == 0 {
        None
    } else if es.last().0 == key {
        match key_index(es.drop_last(), key) {
            Some(i) => Some(i),
            None => Some(es.len() - 1),
        }
    } else {
        key_index(es.drop_last(), key)
    }
}

/// No two entries share a key.
pub open spec fn keys_distinct(es: Seq<(Seq<char>, JsonValue)>) -> bool {
    forall|i: int, j: int| 0 <= i < j < es.len() ==> #[trigger] es[i].0 != #[trigger] es[j].0
}

/// The entries after setting `key` to `value`: an existing entry keeps its
/// position and takes the new value; a new key is appended.
pub open spec fn builder_set(
    es: Seq<(Seq<char>, JsonValue)>,
    key: Seq<char>,
    value: JsonValue,
) -> Seq<(Seq<char>, JsonValue)> {
    match key_index(es, key) {
        Some(i) => es.update(i, (key, value)),
        None => es.push((key, value)),
    }
}

pub proof fn lemma_key_index(es: Seq<(Seq<char>, JsonValue)>, key: Seq<char>)
    ensures
        match key_index(es, key) {
            Some(i) => 0 <= i < es.len() && es[i].0 == key && forall|k: int|
                0 <= k < i ==> #[trigger] es[k].0 != key,
            None => forall|k: int| 0 <= k < es.len() ==> #[trigger] es[k].0 != key,
        },
    decreases es.len(),
{
    if es.len() > 0 {
        lemma_key_index(es.drop_last(), key);
        assert forall|k: int| 0 <= k < es.len() - 1 implies #[trigger] es[k] == es.drop_last()[k] by {}
    }
}

pub proof fn lemma_entries_get_index(es: Seq<(Seq<char>, JsonValue)>, key: Seq<char>)
    ensures
        entries_get(es, key) == match key_index(es, key) {
            Some(i) => Some(es[i].1),
            None => None::<JsonValue>,
        },
    decreases es.len(),
{
    lemma_key_index(es, key);
    if es.len() > 0 {
        lemma_entries_get_index(es.drop_first(), key);
        lemma_key_index(es.drop_first(), key);
        if es[0].0 != key {
            match key_index(es, key) {
                Some(i) => {
                    assert(es.drop_first()[i - 1] == es[i]);
                    assert(key_index(es.drop_first(), key) == Some(i - 1));
                },
                None => {
                    assert(forall|k: int| 0 <= k < es.drop_first().len() ==> es.drop_first()[k] == es[k + 1]);
                    assert(key_index(es.drop_first(), key) is None);
                },
            }
        }
    }
}

/// Law: after setting a key, reading it gives the value just written, and
/// every other key reads as before; keys stay distinct.
pub proof fn lemma_builder_set_get(
    es: Seq<(Seq<char>, JsonValue)>,
    key: Seq<char>,
    value: JsonValue,
    other: Seq<char>,
)
    requires
        keys_distinct(es),
    ensures
        keys_distinct(builder_set(es, key, value)),
        entries_get(builder_set(es, key, value), key) == Some(value),
        other != key ==> entries_get(builder_set(es, key, value), other) == entries_get(es, other),
{
    let r = builder_set(es, key, value);
    lemma_key_index(es, key);
    lemma_key_index(r, key);
    lemma_key_index(es, other);
    lemma_key_index(r, other);
    lemma_entries_get_index(r, key);
    lemma_entries_get_index(es, other);
    lemma_entries_get_index(r, other);
    assert forall|i: int, j: int| 0 <= i < j < r.len() implies #[trigger] r[i].0 != #[trigger] r[j].0 by {
        if j == es.len() {
        }
    }
    match key_index(r, key) {
        Some(i) => {
            match key_index(es, key) {
                Some(i0) => {
                    assert(i == i0);
                },
                None => {
                    assert(i == es.len());
                },
            }
        },
        None => {
            match key_index(es, key) {
                Some(i0) => {
                    assert(r[i0].0 == key);
                },
                None => {
                    assert(r[es.len() as int].0 == key);
                },
            }
        },
    }
    if other != key {
        match key_index(es, other) {
            Some(i0) => {
                assert(r[i0].0 == other);
                assert(key_index(r, other) == Some(i0));
            },
            None => {
                assert(key_index(r, other) is None);
            },
        }
    }
}

/// An ordered object builder: later writes to a key replace the earlier value
/// in place, so keys stay unique and in first-insertion order.
pub struct ObjBuilder {
    entries: Vec<(String, Json)>,
}

impl View for ObjBuilder {
    type V = Seq<(Seq<char>, JsonValue)>;

    closed spec fn view(&self) -> Seq<(Seq<char>, JsonValue)> {
        entries_view(self.entries@)
    }
}

impl ObjBuilder {
    #[verifier::type_invariant]
    closed spec fn unique_keys(self) -> bool {
        keys_distinct(entries_view(self.entries@))
    }

    /// An empty builder.
    pub fn new() -> (b: Self)
        ensures
            b@ == Seq::<(Seq<char>, JsonValue)>::empty(),
    {
        let b = ObjBuilder { entries: Vec::new() };
        assert(entries_view(b.entries@) =~= Seq::<(Seq<char>, JsonValue)>::empty());
        b
    }

    /// Sets `key` to `value`, replacing the value of an existing entry in place
    /// or appending a new entry.
    pub fn set(self, key: &str, value: Json) -> (b: Self)
        ensures
            b@ == builder_set(self@, key@, value@),
            keys_distinct(b@),
    {
        proof {
            use_type_invariant(&self);
            lemma_entries_view_index(self.entries@);
            lemma_key_index(self@, key@);
        }
        let ghost es = self@;
        let mut i: usize = 0;
        while i < self.entries.len()
            invariant
                i <= self.entries@.len(),
                es == entries_view(self.entries@),
                es.len() == self.entries@.len(),
                forall|k: int|
                    0 <= k < self.entries@.len() ==> #[trigger] es[k] == (
                        self.entries@[k].0@,
                        json_view(self.entries@[k].1),
                    ),
                forall|k: int| 0 <= k < i ==> #[trigger] es[k].0 != key@,
                keys_distinct(es),
            decreases self.entries@.len() - i,
        {
            if crate::text::str_eq(self.entries[i].0.as_str(), key) {
                proof {
                    lemma_builder_set_get(es, key@, value@, key@);
                    assert(key_index(es, key@) == Some(i as int)) by {
                        lemma_key_index(es, key@);
                        match key_index(es, key@) {
                            Some(j) => {
                                if j < i {
                                    assert(es[j].0 != key@);
                                } else if j > i {
                                    assert(es[i as int].0 == key@);
                                }
                            },
                            None => {
                                assert(es[i as int].0 == key@);
                            },
                        }
                    }
                }
                let k = self.entries[i].0.clone();
                let mut entries = self.entries;
                entries[i] = (k, value);
                proof {
                    lemma_entries_view_index(entries@);
                    assert(entries_view(entries@) =~= es.update(i as int, (key@, value@)));
                }
                return ObjBuilder { entries };
            }
            i += 1;
        }
        proof {
            lemma_builder_set_get(es, key@, value@, key@);
            assert(key_index(es, key@) is None) by {
                lemma_key_index(es, key@);
                match key_index(es, key@) {
                    Some(j) => {
                        assert(es[j].0 != key@);
                    },
                    None => {},
                }
            }
        }
        let mut entries = self.entries;
        let ghost before = entries@;
        let entry = (key.to_owned(), value);
        let ghost e = entry;
        entries.push(entry);
        proof {
            lemma_entries_view_push(before, e);
        }
        ObjBuilder { entries }
    }

    /// The object value built so far.
    pub fn build(self) -> (j: Json)
        ensures
            j@ == JsonValue::Obj(self@),
    {
        Json::Obj(self.entries)
    }
}

impl Default for ObjBuilder {
    fn default() -> (b: Self)
        ensures
            b@ == Seq::<(Seq<char>, JsonValue)>::empty(),
    {
        ObjBuilder::new()
    }
}

impl Json {
    /// A structurally equal copy.
    pub fn deep_copy(&self) -> (res: Json)
        ensures
            res@ == self@,
        decreases self,
    {
        match self {
            Json::Null => Json::Null,
            Json::Bool(b) => Json::Bool(*b),
            Json::Num(t) => Json::Num(t.clone()),
            Json::Str(s) => Json::Str(s.clone()),
            Json::Arr(items) => {
                proof {
                    lemma_items_view_index(items@);
                }
                assert(decreases_to!(*self => *items));
                assert(decreases_to!(*items => items@));
                let mut out: Vec<Json> = Vec::new();
                let mut i: usize = 0;
                while i < items.len()
                    invariant
                        i <= items@.len(),
                        decreases_to!(*self => *items),
                        decreases_to!(*items => items@),
                        items_view(items@).len() == items@.len(),
                        forall|k: int|
                            0 <= k < items@.len() ==> #[trigger] items_view(items@)[k] == json_view(
                                items@[k],
                            ),
                        items_view(out@) == items_view(items@).take(i as int),
                    decreases items@.len() - i,
                {
                    proof {
                        assert(decreases_to!(items@ => items@[i as int]));
                    }
                    let x = items[i].deep_copy();
                    let ghost before = out@;
                    out.push(x);
                    proof {
                        lemma_items_view_push(before, x);
                    }
                    assert(items_view(items@).take(i + 1) =~= items_view(items@).take(i as int).push(
                        json_view(items@[i as int]),
                    ));
                    i += 1;
                }
                assert(items_view(items@).take(i as int) =~= items_view(items@));
                Json::Arr(out)
            },
            Json::Obj(entries) => {
                proof {
                    lemma_entries_view_index(entries@);
                }
                assert(decreases_to!(*self => *entries));
                assert(decreases_to!(*entries => entries@));
                let mut out: Vec<(String, Json)> = Vec::new();
                let mut i: usize = 0;
                while i < entries.len()
                    invariant
                        i <= entries@.len(),
                        decreases_to!(*self => *entries),
                        decreases_to!(*entries => entries@),
                        entries_view(entries@).len() == entries@.len(),
                        forall|k: int|
                            0 <= k < entries@.len() ==> #[trigger] entries_view(entries@)[k] == (
                                entries@[k].0@,
                                json_view(entries@[k].1),
                            ),
                        entries_view(out@) == entries_view(entries@).take(i as int),
                    decreases entries@.len() - i,
                {
                    proof {
                        assert(decreases_to!(entries@ => entries@[i as int]));
                        assert(decreases_to!(entries@[i as int] => entries@[i as int].1));
                    }
                    let x = (entries[i].0.clone(), entries[i].1.deep_copy());
                    let ghost before = out@;
                    let ghost xg = x;
                    out.push(x);
                    proof {
                        lemma_entries_view_push(before, xg);
                    }
                    assert(entries_view(entries@).take(i + 1) =~= entries_view(entries@).take(
                        i as int,
                    ).push((entries@[i as int].0@, json_view(entries@[i as int].1))));
                    i += 1;
                }
                assert(entries_view(entries@).take(i as int) =~= entries_view(entries@));
                Json::Obj(out)
            },
        }
    }
}

impl Clone for Json {
    fn clone(&self) -> (res: Self)
        ensures
            res@ == self@,
    {
        self.deep_copy()
    }
}

} // verus!
