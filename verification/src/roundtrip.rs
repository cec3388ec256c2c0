//! The serializer and the parser agree: parsing the compact text of a value
//! gives the value back.

use vstd::prelude::*;

use crate::json::{
    array_items, compact_entries, compact_items, compact_text, digits_end, escape_char,
    escape_chars, hex4, hex4_lower, hex_digits, hex_val, is_digit, is_ws, lower_hex_digit, num_end,
    num_exp_start, num_frac_end, num_has_dot, num_has_exp, num_int_end, num_int_start, num_valid,
    object_members, parse_bool, parse_document, parse_null, parse_number, parse_string,
    parse_value, quoted, simple_escape, skip_ws, starts_with_at, string_body, JsonValue, Step,
    indent, pretty_text, pretty_items, pretty_entries, parse_array, parse_object,
};

verus! {

/// A number literal read whole: it starts with a minus sign or a digit and
/// the number scanner reaches its end.
pub open spec fn number_literal(t: Seq<char>) -> bool {
    &&& t.len() > 0
    &&& (t[0] == '-' || is_digit(t[0]))
    &&& num_valid(t, 0)
    &&& num_end(t, 0) == t.len()
}

/// Position `p` ends a value inside `c`: the end of input, a comma, a closing
/// bracket or brace, or whitespace.
pub open spec fn delimiter_at(c: Seq<char>, p: int) -> bool {
    p == c.len() || (0 <= p < c.len() && (c[p] == ',' || c[p] == ']' || c[p] == '}' || is_ws(
        c[p],
    )))
}

proof fn lemma_digits_end_shift(c: Seq<char>, i: int, t: Seq<char>, k: int)
    requires
        0 <= i,
        i + t.len() <= c.len(),
        c.subrange(i, i + t.len()) == t,
        delimiter_at(c, i + t.len()),
        0 <= k <= t.len(),
    ensures
        digits_end(c, i + k) == i + digits_end(t, k),
    decreases t.len() - k,
{
    if k < t.len() {
        assert(c[i + k] == t[k]) by {
            assert(c.subrange(i, i + t.len())[k] == c[i + k]);
        }
        if is_digit(t[k]) {
            lemma_digits_end_shift(c, i, t, k + 1);
        }
    }
}

proof fn lemma_char_at(c: Seq<char>, i: int, t: Seq<char>, k: int)
    requires
        0 <= i,
        i + t.len() <= c.len(),
        c.subrange(i, i + t.len()) == t,
        0 <= k < t.len(),
    ensures
        c[i + k] == t[k],
{
    assert(c.subrange(i, i + t.len())[k] == c[i + k]);
}

/// A number literal embedded in `c` at `i`, followed by a delimiter, is read
/// back whole.
pub proof fn lemma_number_at(c: Seq<char>, i: int, t: Seq<char>)
    requires
        number_literal(t),
        0 <= i,
        i + t.len() <= c.len(),
        c.subrange(i, i + t.len()) == t,
        delimiter_at(c, i + t.len()),
    ensures
        parse_number(c, i) == Step::Done(JsonValue::Num(t), i + t.len()),
{
    let n = t.len() as int;
    lemma_char_at(c, i, t, 0);
    let a_t = num_int_start(t, 0);
    assert(num_int_start(c, i) == i + a_t);
    lemma_digits_end_shift(c, i, t, a_t);
    let b_t = num_int_end(t, 0);
    assert(num_int_end(c, i) == i + b_t);
    crate::json::lemma_digits_end(t, a_t);
    if b_t < n {
        lemma_char_at(c, i, t, b_t);
    }
    assert(num_has_dot(c, i) == num_has_dot(t, 0));
    if num_has_dot(t, 0) {
        lemma_digits_end_shift(c, i, t, b_t + 1);
    }
    let d_t = num_frac_end(t, 0);
    assert(num_frac_end(c, i) == i + d_t);
    if num_has_dot(t, 0) {
        crate::json::lemma_digits_end(t, b_t + 1);
    }
    if d_t < n {
        lemma_char_at(c, i, t, d_t);
    }
    assert(num_has_exp(c, i) == num_has_exp(t, 0));
    if num_has_exp(t, 0) {
        let e1 = d_t + 1;
        if e1 < n {
            lemma_char_at(c, i, t, e1);
        }
        assert(num_exp_start(c, i) == i + num_exp_start(t, 0));
        lemma_digits_end_shift(c, i, t, num_exp_start(t, 0));
    }
    assert(num_end(c, i) == i + num_end(t, 0));
    assert(num_valid(c, i) == num_valid(t, 0));
    assert(c.subrange(i, num_end(c, i)) == t);
}

proof fn lemma_escape_chars_front(s: Seq<char>)
    requires
        s.len() > 0,
    ensures
        escape_chars(s) == escape_char(s[0]) + escape_chars(s.drop_first()),
    decreases s.len(),
{
    if s.len() > 1 {
        lemma_escape_chars_front(s.drop_last());
        assert(s.drop_last().drop_first() =~= s.drop_first().drop_last());
        assert(s.drop_last()[0] == s[0]);
        assert(s.drop_first().last() == s.last());
    } else {
        assert(s.drop_first() =~= Seq::<char>::empty());
        assert(s.drop_last() =~= Seq::<char>::empty());
    }
}

proof fn lemma_lower_hex_digit(d: nat)
    requires
        d < 16,
    ensures
        hex_val(lower_hex_digit(d)) == Some(d),
{
    if d < 10 {
        assert(((d + 48) as u32) as char as nat == d + 48);
    } else {
        assert(((d + 87) as u32) as char as nat == d + 87);
    }
}

/// The four lowercase hex digits of a value below 0x20 read back as that value.
proof fn lemma_hex4_lower(c: Seq<char>, e: int, v: nat)
    requires
        v < 0x20,
        0 <= e,
        e + 5 <= c.len(),
        c.subrange(e + 1, e + 5) == hex4_lower(v),
    ensures
        hex_digits(c, e, 0, 0) == Step::<nat>::Done(v, e + 4),
{
    let h = hex4_lower(v);
    lemma_lower_hex_digit(v / 4096);
    lemma_lower_hex_digit((v / 256) % 16);
    lemma_lower_hex_digit((v / 16) % 16);
    lemma_lower_hex_digit(v % 16);
    lemma_char_at(c, e + 1, h, 0);
    lemma_char_at(c, e + 1, h, 1);
    lemma_char_at(c, e + 1, h, 2);
    lemma_char_at(c, e + 1, h, 3);
    reveal_with_fuel(hex_digits, 5);
    assert(v / 4096 == 0 && (v / 256) % 16 == 0);
    assert(((0 * 16 + 0) * 16 + (v / 16) % 16) * 16 + v % 16 == v);
}

/// The escaped characters of `s`, embedded at `p` and followed by a closing
/// quote, decode back to `s`.
proof fn lemma_string_body_rt(c: Seq<char>, p: int, s: Seq<char>, acc: Seq<char>)
    requires
        0 <= p,
        p + escape_chars(s).len() < c.len(),
        c.subrange(p, p + escape_chars(s).len()) == escape_chars(s),
        c[p + escape_chars(s).len()] == '"',
    ensures
        string_body(c, p, acc) == Step::Done(acc + s, p + escape_chars(s).len() + 1),
    decreases s.len(),
{
    if s.len() == 0 {
        assert(acc + s =~= acc);
    } else {
        lemma_escape_chars_front(s);
        let es = escape_chars(s);
        let ch = s[0];
        let e = escape_char(ch);
        let rest = s.drop_first();
        let q = p + e.len();
        assert(c.subrange(q, q + escape_chars(rest).len()) =~= es.subrange(
            e.len() as int,
            es.len() as int,
        )) by {
            assert(c.subrange(q, q + escape_chars(rest).len()) =~= c.subrange(
                p,
                p + es.len(),
            ).subrange(e.len() as int, es.len() as int));
        }
        assert(es.subrange(e.len() as int, es.len() as int) =~= escape_chars(rest));
        lemma_string_body_rt(c, q, rest, acc.push(ch));
        assert(acc.push(ch) + rest =~= acc + s);
        assert forall|k: int| 0 <= k < e.len() implies c[p + k] == e[k] by {
            lemma_char_at(c, p, es, k);
        }
        if ch == '"' || ch == '\\' || ch == '\n' || ch == '\r' || ch == '\t' {
            assert(c[p] == '\\');
            assert(simple_escape(c[p + 1]) == Some(ch));
            assert(string_body(c, p, acc) == string_body(c, p + 2, acc.push(ch)));
        } else if (ch as u32) < 0x20 {
            let v = (ch as u32) as nat;
            assert(c.subrange(p + 2, p + 6) =~= hex4_lower(v)) by {
                assert forall|k: int| 0 <= k < 4 implies c.subrange(p + 2, p + 6)[k] == hex4_lower(
                    v,
                )[k] by {
                    assert(c[p + 2 + k] == e[2 + k]);
                }
            }
            lemma_hex4_lower(c, p + 1, v);
            assert(hex4(c, p + 1) == Step::<nat>::Done(v, p + 5));
            vstd::utf8::char_u32_cast(ch, ch as u32);
            assert(((v as u32) as char) == ch);
            assert(e[0] == '\\');
            assert(c[p + 0] == e[0]);
            assert(c[p] == '\\');
            assert(e[1] == 'u');
            assert(c[p + 1] == e[1]);
            assert(crate::json::is_scalar_value(v as int));
            assert(simple_escape(c[p + 1]) is None);
            assert(string_body(c, p, acc) == string_body(c, p + 6, acc.push(ch)));
        } else {
            assert(e == seq![ch]);
            assert(c[p + 0] == e[0]);
            assert(c[p] == ch);
            assert(string_body(c, p, acc) == string_body(c, p + 1, acc.push(ch)));
        }
    }
}

/// Every number in the value holds a number literal.
pub open spec fn wf_value(v: JsonValue) -> bool
    decreases v,
{
    match v {
        JsonValue::Num(t) => number_literal(t),
        JsonValue::Arr(items) => wf_items(items),
        JsonValue::Obj(es) => wf_entries(es),
        _ => true,
    }
}

/// Every item is well formed.
pub open spec fn wf_items(items: Seq<JsonValue>) -> bool
    decreases items,
{
    items.len() == 0 || (wf_value(items[0]) && wf_items(items.drop_first()))
}

/// Every entry's value is well formed.
pub open spec fn wf_entries(es: Seq<(Seq<char>, JsonValue)>) -> bool
    decreases es,
{
    es.len() == 0 || (wf_value(es[0].1) && wf_entries(es.drop_first()))
}

/// The serialization of one object entry.
pub open spec fn entry_text(e: (Seq<char>, JsonValue)) -> Seq<char> {
    quoted(e.0) + seq![':'] + compact_text(e.1)
}

proof fn lemma_compact_items_front(items: Seq<JsonValue>)
    requires
        items.len() > 0,
    ensures
        compact_items(items) == compact_text(items[0]) + (if items.len() == 1 {
            Seq::<char>::empty()
        } else {
            seq![','] + compact_items(items.drop_first())
        }),
    decreases items.len(),
{
    if items.len() == 1 {
        assert(compact_text(items[0]) + Seq::<char>::empty() =~= compact_text(items[0]));
    } else {
        lemma_compact_items_front(items.drop_last());
        assert(items.drop_last().drop_first() =~= items.drop_first().drop_last());
        assert(items.drop_last()[0] == items[0]);
        assert(items.drop_first().last() == items.last());
        if items.len() == 2 {
            assert(items.drop_first().len() == 1);
        }
        assert(compact_items(items) =~= compact_text(items[0]) + (seq![','] + compact_items(
            items.drop_first(),
        )));
    }
}

proof fn lemma_compact_entries_front(es: Seq<(Seq<char>, JsonValue)>)
    requires
        es.len() > 0,
    ensures
        compact_entries(es) == entry_text(es[0]) + (if es.len() == 1 {
            Seq::<char>::empty()
        } else {
            seq![','] + compact_entries(es.drop_first())
        }),
    decreases es.len(),
{
    if es.len() == 1 {
        assert(entry_text(es[0]) + Seq::<char>::empty() =~= entry_text(es[0]));
    } else {
        lemma_compact_entries_front(es.drop_last());
        assert(es.drop_last().drop_first() =~= es.drop_first().drop_last());
        assert(es.drop_last()[0] == es[0]);
        assert(es.drop_first().last() == es.last());
        assert(compact_entries(es) =~= entry_text(es[0]) + (seq![','] + compact_entries(
            es.drop_first(),
        )));
    }
}

proof fn lemma_skip_ws_at(c: Seq<char>, i: int)
    requires
        0 <= i < c.len(),
        !is_ws(c[i]),
        c[i] != '/',
    ensures
        skip_ws(c, i) == i,
{
}

/// The compact text of a well-formed value is non-empty and starts with the
/// character that selects its kind.
proof fn lemma_compact_first(v: JsonValue)
    requires
        wf_value(v),
    ensures
        compact_text(v).len() > 0,
        ({
            let f = compact_text(v)[0];
            &&& !is_ws(f)
            &&& f != '/' && f != ',' && f != ']' && f != '}' && f != ':'
        }),
{
    reveal_strlit("null");
    reveal_strlit("true");
    reveal_strlit("false");
}

/// The compact text of `v`, embedded in `c` at `i` and followed by a
/// delimiter, parses back to `v`.
pub proof fn lemma_value_rt(c: Seq<char>, i: int, v: JsonValue)
    requires
        wf_value(v),
        0 <= i,
        i + compact_text(v).len() <= c.len(),
        c.subrange(i, i + compact_text(v).len()) == compact_text(v),
        delimiter_at(c, i + compact_text(v).len()),
    ensures
        parse_value(c, i) == Step::Done(v, i + compact_text(v).len()),
    decreases v,
{
    let t = compact_text(v);
    let n = t.len() as int;
    lemma_compact_first(v);
    lemma_char_at(c, i, t, 0);
    lemma_skip_ws_at(c, i);
    reveal_strlit("null");
    reveal_strlit("true");
    reveal_strlit("false");
    match v {
        JsonValue::Null => {
            assert(parse_null(c, i) == Step::Done(JsonValue::Null, i + 4));
        },
        JsonValue::Bool(b) => {
            if b {
                assert(parse_bool(c, i) == Step::Done(JsonValue::Bool(true), i + 4));
            } else {
                lemma_char_at(c, i, t, 1);
                assert(!starts_with_at(c, i, "true"@)) by {
                    if starts_with_at(c, i, "true"@) {
                        assert(c.subrange(i, i + 4)[1] == c[i + 1]);
                    }
                }
                assert(c.subrange(i, i + 5) == "false"@);
                assert(parse_bool(c, i) == Step::Done(JsonValue::Bool(false), i + 5));
            }
        },
        JsonValue::Num(lit) => {
            lemma_number_at(c, i, lit);
        },
        JsonValue::Str(s) => {
            let es = escape_chars(s);
            assert(c.subrange(i + 1, i + 1 + es.len()) =~= es) by {
                assert(c.subrange(i + 1, i + 1 + es.len()) =~= c.subrange(i, i + n).subrange(
                    1,
                    1 + es.len() as int,
                ));
            }
            lemma_char_at(c, i, t, n - 1);
            lemma_string_body_rt(c, i + 1, s, seq![]);
            assert(seq![] + s =~= s);
        },
        JsonValue::Arr(items) => {
            let m = compact_items(items).len() as int;
            lemma_char_at(c, i, t, 1);
            lemma_char_at(c, i, t, n - 1);
            if items.len() == 0 {
                lemma_skip_ws_at(c, i + 1);
                assert(items =~= Seq::<JsonValue>::empty());
            } else {
                lemma_compact_items_front(items);
                lemma_compact_first(items[0]);
                assert(t[1] == compact_text(items[0])[0]);
                lemma_skip_ws_at(c, i + 1);
                assert(c.subrange(i + 1, i + 1 + m) =~= compact_items(items)) by {
                    assert(c.subrange(i + 1, i + 1 + m) =~= c.subrange(i, i + n).subrange(
                        1,
                        1 + m,
                    ));
                }
                lemma_items_rt(c, i + 1, seq![], items);
                assert(seq![] + items =~= items);
            }
        },
        JsonValue::Obj(es) => {
            let m = compact_entries(es).len() as int;
            lemma_char_at(c, i, t, 1);
            lemma_char_at(c, i, t, n - 1);
            if es.len() == 0 {
                lemma_skip_ws_at(c, i + 1);
                assert(es =~= Seq::<(Seq<char>, JsonValue)>::empty());
            } else {
                lemma_compact_entries_front(es);
                assert(t[1] == '"');
                lemma_skip_ws_at(c, i + 1);
                assert(c.subrange(i + 1, i + 1 + m) =~= compact_entries(es)) by {
                    assert(c.subrange(i + 1, i + 1 + m) =~= c.subrange(i, i + n).subrange(
                        1,
                        1 + m,
                    ));
                }
                lemma_entries_rt(c, i + 1, seq![], es);
                assert(seq![] + es =~= es);
            }
        },
    }
}

proof fn lemma_items_rt(c: Seq<char>, k: int, acc: Seq<JsonValue>, items: Seq<JsonValue>)
    requires
        wf_items(items),
        items.len() > 0,
        0 <= k,
        k + compact_items(items).len() < c.len(),
        c.subrange(k, k + compact_items(items).len()) == compact_items(items),
        c[k + compact_items(items).len()] == ']',
    ensures
        array_items(c, k, acc) == Step::Done(
            JsonValue::Arr(acc + items),
            k + compact_items(items).len() + 1,
        ),
    decreases items,
{
    let whole = compact_items(items);
    let m = whole.len() as int;
    lemma_compact_items_front(items);
    let first = compact_text(items[0]);
    let l0 = first.len() as int;
    lemma_compact_first(items[0]);
    assert(c.subrange(k, k + l0) =~= first) by {
        assert(c.subrange(k, k + l0) =~= c.subrange(k, k + m).subrange(0, l0));
    }
    if items.len() == 1 {
        assert(l0 == m);
    } else {
        lemma_char_at(c, k, whole, l0);
    }
    lemma_value_rt(c, k, items[0]);
    lemma_skip_ws_at(c, k + l0);
    if items.len() == 1 {
        assert(acc.push(items[0]) =~= acc + items);
    } else {
        let rest = items.drop_first();
        let mr = compact_items(rest).len() as int;
        assert(c.subrange(k + l0 + 1, k + l0 + 1 + mr) =~= compact_items(rest)) by {
            assert(c.subrange(k + l0 + 1, k + l0 + 1 + mr) =~= c.subrange(k, k + m).subrange(
                l0 + 1,
                m,
            ));
        }
        lemma_items_rt(c, k + l0 + 1, acc.push(items[0]), rest);
        assert(acc.push(items[0]) + rest =~= acc + items);
    }
}

proof fn lemma_entries_rt(
    c: Seq<char>,
    k: int,
    acc: Seq<(Seq<char>, JsonValue)>,
    es: Seq<(Seq<char>, JsonValue)>,
)
    requires
        wf_entries(es),
        es.len() > 0,
        0 <= k,
        k + compact_entries(es).len() < c.len(),
        c.subrange(k, k + compact_entries(es).len()) == compact_entries(es),
        c[k + compact_entries(es).len()] == '}',
    ensures
        object_members(c, k, acc) == Step::Done(
            JsonValue::Obj(acc + es),
            k + compact_entries(es).len() + 1,
        ),
    decreases es,
{
    let whole = compact_entries(es);
    let m = whole.len() as int;
    lemma_compact_entries_front(es);
    let (key, val) = es[0];
    let qk = quoted(key);
    let ek = escape_chars(key);
    let vt = compact_text(val);
    let l0 = entry_text(es[0]).len() as int;
    let q = k + qk.len();
    lemma_compact_first(val);
    lemma_char_at(c, k, whole, 0);
    lemma_skip_ws_at(c, k);
    assert(c.subrange(k + 1, k + 1 + ek.len()) =~= ek) by {
        assert(c.subrange(k + 1, k + 1 + ek.len()) =~= c.subrange(k, k + m).subrange(
            1,
            1 + ek.len() as int,
        ));
    }
    lemma_char_at(c, k, whole, 1 + ek.len() as int);
    lemma_string_body_rt(c, k + 1, key, seq![]);
    assert(seq![] + key =~= key);
    assert(parse_string(c, k) == Step::Done(key, q));
    lemma_char_at(c, k, whole, qk.len() as int);
    lemma_skip_ws_at(c, q);
    assert(c.subrange(q + 1, q + 1 + vt.len()) =~= vt) by {
        assert(c.subrange(q + 1, q + 1 + vt.len()) =~= c.subrange(k, k + m).subrange(
            qk.len() as int + 1,
            qk.len() as int + 1 + vt.len() as int,
        ));
    }
    if es.len() == 1 {
        assert(l0 == m);
    } else {
        lemma_char_at(c, k, whole, l0);
    }
    lemma_value_rt(c, q + 1, val);
    lemma_skip_ws_at(c, k + l0);
    if es.len() == 1 {
        assert(acc.push((key, val)) =~= acc + es);
    } else {
        let rest = es.drop_first();
        let mr = compact_entries(rest).len() as int;
        assert(c.subrange(k + l0 + 1, k + l0 + 1 + mr) =~= compact_entries(rest)) by {
            assert(c.subrange(k + l0 + 1, k + l0 + 1 + mr) =~= c.subrange(k, k + m).subrange(
                l0 + 1,
                m,
            ));
        }
        lemma_entries_rt(c, k + l0 + 1, acc.push((key, val)), rest);
        assert(acc.push((key, val)) + rest =~= acc + es);
    }
}

/// Law: parsing the compact serialization of a value whose numbers are number
/// literals gives the value back and consumes the whole text.
pub proof fn lemma_compact_roundtrip(v: JsonValue)
    requires
        wf_value(v),
    ensures
        parse_document(compact_text(v)) == Step::Done(v, compact_text(v).len() as int),
{
    let c = compact_text(v);
    assert(c.subrange(0, c.len() as int) =~= c);
    lemma_value_rt(c, 0, v);
}

// The indented serialization.

proof fn lemma_indent(n: nat)
    ensures
        indent(n).len() == 2 * n,
        forall|k: int| 0 <= k < 2 * n ==> #[trigger] indent(n)[k] == ' ',
    decreases n,
{
    if n > 0 {
        lemma_indent((n - 1) as nat);
        assert forall|k: int| 0 <= k < 2 * n implies #[trigger] indent(n)[k] == ' ' by {
            if k < 2 * (n - 1) {
                assert(indent(n)[k] == indent((n - 1) as nat)[k]);
            }
        }
    }
}

proof fn lemma_skip_run(c: Seq<char>, i: int, j: int)
    requires
        0 <= i <= j < c.len(),
        forall|k: int| i <= k < j ==> is_ws(#[trigger] c[k]),
        !is_ws(c[j]),
        c[j] != '/',
    ensures
        skip_ws(c, i) == j,
    decreases j - i,
{
    if i < j {
        lemma_skip_run(c, i + 1, j);
    }
}

/// One array item on its own line, preceded by the newline that ends the
/// previous line.
pub open spec fn item_line(x: JsonValue, ind: nat, comma: bool) -> Seq<char> {
    seq!['\n'] + indent(ind + 1) + pretty_text(x, ind + 1) + (if comma {
        seq![',']
    } else {
        Seq::<char>::empty()
    })
}

/// The lines of the first `items.len()` of `total` items, each opened by a newline.
pub open spec fn item_lines(items: Seq<JsonValue>, ind: nat, total: nat) -> Seq<char>
    decreases items.len(),
{
    if items.len() == 0 {
        seq![]
    } else {
        item_lines(items.drop_last(), ind, total) + item_line(
            items.last(),
            ind,
            items.len() < total,
        )
    }
}

/// One object entry on its own line, preceded by a newline.
pub open spec fn entry_line(e: (Seq<char>, JsonValue), ind: nat, comma: bool) -> Seq<char> {
    seq!['\n'] + indent(ind + 1) + quoted(e.0) + seq![':', ' '] + pretty_text(e.1, ind + 1) + (
    if comma {
        seq![',']
    } else {
        Seq::<char>::empty()
    })
}

/// The lines of the first `es.len()` of `total` entries, each opened by a newline.
pub open spec fn entry_lines(es: Seq<(Seq<char>, JsonValue)>, ind: nat, total: nat) -> Seq<char>
    decreases es.len(),
{
    if es.len() == 0 {
        seq![]
    } else {
        entry_lines(es.drop_last(), ind, total) + entry_line(es.last(), ind, es.len() < total)
    }
}

proof fn lemma_item_lines_shift(items: Seq<JsonValue>, ind: nat, total: nat)
    ensures
        seq!['\n'] + pretty_items(items, ind, total) == item_lines(items, ind, total) + seq!['\n'],
    decreases items.len(),
{
    if items.len() == 0 {
        assert(seq!['\n'] + pretty_items(items, ind, total) =~= item_lines(items, ind, total)
            + seq!['\n']);
    } else {
        let init = items.drop_last();
        lemma_item_lines_shift(init, ind, total);
        let comma = if items.len() < total {
            seq![',']
        } else {
            Seq::<char>::empty()
        };
        let body = indent(ind + 1) + pretty_text(items.last(), ind + 1) + comma;
        assert(pretty_items(items, ind, total) =~= pretty_items(init, ind, total) + body + seq![
            '\n',
        ]);
        assert(item_lines(items, ind, total) =~= item_lines(init, ind, total) + (seq!['\n']
            + body));
        assert(seq!['\n'] + pretty_items(items, ind, total) =~= (seq!['\n'] + pretty_items(
            init,
            ind,
            total,
        )) + body + seq!['\n']);
    }
}

proof fn lemma_entry_lines_shift(es: Seq<(Seq<char>, JsonValue)>, ind: nat, total: nat)
    ensures
        seq!['\n'] + pretty_entries(es, ind, total) == entry_lines(es, ind, total) + seq!['\n'],
    decreases es.len(),
{
    if es.len() == 0 {
        assert(seq!['\n'] + pretty_entries(es, ind, total) =~= entry_lines(es, ind, total)
            + seq!['\n']);
    } else {
        let init = es.drop_last();
        lemma_entry_lines_shift(init, ind, total);
        let comma = if es.len() < total {
            seq![',']
        } else {
            Seq::<char>::empty()
        };
        let e = es.last();
        let body = indent(ind + 1) + quoted(e.0) + seq![':', ' '] + pretty_text(e.1, ind + 1)
            + comma;
        assert(pretty_entries(es, ind, total) =~= pretty_entries(init, ind, total) + body + seq![
            '\n',
        ]);
        assert(entry_lines(es, ind, total) =~= entry_lines(init, ind, total) + (seq!['\n']
            + body));
        assert(seq!['\n'] + pretty_entries(es, ind, total) =~= (seq!['\n'] + pretty_entries(
            init,
            ind,
            total,
        )) + body + seq!['\n']);
    }
}

proof fn lemma_item_lines_front(items: Seq<JsonValue>, ind: nat, total: nat)
    requires
        0 < items.len() <= total,
    ensures
        item_lines(items, ind, total) == item_line(items[0], ind, 1 < total) + item_lines(
            items.drop_first(),
            ind,
            (total - 1) as nat,
        ),
    decreases items.len(),
{
    let rest = items.drop_first();
    let t1 = (total - 1) as nat;
    if items.len() == 1 {
        assert(items.drop_last().len() == 0);
        assert(rest.len() == 0);
        assert(item_lines(items, ind, total) == item_lines(items.drop_last(), ind, total)
            + item_line(items.last(), ind, items.len() < total));
        assert(item_lines(items, ind, total) =~= item_line(items[0], ind, 1 < total) + item_lines(
            rest,
            ind,
            t1,
        ));
    } else {
        let init = items.drop_last();
        lemma_item_lines_front(init, ind, total);
        assert(init.drop_first() =~= rest.drop_last());
        assert(init[0] == items[0]);
        assert(rest.last() == items.last());
        let last_line = item_line(items.last(), ind, items.len() < total);
        assert(item_lines(items, ind, total) == item_lines(init, ind, total) + last_line);
        assert(item_lines(rest, ind, t1) == item_lines(rest.drop_last(), ind, t1) + item_line(
            rest.last(),
            ind,
            rest.len() < t1,
        ));
        assert(item_lines(rest, ind, t1) == item_lines(init.drop_first(), ind, t1) + last_line);
        assert(item_lines(items, ind, total) =~= item_line(items[0], ind, 1 < total) + item_lines(
            rest,
            ind,
            t1,
        ));
    }
}

proof fn lemma_entry_lines_front(es: Seq<(Seq<char>, JsonValue)>, ind: nat, total: nat)
    requires
        0 < es.len() <= total,
    ensures
        entry_lines(es, ind, total) == entry_line(es[0], ind, 1 < total) + entry_lines(
            es.drop_first(),
            ind,
            (total - 1) as nat,
        ),
    decreases es.len(),
{
    let rest = es.drop_first();
    let t1 = (total - 1) as nat;
    if es.len() == 1 {
        assert(es.drop_last().len() == 0);
        assert(rest.len() == 0);
        assert(entry_lines(es, ind, total) == entry_lines(es.drop_last(), ind, total)
            + entry_line(es.last(), ind, es.len() < total));
        assert(entry_lines(es, ind, total) =~= entry_line(es[0], ind, 1 < total) + entry_lines(
            rest,
            ind,
            t1,
        ));
    } else {
        let init = es.drop_last();
        lemma_entry_lines_front(init, ind, total);
        assert(init.drop_first() =~= rest.drop_last());
        assert(init[0] == es[0]);
        assert(rest.last() == es.last());
        let last_line = entry_line(es.last(), ind, es.len() < total);
        assert(entry_lines(es, ind, total) == entry_lines(init, ind, total) + last_line);
        assert(entry_lines(rest, ind, t1) == entry_lines(rest.drop_last(), ind, t1) + entry_line(
            rest.last(),
            ind,
            rest.len() < t1,
        ));
        assert(entry_lines(rest, ind, t1) == entry_lines(init.drop_first(), ind, t1) + last_line);
        assert(entry_lines(es, ind, total) =~= entry_line(es[0], ind, 1 < total) + entry_lines(
            rest,
            ind,
            t1,
        ));
    }
}

/// The indented text of a well-formed value is non-empty and starts with the
/// character that selects its kind.
proof fn lemma_pretty_first(v: JsonValue, ind: nat)
    requires
        wf_value(v),
    ensures
        pretty_text(v, ind).len() > 0,
        ({
            let f = pretty_text(v, ind)[0];
            &&& !is_ws(f)
            &&& f != '/' && f != ',' && f != ']' && f != '}' && f != ':'
        }),
{
    lemma_compact_first(v);
}

proof fn lemma_parse_value_skip(c: Seq<char>, k: int, a: int)
    requires
        0 <= k <= a < c.len(),
        skip_ws(c, k) == a,
        !is_ws(c[a]),
        c[a] != '/',
    ensures
        parse_value(c, k) == parse_value(c, a),
{
    lemma_skip_ws_at(c, a);
}

/// The indented text of `v` at level `ind`, embedded in `c` at `i` and
/// followed by a delimiter, parses back to `v`.
pub proof fn lemma_value_prt(c: Seq<char>, i: int, v: JsonValue, ind: nat)
    requires
        wf_value(v),
        0 <= i,
        i + pretty_text(v, ind).len() <= c.len(),
        c.subrange(i, i + pretty_text(v, ind).len()) == pretty_text(v, ind),
        delimiter_at(c, i + pretty_text(v, ind).len()),
    ensures
        parse_value(c, i) == Step::Done(v, i + pretty_text(v, ind).len()),
    decreases v, 1nat,
{
    match v {
        JsonValue::Arr(items) => {
            if items.len() == 0 {
                lemma_value_rt(c, i, v);
            } else {
                lemma_array_prt(c, i, items, ind);
            }
        },
        JsonValue::Obj(es) => {
            if es.len() == 0 {
                lemma_value_rt(c, i, v);
            } else {
                lemma_object_prt(c, i, es, ind);
            }
        },
        _ => {
            lemma_value_rt(c, i, v);
        },
    }
}

#[verifier::rlimit(40)]
proof fn lemma_array_prt(c: Seq<char>, i: int, items: Seq<JsonValue>, ind: nat)
    requires
        wf_items(items),
        items.len() > 0,
        0 <= i,
        i + pretty_text(JsonValue::Arr(items), ind).len() <= c.len(),
        c.subrange(i, i + pretty_text(JsonValue::Arr(items), ind).len()) == pretty_text(
            JsonValue::Arr(items),
            ind,
        ),
        delimiter_at(c, i + pretty_text(JsonValue::Arr(items), ind).len()),
    ensures
        parse_value(c, i) == Step::Done(
            JsonValue::Arr(items),
            i + pretty_text(JsonValue::Arr(items), ind).len(),
        ),
    decreases items, 3nat,
{
    let t = pretty_text(JsonValue::Arr(items), ind);
    let n = t.len() as int;
    let total = items.len();
    lemma_indent(ind);
    lemma_item_lines_shift(items, ind, total);
    let il = item_lines(items, ind, total);
    let tail = seq!['\n'] + indent(ind) + seq![']'];
    assert(t =~= seq!['['] + il + tail) by {
        assert(t =~= seq!['['] + (seq!['\n'] + pretty_items(items, ind, total)) + indent(
            ind,
        ) + seq![']']);
    }
    lemma_char_at(c, i, t, 0);
    lemma_skip_ws_at(c, i);
    assert(c.subrange(i + 1, i + n) =~= il + tail) by {
        assert(c.subrange(i + 1, i + n) =~= c.subrange(i, i + n).subrange(1, n));
    }
    assert(il + tail =~= il + seq!['\n'] + indent(ind) + seq![']']);
    assert(n == 1 + il.len() + 2 * ind + 2);
    lemma_items_prt(c, i + 1, seq![], items, ind, total);
    assert(seq![] + items =~= items);
    // The first item's content starts after the newline and indentation.
    lemma_item_lines_front(items, ind, total);
    lemma_indent(ind + 1);
    lemma_pretty_first(items[0], ind + 1);
    let a = i + 2 + 2 * (ind + 1);
    let line0 = item_line(items[0], ind, 1 < total);
    assert forall|k: int| i + 1 <= k < a implies is_ws(#[trigger] c[k]) by {
        lemma_char_at(c, i + 1, il + tail, k - i - 1);
        if k > i + 1 {
            assert(line0[k - i - 1] == indent(ind + 1)[k - i - 2]);
        }
    }
    lemma_char_at(c, i + 1, il + tail, a - i - 1);
    assert(c[a] == pretty_text(items[0], ind + 1)[0]);
    lemma_skip_run(c, i + 1, a);
}

#[verifier::rlimit(40)]
proof fn lemma_object_prt(c: Seq<char>, i: int, es: Seq<(Seq<char>, JsonValue)>, ind: nat)
    requires
        wf_entries(es),
        es.len() > 0,
        0 <= i,
        i + pretty_text(JsonValue::Obj(es), ind).len() <= c.len(),
        c.subrange(i, i + pretty_text(JsonValue::Obj(es), ind).len()) == pretty_text(
            JsonValue::Obj(es),
            ind,
        ),
        delimiter_at(c, i + pretty_text(JsonValue::Obj(es), ind).len()),
    ensures
        parse_value(c, i) == Step::Done(
            JsonValue::Obj(es),
            i + pretty_text(JsonValue::Obj(es), ind).len(),
        ),
    decreases es, 3nat,
{
    let t = pretty_text(JsonValue::Obj(es), ind);
    let n = t.len() as int;
    let total = es.len();
    lemma_indent(ind);
    lemma_entry_lines_shift(es, ind, total);
    let el = entry_lines(es, ind, total);
    let tail = seq!['\n'] + indent(ind) + seq!['}'];
    assert(t =~= seq!['{'] + el + tail) by {
        assert(t =~= seq!['{'] + (seq!['\n'] + pretty_entries(es, ind, total)) + indent(
            ind,
        ) + seq!['}']);
    }
    lemma_char_at(c, i, t, 0);
    lemma_skip_ws_at(c, i);
    assert(c.subrange(i + 1, i + n) =~= el + tail) by {
        assert(c.subrange(i + 1, i + n) =~= c.subrange(i, i + n).subrange(1, n));
    }
    assert(el + tail =~= el + seq!['\n'] + indent(ind) + seq!['}']);
    assert(n == 1 + el.len() + 2 * ind + 2);
    lemma_entries_prt(c, i + 1, seq![], es, ind, total);
    assert(seq![] + es =~= es);
    lemma_entry_lines_front(es, ind, total);
    lemma_indent(ind + 1);
    let a = i + 2 + 2 * (ind + 1);
    let line0 = entry_line(es[0], ind, 1 < total);
    assert forall|k: int| i + 1 <= k < a implies is_ws(#[trigger] c[k]) by {
        lemma_char_at(c, i + 1, el + tail, k - i - 1);
        if k > i + 1 {
            assert(line0[k - i - 1] == indent(ind + 1)[k - i - 2]);
        }
    }
    lemma_char_at(c, i + 1, el + tail, a - i - 1);
    assert(c[a] == '"');
    lemma_skip_run(c, i + 1, a);
}

proof fn lemma_array_items_skip(c: Seq<char>, k: int, a: int, acc: Seq<JsonValue>)
    requires
        0 <= k <= a < c.len(),
        skip_ws(c, k) == a,
        !is_ws(c[a]),
        c[a] != '/',
        parse_value(c, a) matches Step::Done(_, q) && a < q,
    ensures
        array_items(c, k, acc) == array_items(c, a, acc),
{
    lemma_parse_value_skip(c, k, a);
}

#[verifier::rlimit(60)]
proof fn lemma_items_prt(
    c: Seq<char>,
    k: int,
    acc: Seq<JsonValue>,
    items: Seq<JsonValue>,
    ind: nat,
    total: nat,
)
    requires
        wf_items(items),
        0 < items.len() == total,
        0 <= k,
        k + item_lines(items, ind, total).len() + 2 * ind + 2 <= c.len(),
        c.subrange(k, k + item_lines(items, ind, total).len() + 2 * ind + 2) == item_lines(
            items,
            ind,
            total,
        ) + seq!['\n'] + indent(ind) + seq![']'],
    ensures
        array_items(c, k, acc) == Step::Done(
            JsonValue::Arr(acc + items),
            k + item_lines(items, ind, total).len() + 2 * ind + 2,
        ),
        array_items(c, skip_ws(c, k), acc) == array_items(c, k, acc),
        skip_ws(c, k) == k + 2 * ind + 3,
    decreases items, 0nat,
{
    let il = item_lines(items, ind, total);
    let tail = seq!['\n'] + indent(ind) + seq![']'];
    let whole = il + tail;
    let m = whole.len() as int;
    lemma_indent(ind);
    lemma_indent(ind + 1);
    assert(whole =~= il + seq!['\n'] + indent(ind) + seq![']']);
    assert(c.subrange(k, k + m) == whole);
    lemma_item_lines_front(items, ind, total);
    let x = items[0];
    let tx = pretty_text(x, ind + 1);
    let line0 = item_line(x, ind, 1 < total);
    let rest = items.drop_first();
    let il_rest = item_lines(rest, ind, (total - 1) as nat);
    lemma_pretty_first(x, ind + 1);
    let a = k + 1 + 2 * (ind + 1);
    let q = a + tx.len();
    assert forall|j: int| k <= j < a implies is_ws(#[trigger] c[j]) by {
        lemma_char_at(c, k, whole, j - k);
        if j > k {
            assert(line0[j - k] == indent(ind + 1)[j - k - 1]);
        }
    }
    lemma_char_at(c, k, whole, a - k);
    assert(c.subrange(a, q) =~= tx) by {
        assert(c.subrange(a, q) =~= c.subrange(k, k + m).subrange(a - k, q - k));
    }
    lemma_char_at(c, k, whole, q - k);
    if 1 < total {
        assert(c[q] == ',');
    } else {
        assert(c[q] == '\n');
    }
    lemma_value_prt(c, a, x, ind + 1);
    lemma_skip_run(c, k, a);
    lemma_parse_value_skip(c, k, a);
    lemma_array_items_skip(c, k, a, acc);
    if 1 < total {
        lemma_skip_ws_at(c, q);
        let k2 = q + 1;
        assert(c.subrange(k2, k2 + il_rest.len() + 2 * ind + 2) =~= il_rest + tail) by {
            assert(c.subrange(k2, k2 + il_rest.len() + 2 * ind + 2) =~= c.subrange(k, k + m).subrange(
                k2 - k,
                m,
            ));
        }
        assert(il_rest + tail =~= il_rest + seq!['\n'] + indent(ind) + seq![']']);
        lemma_items_prt(c, k2, acc.push(x), rest, ind, (total - 1) as nat);
        assert(acc.push(x) + rest =~= acc + items);
    } else {
        let t_end = q + 1 + 2 * ind;
        assert forall|j: int| q <= j < t_end implies is_ws(#[trigger] c[j]) by {
            lemma_char_at(c, k, whole, j - k);
            if j > q {
                assert(whole[j - k] == indent(ind)[j - q - 1]);
            }
        }
        lemma_char_at(c, k, whole, t_end - k);
        assert(c[t_end] == ']');
        lemma_skip_run(c, q, t_end);
        assert(acc.push(x) =~= acc + items);
    }
}

/// One member `"key": value` at `p`, followed by a delimiter, reads back.
#[verifier::rlimit(40)]
proof fn lemma_member_prt(c: Seq<char>, p: int, key: Seq<char>, val: JsonValue, ind: nat)
    requires
        wf_value(val),
        0 <= p,
        p + quoted(key).len() + 2 + pretty_text(val, ind).len() <= c.len(),
        c.subrange(p, p + quoted(key).len() + 2 + pretty_text(val, ind).len()) == quoted(key)
            + seq![':', ' '] + pretty_text(val, ind),
        delimiter_at(c, p + quoted(key).len() + 2 + pretty_text(val, ind).len()),
    ensures
        c[p] == '"',
        parse_string(c, p) == Step::Done(key, p + quoted(key).len()),
        skip_ws(c, p + quoted(key).len()) == p + quoted(key).len(),
        c[p + quoted(key).len()] == ':',
        parse_value(c, p + quoted(key).len() + 1) == Step::Done(
            val,
            p + quoted(key).len() + 2 + pretty_text(val, ind).len(),
        ),
    decreases val, 2nat,
{
    let qk = quoted(key);
    let ek = escape_chars(key);
    let tv = pretty_text(val, ind);
    let whole = qk + seq![':', ' '] + tv;
    let m = whole.len() as int;
    let q = p + qk.len();
    let b = q + 2;
    let s = b + tv.len();
    lemma_pretty_first(val, ind);
    lemma_char_at(c, p, whole, 0);
    assert(c.subrange(p + 1, p + 1 + ek.len()) =~= ek) by {
        assert(c.subrange(p + 1, p + 1 + ek.len()) =~= c.subrange(p, p + m).subrange(
            1,
            1 + ek.len() as int,
        ));
    }
    lemma_char_at(c, p, whole, 1 + ek.len() as int);
    lemma_string_body_rt(c, p + 1, key, seq![]);
    assert(seq![] + key =~= key);
    lemma_char_at(c, p, whole, qk.len() as int);
    lemma_skip_ws_at(c, q);
    lemma_char_at(c, p, whole, qk.len() as int + 1);
    lemma_char_at(c, p, whole, qk.len() as int + 2);
    assert(c.subrange(b, s) =~= tv) by {
        assert(c.subrange(b, s) =~= c.subrange(p, p + m).subrange(b - p, s - p));
    }
    lemma_value_prt(c, b, val, ind);
    lemma_skip_run(c, q + 1, b);
    lemma_parse_value_skip(c, q + 1, b);
}

#[verifier::rlimit(40)]
proof fn lemma_entries_prt(
    c: Seq<char>,
    k: int,
    acc: Seq<(Seq<char>, JsonValue)>,
    es: Seq<(Seq<char>, JsonValue)>,
    ind: nat,
    total: nat,
)
    requires
        wf_entries(es),
        0 < es.len() == total,
        0 <= k,
        k + entry_lines(es, ind, total).len() + 2 * ind + 2 <= c.len(),
        c.subrange(k, k + entry_lines(es, ind, total).len() + 2 * ind + 2) == entry_lines(
            es,
            ind,
            total,
        ) + seq!['\n'] + indent(ind) + seq!['}'],
    ensures
        object_members(c, k, acc) == Step::Done(
            JsonValue::Obj(acc + es),
            k + entry_lines(es, ind, total).len() + 2 * ind + 2,
        ),
        object_members(c, skip_ws(c, k), acc) == object_members(c, k, acc),
        skip_ws(c, k) == k + 2 * ind + 3,
    decreases es, 0nat,
{
    let el = entry_lines(es, ind, total);
    let tail = seq!['\n'] + indent(ind) + seq!['}'];
    let whole = el + tail;
    let m = whole.len() as int;
    lemma_indent(ind);
    lemma_indent(ind + 1);
    assert(whole =~= el + seq!['\n'] + indent(ind) + seq!['}']);
    assert(c.subrange(k, k + m) == whole);
    lemma_entry_lines_front(es, ind, total);
    let (key, val) = es[0];
    let qk = quoted(key);
    let ek = escape_chars(key);
    let tv = pretty_text(val, ind + 1);
    let line0 = entry_line(es[0], ind, 1 < total);
    let rest = es.drop_first();
    let el_rest = entry_lines(rest, ind, (total - 1) as nat);
    lemma_pretty_first(val, ind + 1);
    let p = k + 1 + 2 * (ind + 1);
    let q = p + qk.len();
    let b = q + 2;
    let s = b + tv.len();
    assert forall|j: int| k <= j < p implies is_ws(#[trigger] c[j]) by {
        lemma_char_at(c, k, whole, j - k);
        if j > k {
            assert(line0[j - k] == indent(ind + 1)[j - k - 1]);
        }
    }
    lemma_char_at(c, k, whole, p - k);
    assert(c.subrange(p, s) =~= qk + seq![':', ' '] + tv) by {
        assert(c.subrange(p, s) =~= c.subrange(k, k + m).subrange(p - k, s - k));
    }
    lemma_char_at(c, k, whole, s - k);
    if 1 < total {
        assert(c[s] == ',');
    } else {
        assert(c[s] == '\n');
    }
    lemma_member_prt(c, p, key, val, ind + 1);
    lemma_skip_run(c, k, p);
    if 1 < total {
        lemma_skip_ws_at(c, s);
        let k2 = s + 1;
        assert(c.subrange(k2, k2 + el_rest.len() + 2 * ind + 2) =~= el_rest + tail) by {
            assert(c.subrange(k2, k2 + el_rest.len() + 2 * ind + 2) =~= c.subrange(k, k + m).subrange(
                k2 - k,
                m,
            ));
        }
        assert(el_rest + tail =~= el_rest + seq!['\n'] + indent(ind) + seq!['}']);
        lemma_entries_prt(c, k2, acc.push((key, val)), rest, ind, (total - 1) as nat);
        assert(acc.push((key, val)) + rest =~= acc + es);
    } else {
        let t_end = s + 1 + 2 * ind;
        assert forall|j: int| s <= j < t_end implies is_ws(#[trigger] c[j]) by {
            lemma_char_at(c, k, whole, j - k);
            if j > s {
                assert(whole[j - k] == indent(ind)[j - s - 1]);
            }
        }
        lemma_char_at(c, k, whole, t_end - k);
        assert(c[t_end] == '}');
        lemma_skip_run(c, s, t_end);
        assert(acc.push((key, val)) =~= acc + es);
    }
}

/// Law: parsing the indented serialization of a value whose numbers are
/// number literals gives the value back and consumes the whole text.
pub proof fn lemma_pretty_roundtrip(v: JsonValue)
    requires
        wf_value(v),
    ensures
        parse_document(pretty_text(v, 0)) == Step::Done(v, pretty_text(v, 0).len() as int),
{
    let c = pretty_text(v, 0);
    assert(c.subrange(0, c.len() as int) =~= c);
    lemma_value_prt(c, 0, v, 0);
}

// Parsed values are well formed.

proof fn lemma_digits_end_back(c: Seq<char>, j: int, t: Seq<char>, k: int)
    requires
        0 <= j,
        j + t.len() <= c.len(),
        c.subrange(j, j + t.len()) == t,
        0 <= k <= t.len(),
        digits_end(c, j + k) <= j + t.len(),
    ensures
        digits_end(t, k) == digits_end(c, j + k) - j,
    decreases t.len() - k,
{
    crate::json::lemma_digits_end(c, j + k);
    if k < t.len() {
        lemma_char_at(c, j, t, k);
        if is_digit(t[k]) {
            lemma_digits_end_back(c, j, t, k + 1);
        }
    }
}

/// The text of a number the scanner reads is a number literal.
proof fn lemma_scanned_number(c: Seq<char>, j: int)
    requires
        0 <= j < c.len(),
        c[j] == '-' || is_digit(c[j]),
        num_valid(c, j),
    ensures
        number_literal(c.subrange(j, num_end(c, j))),
{
    let end = num_end(c, j);
    let a = num_int_start(c, j);
    crate::json::lemma_digits_end(c, a);
    let b = num_int_end(c, j);
    if num_has_dot(c, j) {
        crate::json::lemma_digits_end(c, b + 1);
    }
    let d = num_frac_end(c, j);
    if num_has_exp(c, j) {
        crate::json::lemma_digits_end(c, num_exp_start(c, j));
    }
    assert(j <= a <= b <= d <= end <= c.len());
    let t = c.subrange(j, end);
    let n = t.len() as int;
    assert(n == end - j);
    assert(t[0] == c[j]);
    assert(num_int_start(t, 0) == a - j);
    lemma_digits_end_back(c, j, t, a - j);
    assert(num_int_end(t, 0) == b - j);
    if b < end {
        lemma_char_at(c, j, t, b - j);
    }
    assert(num_has_dot(t, 0) == num_has_dot(c, j));
    if num_has_dot(c, j) {
        lemma_digits_end_back(c, j, t, b + 1 - j);
    }
    assert(num_frac_end(t, 0) == d - j);
    if d < end {
        lemma_char_at(c, j, t, d - j);
    }
    assert(num_has_exp(t, 0) == num_has_exp(c, j));
    if num_has_exp(c, j) {
        let e1 = d + 1;
        if e1 < end {
            lemma_char_at(c, j, t, e1 - j);
        }
        assert(num_exp_start(t, 0) == num_exp_start(c, j) - j);
        lemma_digits_end_back(c, j, t, num_exp_start(c, j) - j);
    }
    assert(num_end(t, 0) == n);
    assert(num_valid(t, 0));
}

proof fn lemma_wf_items_push(items: Seq<JsonValue>, x: JsonValue)
    requires
        wf_items(items),
        wf_value(x),
    ensures
        wf_items(items.push(x)),
    decreases items.len(),
{
    if items.len() > 0 {
        lemma_wf_items_push(items.drop_first(), x);
        assert(items.push(x).drop_first() =~= items.drop_first().push(x));
        assert(items.push(x)[0] == items[0]);
    } else {
        assert(items.push(x).drop_first() =~= Seq::<JsonValue>::empty());
        assert(items.push(x)[0] == x);
        assert(wf_items(Seq::<JsonValue>::empty()));
    }
}

proof fn lemma_wf_entries_push(es: Seq<(Seq<char>, JsonValue)>, x: (Seq<char>, JsonValue))
    requires
        wf_entries(es),
        wf_value(x.1),
    ensures
        wf_entries(es.push(x)),
    decreases es.len(),
{
    if es.len() > 0 {
        lemma_wf_entries_push(es.drop_first(), x);
        assert(es.push(x).drop_first() =~= es.drop_first().push(x));
        assert(es.push(x)[0] == es[0]);
    } else {
        assert(es.push(x).drop_first() =~= Seq::<(Seq<char>, JsonValue)>::empty());
        assert(es.push(x)[0] == x);
        assert(wf_entries(Seq::<(Seq<char>, JsonValue)>::empty()));
    }
}

/// Every value the parser reads is well formed.
pub proof fn lemma_parsed_value_wf(c: Seq<char>, i: int)
    ensures
        parse_value(c, i) matches Step::Done(v, _) ==> wf_value(v),
    decreases c.len() - i, 1nat,
{
    if 0 <= i <= c.len() {
        crate::json::lemma_skip_ws(c, i);
        let j = skip_ws(c, i);
        if j < c.len() {
            if c[j] == '{' {
                lemma_parsed_object_wf(c, j);
            } else if c[j] == '[' {
                lemma_parsed_array_wf(c, j);
            } else if c[j] == '-' || is_digit(c[j]) {
                if num_valid(c, j) {
                    lemma_scanned_number(c, j);
                }
            }
        }
    }
}

proof fn lemma_parsed_object_wf(c: Seq<char>, j: int)
    ensures
        parse_object(c, j) matches Step::Done(v, _) ==> wf_value(v),
    decreases c.len() - j, 0nat,
{
    if 0 <= j < c.len() {
        crate::json::lemma_skip_ws(c, j + 1);
        let p = skip_ws(c, j + 1);
        if !(p < c.len() && c[p] == '}') {
            lemma_members_wf(c, p, seq![]);
        }
    }
}

proof fn lemma_members_wf(c: Seq<char>, k: int, acc: Seq<(Seq<char>, JsonValue)>)
    requires
        wf_entries(acc),
    ensures
        object_members(c, k, acc) matches Step::Done(v, _) ==> wf_value(v),
    decreases c.len() - k, 2nat,
{
    if 0 <= k <= c.len() {
        crate::json::lemma_skip_ws(c, k);
        let p = skip_ws(c, k);
        if p < c.len() && c[p] == '"' {
            crate::json::lemma_string_body(c, p + 1, seq![]);
            if let Step::Done(key, q) = parse_string(c, p) {
                crate::json::lemma_skip_ws(c, q);
                let r = skip_ws(c, q);
                if r < c.len() && c[r] == ':' {
                    lemma_parsed_value_wf(c, r + 1);
                    if let Step::Done(v, s) = parse_value(c, r + 1) {
                        if k < s <= c.len() {
                            lemma_wf_entries_push(acc, (key, v));
                            crate::json::lemma_skip_ws(c, s);
                            let t = skip_ws(c, s);
                            if t < c.len() && c[t] == ',' {
                                lemma_members_wf(c, t + 1, acc.push((key, v)));
                            }
                        }
                    }
                }
            }
        }
    }
}

proof fn lemma_parsed_array_wf(c: Seq<char>, j: int)
    ensures
        parse_array(c, j) matches Step::Done(v, _) ==> wf_value(v),
    decreases c.len() - j, 0nat,
{
    if 0 <= j < c.len() {
        crate::json::lemma_skip_ws(c, j + 1);
        let p = skip_ws(c, j + 1);
        if !(p < c.len() && c[p] == ']') {
            lemma_items_wf(c, p, seq![]);
        }
    }
}

proof fn lemma_items_wf(c: Seq<char>, k: int, acc: Seq<JsonValue>)
    requires
        wf_items(acc),
    ensures
        array_items(c, k, acc) matches Step::Done(v, _) ==> wf_value(v),
    decreases c.len() - k, 2nat,
{
    if 0 <= k <= c.len() {
        lemma_parsed_value_wf(c, k);
        if let Step::Done(v, q) = parse_value(c, k) {
            if k < q <= c.len() {
                lemma_wf_items_push(acc, v);
                crate::json::lemma_skip_ws(c, q);
                let t = skip_ws(c, q);
                if t < c.len() && c[t] == ',' {
                    lemma_items_wf(c, t + 1, acc.push(v));
                }
            }
        }
    }
}

/// Law: whatever document the parser reads, serializing its value (compactly
/// or indented) and parsing that text gives the same value back.
pub proof fn lemma_reparse(c: Seq<char>)
    ensures
        parse_document(c) matches Step::Done(v, _) ==> {
            &&& parse_document(compact_text(v)) == Step::Done(v, compact_text(v).len() as int)
            &&& parse_document(pretty_text(v, 0)) == Step::Done(v, pretty_text(v, 0).len() as int)
        },
{
    lemma_parsed_value_wf(c, 0);
    if let Step::Done(v, _) = parse_document(c) {
        lemma_compact_roundtrip(v);
        lemma_pretty_roundtrip(v);
    }
}

} // verus!
