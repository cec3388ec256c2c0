//! Character-level string helpers shared by the other modules.

use vstd::prelude::*;

use vstd::arithmetic::div_mod::{lemma_div_denominator, lemma_fundamental_div_mod};

verus! {

/// The decimal digit character for `d` (which is below ten).
pub open spec fn digit_char(d: nat) -> char {
    ((d + 48) as u32) as char
}

/// The decimal rendering of `n`, without sign or leading zeros.
pub open spec fn decimal(n: nat) -> Seq<char>
    decreases n,
{
    if n < 10 {
        seq![digit_char(n)]
    } else {
        decimal(n / 10).push(digit_char(n % 10))
    }
}

/// Appends one character (std's `String::push`).
#[verifier::external_body]
pub fn push_char(s: &mut String, c: char)
    ensures
        final(s)@ == old(s)@.push(c),
{
    s.push(c)
}

/// Appends a string slice (std's `String::push_str`).
#[verifier::external_body]
pub fn push_str(s: &mut String, t: &str)
    ensures
        final(s)@ == old(s)@ + t@,
{
    s.push_str(t)
}

/// Compares two string slices for equality (std's `<str as PartialEq>::eq`).
#[verifier::external_body]
pub fn str_eq(a: &str, b: &str) -> (r: bool)
    ensures
        r == (a@ == b@),
{
    a == b
}

/// Appends the decimal rendering of `n`.
pub fn push_decimal(s: &mut String, n: u64)
    ensures
        final(s)@ == old(s)@ + decimal(n as nat),
    decreases n,
{
    if n >= 10 {
        push_decimal(s, n / 10);
    }
    let d: u8 = (n % 10) as u8;
    let c: char = (d + 48u8) as char;
    assert(c == digit_char((n % 10) as nat));
    push_char(s, c);
}

/// Integers below this bound (2^53) convert to a double exactly.
pub const DOUBLE_EXACT: u64 = 0x20_0000_0000_0000;

/// The spacing of doubles at `n`: one below 2^53, doubling with each further bit.
pub open spec fn double_ulp(n: nat) -> nat
    decreases n,
{
    if n < DOUBLE_EXACT {
        1
    } else {
        2 * double_ulp(n / 2)
    }
}

/// The value of the double nearest to `n`, ties going to the even neighbour:
/// the value that converting an integer to `f64` yields.
pub open spec fn double_nearest(n: nat) -> nat {
    let p = double_ulp(n);
    let q = n / p;
    let r = n % p;
    if 2 * r > p || (2 * r == p && q % 2 == 1) {
        (q + 1) * p
    } else {
        q * p
    }
}

/// Appends the decimal rendering of a 128-bit `n`.
pub fn push_decimal_wide(s: &mut String, n: u128)
    ensures
        final(s)@ == old(s)@ + decimal(n as nat),
    decreases n,
{
    if n >= 10 {
        push_decimal_wide(s, n / 10);
    }
    let d: u8 = (n % 10) as u8;
    let c: char = (d + 48u8) as char;
    assert(c == digit_char((n % 10) as nat));
    push_char(s, c);
}

/// The value of the double nearest to `n`.
fn double_value(n: u64) -> (v: u128)
    ensures
        v == double_nearest(n as nat),
        v <= 0x2_0000_0000_0000_0000,
{
    let mut q: u64 = n;
    let mut p: u64 = 1;
    while q >= DOUBLE_EXACT
        invariant
            p > 0,
            q == n as nat / p as nat,
            p * q <= n,
            p == 1 || q >= 0x10_0000_0000_0000,
            double_ulp(n as nat) == p * double_ulp(q as nat),
        decreases q,
    {
        proof {
            assert(p < 0x800) by (nonlinear_arith)
                requires
                    p * q <= n,
                    q >= DOUBLE_EXACT,
                    n <= u64::MAX,
            ;
            lemma_div_denominator(n as int, p as int, 2);
            assert(2 * p * (q / 2) <= p * q) by (nonlinear_arith)
                requires
                    p > 0,
            ;
            assert(p * double_ulp(q as nat) == (2 * p) * double_ulp((q / 2) as nat)) by (
            nonlinear_arith)
                requires
                    double_ulp(q as nat) == 2 * double_ulp((q / 2) as nat),
            ;
        }
        q = q / 2;
        p = p * 2;
    }
    proof {
        assert(p < 0x1000) by (nonlinear_arith)
            requires
                p * q <= n,
                p == 1 || q >= 0x10_0000_0000_0000,
                n <= u64::MAX,
        ;
        lemma_fundamental_div_mod(n as int, p as int);
        assert(double_ulp(q as nat) == 1);
        assert(p == double_ulp(n as nat)) by (nonlinear_arith)
            requires
                double_ulp(n as nat) == p * double_ulp(q as nat),
                double_ulp(q as nat) == 1,
        ;
        assert(q * p == p * q) by (nonlinear_arith);
        assert((q + 1) * p <= 0x20_0000_0000_0000 * 0x1000) by (nonlinear_arith)
            requires
                q < DOUBLE_EXACT,
                p < 0x1000,
        ;
    }
    let r: u64 = n - q * p;
    assert(r == n as nat % p as nat);
    assert(q == n as nat / double_ulp(n as nat));
    let v: u128 = if 2 * r > p || (2 * r == p && q % 2 == 1) {
        (q as u128 + 1) * (p as u128)
    } else {
        (q as u128) * (p as u128)
    };
    v
}

/// `10^k`.
pub open spec fn pow10(k: nat) -> nat
    decreases k,
{
    if k == 0 {
        1
    } else {
        10 * pow10((k - 1) as nat)
    }
}

/// Whether the integer `m` lies in the interval of reals that round to the
/// double `v` (an integral double of 2^53 or more): half the gap to each
/// neighbour on either side, the ends included when `v`'s significand is even.
pub open spec fn rounds_to(v: nat, m: int) -> bool {
    let below = double_ulp((v - 1) as nat);
    let above = double_ulp(v);
    if (v / double_ulp(v)) % 2 == 0 {
        2 * v - below <= 2 * m <= 2 * v + above
    } else {
        2 * v - below < 2 * m < 2 * v + above
    }
}

/// The multiple of `10^k` closest to `v` among those that round to `v`, the
/// greater one on a tie, if any does.
pub open spec fn rounded_multiple(v: nat, k: nat) -> Option<nat> {
    let t = pow10(k);
    let down = v - v % t;
    let up = down + t;
    let din = rounds_to(v, down);
    let uin = rounds_to(v, up);
    if din && uin {
        if up - v <= v - down {
            Some(up as nat)
        } else {
            Some(down as nat)
        }
    } else if uin {
        Some(up as nat)
    } else if din {
        Some(down as nat)
    } else {
        None
    }
}

/// The value with the fewest significant digits that rounds to `v`, trying
/// powers of ten from `10^k` down.
pub open spec fn shortest_from(v: nat, k: nat) -> nat
    decreases k,
{
    match rounded_multiple(v, k) {
        Some(m) => m,
        None => if k == 0 {
            v
        } else {
            shortest_from(v, (k - 1) as nat)
        },
    }
}

/// How a double holding the integer `n` prints: below 2^53 its exact digits,
/// above them the shortest digits that read back as the same double, padded
/// with zeros.
pub open spec fn double_display(n: nat) -> Seq<char> {
    let v = double_nearest(n);
    if v < DOUBLE_EXACT {
        decimal(v)
    } else {
        decimal(shortest_from(v, 20))
    }
}

proof fn lemma_pow10_pos(k: nat)
    ensures
        pow10(k) >= 1,
    decreases k,
{
    if k > 0 {
        lemma_pow10_pos((k - 1) as nat);
    }
}

fn ulp_of(n: u128) -> (p: u128)
    requires
        n <= 0x2_0000_0000_0000_0000,
    ensures
        p == double_ulp(n as nat),
        1 <= p <= 0x2000,
{
    let mut q: u128 = n;
    let mut p: u128 = 1;
    while q >= DOUBLE_EXACT as u128
        invariant
            1 <= p,
            p * q <= n,
            p == 1 || q >= 0x10_0000_0000_0000,
            n <= 0x2_0000_0000_0000_0000,
            double_ulp(n as nat) == p * double_ulp(q as nat),
        decreases q,
    {
        proof {
            assert(p < 0x2000) by (nonlinear_arith)
                requires
                    p * q <= n,
                    q >= DOUBLE_EXACT,
                    n <= 0x2_0000_0000_0000_0000,
            ;
            assert(2 * p * (q / 2) <= p * q) by (nonlinear_arith)
                requires
                    p > 0,
            ;
            assert(p * double_ulp(q as nat) == (2 * p) * double_ulp((q / 2) as nat)) by (
            nonlinear_arith)
                requires
                    double_ulp(q as nat) == 2 * double_ulp((q / 2) as nat),
            ;
        }
        q = q / 2;
        p = p * 2;
    }
    proof {
        assert(p <= 0x2000) by (nonlinear_arith)
            requires
                p * q <= n,
                p == 1 || q >= 0x10_0000_0000_0000,
                n <= 0x2_0000_0000_0000_0000,
        ;
        assert(double_ulp(q as nat) == 1);
        assert(p == double_ulp(n as nat)) by (nonlinear_arith)
            requires
                double_ulp(n as nat) == p * double_ulp(q as nat),
                double_ulp(q as nat) == 1,
        ;
    }
    p
}

fn rounds_to_exec(v: u128, m: u128) -> (b: bool)
    requires
        DOUBLE_EXACT <= v <= 0x2_0000_0000_0000_0000,
        m <= 0x4_0000_0000_0000_0000_0000,
    ensures
        b == rounds_to(v as nat, m as int),
{
    let below = ulp_of(v - 1);
    let above = ulp_of(v);
    if (v / above) % 2 == 0 {
        2 * v - below <= 2 * m && 2 * m <= 2 * v + above
    } else {
        2 * v - below < 2 * m && 2 * m < 2 * v + above
    }
}

/// The text that a double holding the integer `n` prints as.
pub fn double_text(n: u64) -> (t: String)
    ensures
        t@ == double_display(n as nat),
{
    let v = double_value(n);
    let mut t = String::new();
    if v < DOUBLE_EXACT as u128 {
        push_decimal_wide(&mut t, v);
        return t;
    }
    proof {
        reveal_with_fuel(pow10, 21);
    }
    let mut k: u32 = 20;
    let mut p10: u128 = 100_000_000_000_000_000_000;
    loop
        invariant
            DOUBLE_EXACT <= v <= 0x2_0000_0000_0000_0000,
            v == double_nearest(n as nat),
            k <= 20,
            p10 == pow10(k as nat),
            1 <= p10 <= 100_000_000_000_000_000_000,
            shortest_from(v as nat, 20) == shortest_from(v as nat, k as nat),
            t@ == Seq::<char>::empty(),
        decreases k,
    {
        assert(v % p10 <= v) by (nonlinear_arith)
            requires
                p10 >= 1,
        ;
        let down = v - v % p10;
        let up = down + p10;
        let din = rounds_to_exec(v, down);
        let uin = rounds_to_exec(v, up);
        let pick: Option<u128> = if din && uin {
            if up - v <= v - down {
                Some(up)
            } else {
                Some(down)
            }
        } else if uin {
            Some(up)
        } else if din {
            Some(down)
        } else {
            None
        };
        assert(pick matches Some(m) ==> rounded_multiple(v as nat, k as nat) == Some(m as nat));
        assert(pick is None ==> rounded_multiple(v as nat, k as nat) is None);
        match pick {
            Some(m) => {
                push_decimal_wide(&mut t, m);
                return t;
            },
            None => {
                if k == 0 {
                    push_decimal_wide(&mut t, v);
                    return t;
                }
                proof {
                    lemma_pow10_pos((k - 1) as nat);
                }
                k = k - 1;
                p10 = p10 / 10;
            },
        }
    }
}

/// The lowercase hexadecimal digit character for `d` (which is below sixteen).
pub open spec fn hex_char(d: nat) -> char {
    if d < 10 {
        digit_char(d)
    } else {
        ((d - 10 + 97) as u32) as char
    }
}

/// The lowercase hexadecimal rendering of `n`, without prefix or leading zeros.
pub open spec fn hex(n: nat) -> Seq<char>
    decreases n,
{
    if n < 16 {
        seq![hex_char(n)]
    } else {
        hex(n / 16).push(hex_char(n % 16))
    }
}

/// Appends the lowercase hexadecimal rendering of `n`.
pub fn push_hex(s: &mut String, n: u64)
    ensures
        final(s)@ == old(s)@ + hex(n as nat),
    decreases n,
{
    if n >= 16 {
        push_hex(s, n / 16);
    }
    let d: u8 = (n % 16) as u8;
    let c: char = if d < 10 {
        (d + 48u8) as char
    } else {
        (d - 10 + 97u8) as char
    };
    assert(c == hex_char((n % 16) as nat));
    push_char(s, c);
}

/// The characters of `s`, in order.
pub fn chars_of(s: &str) -> (v: Vec<char>)
    ensures
        v@ == s@,
{
    let mut v: Vec<char> = Vec::new();
    for ch in it: s.chars()
        invariant
            v@ == it.seq().take(it.index() as int),
    {
        v.push(ch);
    }
    v
}

/// A string made of the characters `c[from..to]`.
pub fn string_from_range(c: &Vec<char>, from: usize, to: usize) -> (s: String)
    requires
        from <= to <= c@.len(),
    ensures
        s@ == c@.subrange(from as int, to as int),
{
    let mut s = String::new();
    let mut k = from;
    while k < to
        invariant
            from <= k <= to <= c@.len(),
            s@ == c@.subrange(from as int, k as int),
        decreases to - k,
    {
        push_char(&mut s, c[k]);
        assert(c@.subrange(from as int, k + 1) =~= c@.subrange(from as int, k as int).push(c@[k as int]));
        k += 1;
    }
    s
}

} // verus!
