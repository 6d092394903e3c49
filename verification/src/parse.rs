//! Human-readable sizes ("4GiB", "512MiB", "1024") and durations ("30m",
//! "6h", "90s").
//!
//! A quantity is trimmed; an empty one is zero. Otherwise it is lower-cased
//! (ASCII) and its unit suffix is looked up in a fixed table, longest suffixes
//! first so that "kib" is not taken for "b". The number in front of the suffix
//! is read in the syntax of a floating-point literal (sign, digits, fraction,
//! exponent, `inf`, `nan`); it is scaled by the unit, truncated toward zero
//! and saturated to the range of `i64`. The number is taken exactly as the
//! decimal it spells. Without a suffix the whole text must be an `i64`
//! literal.

use vstd::prelude::*;
use vstd::arithmetic::div_mod::*;
use vstd::arithmetic::mul::*;
use crate::text::{
    decimal, digit_char, is_ws, lower_ascii, str_eq, trim_end, trim_start, chars_of, concat, lower_ascii_chars, lower_ascii_seq, string_from_chars, trim, trim_chars,
};
use crate::errors::Error;

verus! {

// ─── Digits ─────────────────────────────────────────────────────────────────

pub open spec fn is_digit(c: char) -> bool {
    '0' <= c && c <= '9'
}

pub open spec fn digit_value(c: char) -> nat {
    (c as int - 48) as nat
}

pub open spec fn all_digits(s: Seq<char>) -> bool {
    forall|i: int| 0 <= i < s.len() ==> is_digit(#[trigger] s[i])
}

/// The number that a string of decimal digits spells.
pub open spec fn digits_value(s: Seq<char>) -> nat
    decreases s.len(),
{
    if s.len() == 0 {
        0
    } else {
        digits_value(s.drop_last()) * 10 + digit_value(s.last())
    }
}

pub open spec fn pow10(n: nat) -> nat
    decreases n,
{
    if n == 0 {
        1
    } else {
        10 * pow10((n - 1) as nat)
    }
}

/// An optional leading `+` or `-`, and what follows it.
pub open spec fn sign_split(s: Seq<char>) -> (bool, Seq<char>) {
    if s.len() > 0 && s[0] == '-' {
        (true, s.drop_first())
    } else if s.len() > 0 && s[0] == '+' {
        (false, s.drop_first())
    } else {
        (false, s)
    }
}

/// What `i64::from_str` accepts: a sign, at least one digit, and a value in range.
pub open spec fn integer_literal(s: Seq<char>) -> Option<int> {
    let (neg, body) = sign_split(s);
    if body.len() > 0 && all_digits(body) {
        let v = digits_value(body) as int;
        let signed = if neg {
            -v
        } else {
            v
        };
        if i64::MIN <= signed && signed <= i64::MAX {
            Some(signed)
        } else {
            None
        }
    } else {
        None
    }
}

/// Index of the first occurrence of `c` in `s`, or `s.len()` when there is none.
pub open spec fn index_of(s: Seq<char>, c: char) -> int
    decreases s.len(),
{
    if s.len() == 0 {
        0
    } else if s[0] == c {
        0
    } else {
        1 + index_of(s.drop_first(), c)
    }
}

/// An exponent `[+-]digits`, as an integer.
pub open spec fn exponent_literal(x: Seq<char>) -> Option<int> {
    let (neg, d) = sign_split(x);
    if d.len() > 0 && all_digits(d) {
        Some(
            if neg {
                -(digits_value(d) as int)
            } else {
                digits_value(d) as int
            },
        )
    } else {
        None
    }
}

/// A finite number in the syntax of `f64::from_str` (lower case): a sign,
/// digits with at most one point and at least one digit, and an optional
/// exponent `e[+-]digits`. Gives the sign, all the digits, and the power of
/// ten by which the integer they spell is scaled.
pub open spec fn finite_literal(s: Seq<char>) -> Option<(bool, Seq<char>, int)> {
    let (neg, body) = sign_split(s);
    let e = index_of(body, 'e');
    let mant = body.subrange(0, e);
    let p = index_of(mant, '.');
    let ip = mant.subrange(0, p);
    let fp = if p < mant.len() {
        mant.subrange(p + 1, mant.len() as int)
    } else {
        Seq::<char>::empty()
    };
    let x = if e < body.len() {
        exponent_literal(body.subrange(e + 1, body.len() as int))
    } else {
        Some(0int)
    };
    if all_digits(ip) && all_digits(fp) && ip.len() + fp.len() > 0 && x is Some {
        Some((neg, ip + fp, x->0 - fp.len()))
    } else {
        None
    }
}

/// `floor(d * 10^e * m)`.
pub open spec fn scaled_magnitude(d: nat, e: int, m: nat) -> nat {
    if e >= 0 {
        d * m * pow10(e as nat)
    } else {
        (d * m) / pow10((-e) as nat)
    }
}

/// The number that `f64::from_str` reads in `s` (infinities and NaN too),
/// times `m`, truncated toward zero and saturated to `i64` as an `as i64`
/// cast does; the number is taken exactly, as the decimal it spells.
pub open spec fn scaled_number(s: Seq<char>, m: nat) -> Option<int> {
    let (neg, body) = sign_split(s);
    if body == "inf"@ || body == "infinity"@ {
        Some(
            if neg {
                i64::MIN as int
            } else {
                i64::MAX as int
            },
        )
    } else if body == "nan"@ {
        Some(0)
    } else {
        match finite_literal(s) {
            Some(f) => Some(saturate(f.0, scaled_magnitude(digits_value(f.1), f.2, m))),
            None => None,
        }
    }
}

pub open spec fn i64_min_magnitude() -> nat {
    0x8000_0000_0000_0000
}

/// A magnitude with its sign, saturated to the range of `i64`.
pub open spec fn saturate(neg: bool, a: nat) -> int {
    if neg {
        if a >= i64_min_magnitude() {
            i64::MIN as int
        } else {
            -(a as int)
        }
    } else {
        if a > i64::MAX {
            i64::MAX as int
        } else {
            a as int
        }
    }
}

// ─── Units ──────────────────────────────────────────────────────────────────

pub open spec fn size_units() -> Seq<(Seq<char>, nat)> {
    seq![
        (seq!['t', 'i', 'b'], 1099511627776nat),
        (seq!['g', 'i', 'b'], 1073741824nat),
        (seq!['m', 'i', 'b'], 1048576nat),
        (seq!['k', 'i', 'b'], 1024nat),
        (seq!['t', 'b'], 1000000000000nat),
        (seq!['g', 'b'], 1000000000nat),
        (seq!['m', 'b'], 1000000nat),
        (seq!['k', 'b'], 1000nat),
        (seq!['b'], 1nat),
    ]
}

pub open spec fn duration_units() -> Seq<(Seq<char>, nat)> {
    seq![(seq!['d'], 86400nat), (seq!['h'], 3600nat), (seq!['m'], 60nat), (seq!['s'], 1nat)]
}

pub open spec fn ends_with(s: Seq<char>, suffix: Seq<char>) -> bool {
    suffix.len() <= s.len() && s.subrange(s.len() - suffix.len(), s.len() as int) == suffix
}

/// The first unit of the table whose suffix ends `s`.
pub open spec fn first_unit(s: Seq<char>, units: Seq<(Seq<char>, nat)>) -> Option<(Seq<char>, nat)>
    decreases units.len(),
{
    if units.len() == 0 {
        None
    } else if ends_with(s, units[0].0) {
        Some(units[0])
    } else {
        first_unit(s, units.drop_first())
    }
}

/// The value of a quantity with the given unit table, or `None` where the
/// text is not one.
pub open spec fn quantity_value(s: Seq<char>, units: Seq<(Seq<char>, nat)>) -> Option<int> {
    let t = trim(s);
    if t.len() == 0 {
        Some(0)
    } else {
        let lower = lower_ascii_seq(t);
        match first_unit(lower, units) {
            Some(u) => {
                let num = trim(lower.subrange(0, lower.len() - u.0.len()));
                scaled_number(num, u.1)
            },
            None => integer_literal(lower),
        }
    }
}

/// Bytes denoted by a size text.
pub open spec fn size_value(s: Seq<char>) -> Option<int> {
    quantity_value(s, size_units())
}

/// Seconds denoted by a duration text.
pub open spec fn duration_value(s: Seq<char>) -> Option<int> {
    quantity_value(s, duration_units())
}

/// The text of `format!("{:?}", s)` for a string slice.
pub uninterp spec fn debug_quoted(s: Seq<char>) -> Seq<char>;

/// `format!("{:?}", s)`: std's debug rendering of a string slice, quoted and
/// escaped. The contract names the text and says no more of it.
#[verifier::external_body]
fn debug_text(s: &str) -> (r: String)
    ensures
        r@ == debug_quoted(s@),
{
    format!("{:?}", s)
}

// ─── Lemmas ─────────────────────────────────────────────────────────────────

proof fn lemma_pow10_positive(n: nat)
    ensures
        pow10(n) >= 1,
    decreases n,
{
    if n > 0 {
        lemma_pow10_positive((n - 1) as nat);
    }
}

proof fn lemma_digits_value_bound(s: Seq<char>)
    requires
        all_digits(s),
    ensures
        digits_value(s) < pow10(s.len()),
    decreases s.len(),
{
    if s.len() > 0 {
        let init = s.drop_last();
        assert(all_digits(init)) by {
            assert forall|i: int| 0 <= i < init.len() implies is_digit(#[trigger] init[i]) by {
                assert(init[i] == s[i]);
            }
        }
        lemma_digits_value_bound(init);
        assert(is_digit(s[s.len() - 1]));
        assert(digits_value(init) + 1 <= pow10(init.len()));
        assert(digits_value(s) < pow10(s.len())) by (nonlinear_arith)
            requires
                digits_value(s) == digits_value(init) * 10 + digit_value(s.last()),
                digit_value(s.last()) < 10,
                digits_value(init) + 1 <= pow10(init.len()),
                pow10(s.len()) == 10 * pow10(init.len()),
        ;
    }
}

/// Splitting off the leading digit: `d rest = d * 10^|rest| + rest`.
proof fn lemma_digits_value_front(s: Seq<char>)
    requires
        s.len() > 0,
    ensures
        digits_value(s) == digit_value(s[0]) * pow10((s.len() - 1) as nat) + digits_value(
            s.drop_first(),
        ),
    decreases s.len(),
{
    if s.len() == 1 {
        assert(s.drop_last().len() == 0);
        assert(s.drop_first().len() == 0);
        assert(digits_value(s.drop_last()) == 0);
        assert(digits_value(s.drop_first()) == 0);
        assert(digits_value(s) == digit_value(s.last()));
        assert(s.last() == s[0]);
        assert(pow10(0) == 1);
    } else {
        let init = s.drop_last();
        lemma_digits_value_front(init);
        assert(init[0] == s[0]);
        assert(init.drop_first() =~= s.drop_first().drop_last());
        assert(s.drop_first().last() == s.last());
        let a = digit_value(s[0]);
        let p = pow10((init.len() - 1) as nat);
        assert(pow10((s.len() - 1) as nat) == 10 * p);
        assert(digits_value(s) == (a * p + digits_value(init.drop_first())) * 10 + digit_value(
            s.last(),
        ));
        assert((a * p + digits_value(init.drop_first())) * 10 == a * (10 * p) + digits_value(
            init.drop_first(),
        ) * 10) by (nonlinear_arith);
        assert(digits_value(s.drop_first()) == digits_value(s.drop_first().drop_last()) * 10
            + digit_value(s.drop_first().last()));
    }
}

proof fn lemma_index_of_skip(s: Seq<char>, c: char, i: int)
    requires
        0 <= i <= s.len(),
        forall|k: int| 0 <= k < i ==> #[trigger] s[k] != c,
    ensures
        index_of(s, c) == i + index_of(s.subrange(i, s.len() as int), c),
    decreases i,
{
    if i == 0 {
        assert(s.subrange(0, s.len() as int) =~= s);
    } else {
        lemma_index_of_skip(s.drop_first(), c, i - 1);
        assert(s.drop_first().subrange(i - 1, s.drop_first().len() as int) =~= s.subrange(
            i,
            s.len() as int,
        ));
    }
}

proof fn lemma_first_unit_skip(s: Seq<char>, units: Seq<(Seq<char>, nat)>, k: int)
    requires
        0 <= k < units.len(),
        !ends_with(s, units[k].0),
    ensures
        first_unit(s, units.subrange(k, units.len() as int)) == first_unit(
            s,
            units.subrange(k + 1, units.len() as int),
        ),
{
    assert(units.subrange(k, units.len() as int).drop_first() =~= units.subrange(
        k + 1,
        units.len() as int,
    ));
}


/// `((i*d + f) * m) / d == i*m + (f*m) / d`.
proof fn lemma_scaled_split(i: nat, f: nat, m: nat, d: nat)
    requires
        d > 0,
    ensures
        ((i * d + f) * m) / d == i * m + (f * m) / d,
{
    assert((i * d + f) * m == f * m + (i * m) * d) by (nonlinear_arith);
    lemma_hoist_over_denominator((f * m) as int, (i * m) as int, d);
}

/// One step of the right-to-left evaluation of `floor(0.fp * m)`.
proof fn lemma_fraction_step(rest: Seq<char>, c: char, m: nat, t: nat)
    requires
        all_digits(rest),
        is_digit(c),
        t == (digits_value(rest) * m) / pow10(rest.len()),
    ensures
        (digit_value(c) * m + t) / 10 == (digits_value(seq![c] + rest) * m) / pow10((rest.len() + 1) as nat),
{
    let full = seq![c] + rest;
    assert(full.drop_first() =~= rest);
    assert(full[0] == c);
    lemma_digits_value_front(full);
    let p = pow10(rest.len());
    lemma_pow10_positive(rest.len());
    assert(pow10((rest.len() + 1) as nat) == 10 * p);
    let x = digits_value(full) * m;
    lemma_div_denominator(x as int, p as int, 10);
    assert(p * 10 == 10 * p) by (nonlinear_arith);
    lemma_scaled_split(digit_value(c), digits_value(rest), m, p);
}

/// The fraction part stays below one unit of the multiplier.
proof fn lemma_fraction_bound(rest: Seq<char>, m: nat)
    requires
        all_digits(rest),
        m > 0,
    ensures
        (digits_value(rest) * m) / pow10(rest.len()) < m,
{
    lemma_digits_value_bound(rest);
    let v = digits_value(rest);
    let p = pow10(rest.len());
    assert(v * m < p * m) by (nonlinear_arith)
        requires
            v < p,
            m > 0,
    ;
    lemma_multiply_divide_lt((v * m) as int, p as int, m as int);
}

proof fn lemma_cap_product(i: nat, m: nat, cap: nat)
    requires
        m >= 1,
    ensures
        (if i < cap { i } else { cap }) * m >= cap ==> i * m >= cap,
        i * m >= cap ==> (if i < cap { i } else { cap }) * m >= cap,
        (if i < cap { i } else { cap }) * m < cap ==> (if i < cap { i } else { cap }) * m == i * m,
{
    if i >= cap {
        assert(cap * m >= cap) by (nonlinear_arith)
            requires
                m >= 1,
        ;
        assert(i * m >= cap * m) by (nonlinear_arith)
            requires
                i >= cap,
        ;
    }
}

// ─── Executable pieces ──────────────────────────────────────────────────────

fn is_digit_char(c: char) -> (b: bool)
    ensures
        b == is_digit(c),
{
    '0' <= c && c <= '9'
}

fn digit_of(c: char) -> (d: u64)
    requires
        is_digit(c),
    ensures
        d == digit_value(c),
        d < 10,
{
    let u: u32 = c as u32;
    (u - 48) as u64
}

fn digits_all(s: &Vec<char>, from: usize, to: usize) -> (b: bool)
    requires
        from <= to <= s@.len(),
    ensures
        b == all_digits(s@.subrange(from as int, to as int)),
{
    let mut k = from;
    while k < to
        invariant
            from <= k <= to <= s@.len(),
            forall|i: int| from <= i < k ==> is_digit(#[trigger] s@[i]),
        decreases to - k,
    {
        if !is_digit_char(s[k]) {
            assert(s@.subrange(from as int, to as int)[k - from] == s@[k as int]);
            return false;
        }
        k = k + 1;
    }
    assert forall|i: int| 0 <= i < to - from implies is_digit(
        #[trigger] s@.subrange(from as int, to as int)[i],
    ) by {
        assert(s@.subrange(from as int, to as int)[i] == s@[from + i]);
    }
    true
}

/// `i64::from_str` on a character sequence.
fn parse_integer(s: &Vec<char>) -> (r: Option<i64>)
    ensures
        integer_literal(s@) == match r {
            Some(v) => Some(v as int),
            None => None::<int>,
        },
{
    let n = s.len();
    let mut start: usize = 0;
    let mut neg = false;
    if n > 0 && s[0] == '-' {
        start = 1;
        neg = true;
    } else if n > 0 && s[0] == '+' {
        start = 1;
    }
    let ghost body = s@.subrange(start as int, n as int);
    assert(sign_split(s@) == (neg, body)) by {
        if start == 1 {
            assert(s@.drop_first() =~= body);
        } else {
            assert(s@ =~= body);
        }
    }
    if start == n || !digits_all(s, start, n) {
        return None;
    }
    // Accumulate, capped just above the largest magnitude an i64 can take.
    let cap: u128 = 0x8000_0000_0000_0001u128;
    let mut acc: u128 = 0;
    let mut k = start;
    while k < n
        invariant
            start <= k <= n,
            n == s@.len(),
            body == s@.subrange(start as int, n as int),
            all_digits(body),
            cap == 0x8000_0000_0000_0001u128,
            acc as int == if digits_value(s@.subrange(start as int, k as int)) < cap {
                digits_value(s@.subrange(start as int, k as int)) as int
            } else {
                cap as int
            },
        decreases n - k,
    {
        assert(is_digit(body[k - start]));
        let d = digit_of(s[k]);
        let ghost prev = s@.subrange(start as int, k as int);
        let ghost next = s@.subrange(start as int, k + 1);
        assert(next.drop_last() =~= prev);
        assert(digits_value(next) == digits_value(prev) * 10 + d);
        let t = acc * 10 + (d as u128);
        acc = if t < cap {
            t
        } else {
            cap
        };
        k = k + 1;
    }
    assert(s@.subrange(start as int, n as int) =~= body);
    if neg {
        if acc > 0x8000_0000_0000_0000u128 {
            None
        } else if acc == 0x8000_0000_0000_0000u128 {
            Some(i64::MIN)
        } else {
            Some(-(acc as i64))
        }
    } else {
        if acc > 0x7fff_ffff_ffff_ffffu128 {
            None
        } else {
            Some(acc as i64)
        }
    }
}


/// `digits_value(a + b) == digits_value(a) * 10^|b| + digits_value(b)`.
proof fn lemma_digits_value_concat(a: Seq<char>, b: Seq<char>)
    ensures
        digits_value(a + b) == digits_value(a) * pow10(b.len()) + digits_value(b),
    decreases b.len(),
{
    if b.len() == 0 {
        assert(a + b =~= a);
        assert(digits_value(b) == 0);
        assert(pow10(0) == 1);
        assert(digits_value(a) * 1 == digits_value(a));
    } else {
        lemma_digits_value_concat(a, b.drop_last());
        assert(digits_value(a + b) == digits_value((a + b).drop_last()) * 10 + digit_value(
            (a + b).last(),
        ));
        assert(digits_value(b) == digits_value(b.drop_last()) * 10 + digit_value(b.last()));
        assert((a + b).drop_last() =~= a + b.drop_last());
        assert((a + b).last() == b.last());
        let x = digits_value(a);
        let p = pow10(b.drop_last().len());
        let y = digits_value(b.drop_last());
        assert(pow10(b.len()) == 10 * p);
        assert((x * p + y) * 10 + digit_value(b.last()) == x * (10 * p) + (y * 10 + digit_value(
            b.last(),
        ))) by (nonlinear_arith);
    }
}

proof fn lemma_pow10_add(a: nat, b: nat)
    ensures
        pow10(a + b) == pow10(a) * pow10(b),
    decreases b,
{
    if b > 0 {
        lemma_pow10_add(a, (b - 1) as nat);
        assert(pow10(a + b) == 10 * pow10((a + b - 1) as nat));
        assert(10 * (pow10(a) * pow10((b - 1) as nat)) == pow10(a) * (10 * pow10((b - 1) as nat)))
            by (nonlinear_arith);
    } else {
        assert(pow10(a) * 1 == pow10(a));
    }
}

proof fn lemma_pow10_monotone(a: nat, b: nat)
    requires
        a <= b,
    ensures
        pow10(a) <= pow10(b),
    decreases b,
{
    if a < b {
        lemma_pow10_monotone(a, (b - 1) as nat);
        lemma_pow10_positive((b - 1) as nat);
    }
}

proof fn lemma_pow10_20()
    ensures
        pow10(20) == 100000000000000000000nat,
        pow10(14) == 100000000000000nat,
        pow10(13) == 10000000000000nat,
{
    reveal_with_fuel(pow10, 21);
}

/// `min(min(x, c) * 10, c) == min(x * 10, c)`.
proof fn lemma_cap_times_ten(x: nat, c: nat)
    ensures
        (if (if x < c { x } else { c }) * 10 < c { (if x < c { x } else { c }) * 10 } else { c })
            == (if x * 10 < c { x * 10 } else { c }),
{
}

// The largest magnitude an `i64` cast can produce.
spec fn cap63() -> nat {
    0x8000_0000_0000_0000
}

spec fn min_cap(x: nat, c: nat) -> nat {
    if x < c {
        x
    } else {
        c
    }
}

fn sign_of(s: &Vec<char>) -> (r: (bool, usize))
    ensures
        r.1 <= s@.len(),
        sign_split(s@) == (r.0, s@.subrange(r.1 as int, s@.len() as int)),
{
    let n = s.len();
    if n > 0 && s[0] == '-' {
        assert(s@.drop_first() =~= s@.subrange(1, n as int));
        (true, 1)
    } else if n > 0 && s[0] == '+' {
        assert(s@.drop_first() =~= s@.subrange(1, n as int));
        (false, 1)
    } else {
        assert(s@ =~= s@.subrange(0, n as int));
        (false, 0)
    }
}

fn slice_chars(s: &Vec<char>, from: usize, to: usize) -> (r: Vec<char>)
    requires
        from <= to <= s@.len(),
    ensures
        r@ == s@.subrange(from as int, to as int),
{
    let mut r: Vec<char> = Vec::new();
    let mut k = from;
    while k < to
        invariant
            from <= k <= to <= s@.len(),
            r@ == s@.subrange(from as int, k as int),
        decreases to - k,
    {
        r.push(s[k]);
        assert(s@.subrange(from as int, k + 1) =~= s@.subrange(from as int, k as int).push(
            s@[k as int],
        ));
        k = k + 1;
    }
    r
}

/// The index of the first `c` in `s[from..to]`, or `to`.
fn find_char(s: &Vec<char>, from: usize, to: usize, c: char) -> (i: usize)
    requires
        from <= to <= s@.len(),
    ensures
        from <= i <= to,
        index_of(s@.subrange(from as int, to as int), c) == i - from,
{
    let mut i = from;
    while i < to && s[i] != c
        invariant
            from <= i <= to <= s@.len(),
            forall|k: int| from <= k < i ==> #[trigger] s@[k] != c,
        decreases to - i,
    {
        i = i + 1;
    }
    proof {
        let sub = s@.subrange(from as int, to as int);
        assert forall|k: int| 0 <= k < i - from implies #[trigger] sub[k] != c by {
            assert(sub[k] == s@[from + k]);
        }
        lemma_index_of_skip(sub, c, i - from);
        let tail = sub.subrange(i - from, sub.len() as int);
        if i < to {
            assert(tail[0] == s@[i as int]);
        }
        assert(index_of(tail, c) == 0);
    }
    i
}

/// `min(digits_value(s[from..to]), 2^63)`.
fn capped_digits(s: &Vec<char>, from: usize, to: usize) -> (v: u128)
    requires
        from <= to <= s@.len(),
        all_digits(s@.subrange(from as int, to as int)),
    ensures
        v as nat == min_cap(digits_value(s@.subrange(from as int, to as int)), cap63()),
{
    let cap: u128 = 0x8000_0000_0000_0000u128;
    let ghost whole = s@.subrange(from as int, to as int);
    let mut acc: u128 = 0;
    let mut k = from;
    assert(s@.subrange(from as int, from as int).len() == 0);
    while k < to
        invariant
            from <= k <= to <= s@.len(),
            whole == s@.subrange(from as int, to as int),
            all_digits(whole),
            cap == 0x8000_0000_0000_0000u128,
            acc as nat == min_cap(digits_value(s@.subrange(from as int, k as int)), cap63()),
        decreases to - k,
    {
        assert(is_digit(whole[k - from]));
        let d = digit_of(s[k]);
        let ghost prev = s@.subrange(from as int, k as int);
        let ghost next = s@.subrange(from as int, k + 1);
        assert(next.drop_last() =~= prev);
        assert(digits_value(next) == digits_value(prev) * 10 + d);
        let t = acc * 10 + (d as u128);
        acc = if t < cap {
            t
        } else {
            cap
        };
        k = k + 1;
    }
    acc
}

/// `floor(digits_value(s[from..to]) * m / 10^(to - from))`, which is below `m`.
fn floor_fraction(s: &Vec<char>, from: usize, to: usize, m: u64) -> (t: u128)
    requires
        from <= to <= s@.len(),
        all_digits(s@.subrange(from as int, to as int)),
        1 <= m <= 1099511627776,
    ensures
        t as nat == (digits_value(s@.subrange(from as int, to as int)) * (m as nat)) / pow10(
            (to - from) as nat,
        ),
        t < m,
{
    let ghost fp = s@.subrange(from as int, to as int);
    let mm = m as u128;
    let mut t: u128 = 0;
    let mut j = to;
    assert(digits_value(s@.subrange(to as int, to as int)) == 0);
    assert(pow10(0) == 1);
    while j > from
        invariant
            from <= j <= to <= s@.len(),
            fp == s@.subrange(from as int, to as int),
            all_digits(fp),
            1 <= mm <= 1099511627776u128,
            mm == m,
            t as int == (digits_value(s@.subrange(j as int, to as int)) * (m as nat)) / pow10(
                (to - j) as nat,
            ),
            t < mm,
        decreases j,
    {
        let ghost rest = s@.subrange(j as int, to as int);
        j = j - 1;
        let c = s[j];
        assert(c == fp[j - from]);
        let d = digit_of(c);
        assert(all_digits(rest)) by {
            assert forall|i: int| 0 <= i < rest.len() implies is_digit(#[trigger] rest[i]) by {
                assert(rest[i] == fp[j + 1 - from + i]);
            }
        }
        assert(s@.subrange(j as int, to as int) =~= seq![c] + rest);
        proof {
            lemma_fraction_step(rest, c, m as nat, t as nat);
            assert(all_digits(seq![c] + rest)) by {
                assert forall|i: int| 0 <= i < rest.len() + 1 implies is_digit(
                    #[trigger] (seq![c] + rest)[i],
                ) by {
                    if i > 0 {
                        assert((seq![c] + rest)[i] == rest[i - 1]);
                    }
                }
            }
            lemma_fraction_bound(seq![c] + rest, m as nat);
        }
        t = (d as u128 * mm + t) / 10;
    }
    t
}

/// The exponent `[+-]digits` in `s[from..to]`: its sign and its magnitude
/// capped at 2^65.
fn parse_exponent(s: &Vec<char>, from: usize, to: usize) -> (r: Option<(bool, u128)>)
    requires
        from <= to <= s@.len(),
    ensures
        match r {
            None => exponent_literal(s@.subrange(from as int, to as int)) is None,
            Some(x) => exponent_literal(s@.subrange(from as int, to as int)) matches Some(v) && x.0
                == (v < 0) && x.1 as nat == min_cap(
                (if v < 0 {
                    -v
                } else {
                    v
                }) as nat,
                0x2_0000_0000_0000_0000nat,
            ),
        },
{
    let sub = slice_chars(s, from, to);
    let (neg, start) = sign_of(&sub);
    let n = sub.len();
    if start == n || !digits_all(&sub, start, n) {
        return None;
    }
    let ghost d = sub@.subrange(start as int, n as int);
    let cap: u128 = 0x2_0000_0000_0000_0000u128;
    let mut acc: u128 = 0;
    let mut k = start;
    while k < n
        invariant
            start <= k <= n,
            n == sub@.len(),
            d == sub@.subrange(start as int, n as int),
            all_digits(d),
            cap == 0x2_0000_0000_0000_0000u128,
            acc as nat == min_cap(
                digits_value(sub@.subrange(start as int, k as int)),
                0x2_0000_0000_0000_0000nat,
            ),
        decreases n - k,
    {
        assert(is_digit(d[k - start]));
        let dg = digit_of(sub[k]);
        let ghost prev = sub@.subrange(start as int, k as int);
        let ghost next = sub@.subrange(start as int, k + 1);
        assert(next.drop_last() =~= prev);
        assert(digits_value(next) == digits_value(prev) * 10 + dg);
        let t = acc * 10 + (dg as u128);
        acc = if t < cap {
            t
        } else {
            cap
        };
        k = k + 1;
    }
    assert(sub@.subrange(start as int, n as int) =~= d);
    let neg_value = neg && acc > 0;
    proof {
        if neg && acc == 0 {
            assert(digits_value(d) == 0);
        }
    }
    Some((neg_value, acc))
}

/// Appends the characters of `b` to those of `a`.
fn join_chars(a: Vec<char>, b: &Vec<char>) -> (r: Vec<char>)
    ensures
        r@ == a@ + b@,
{
    let mut r = a;
    let ghost a0 = r@;
    let n = b.len();
    for k in 0..n
        invariant
            n == b@.len(),
            r@ == a0 + b@.subrange(0, k as int),
    {
        r.push(b[k]);
        assert(b@.subrange(0, k + 1) =~= b@.subrange(0, k as int).push(b@[k as int]));
    }
    assert(b@.subrange(0, n as int) =~= b@);
    r
}

/// `floor(d * m * 10^e)` capped at 2^63, for `e >= 0`, from `min(d * m, 2^63)`.
fn scale_up(dm: u128, e: u128, Ghost(x): Ghost<nat>) -> (a: u128)
    requires
        dm as nat == min_cap(x, cap63()),
    ensures
        a as nat == min_cap(x * pow10(e as nat), cap63()),
{
    let cap: u128 = 0x8000_0000_0000_0000u128;
    if dm == 0 {
        assert(x == 0);
        assert(x * pow10(e as nat) == 0);
        return 0;
    }
    if e >= 20 {
        proof {
            lemma_pow10_monotone(20, e as nat);
            lemma_pow10_20();
            assert(x * pow10(e as nat) >= pow10(e as nat)) by (nonlinear_arith)
                requires
                    x >= 1,
            ;
        }
        return cap;
    }
    let mut acc = dm;
    let mut j: u128 = 0;
    assert(pow10(0) == 1);
    while j < e
        invariant
            j <= e < 20,
            cap == 0x8000_0000_0000_0000u128,
            acc as nat == min_cap(x * pow10(j as nat), cap63()),
        decreases e - j,
    {
        proof {
            lemma_cap_times_ten(x * pow10(j as nat), cap63());
            assert(pow10((j + 1) as nat) == 10 * pow10(j as nat));
            assert(x * pow10(j as nat) * 10 == x * pow10((j + 1) as nat)) by (nonlinear_arith)
                requires
                    pow10((j + 1) as nat) == 10 * pow10(j as nat),
            ;
        }
        let t = acc * 10;
        acc = if t < cap {
            t
        } else {
            cap
        };
        j = j + 1;
    }
    acc
}

/// The number `f64::from_str` reads in `s`, times `m`, truncated toward zero
/// and saturated to `i64`; `None` where `s` is not such a number.
fn scale_number(s: &Vec<char>, m: u64) -> (r: Option<i64>)
    requires
        1 <= m <= 1099511627776,
    ensures
        scaled_number(s@, m as nat) == match r {
            Some(v) => Some(v as int),
            None => None::<int>,
        },
{
    let (neg, start) = sign_of(s);
    let n = s.len();
    let body = slice_chars(s, start, n);
    let text = string_from_chars(&body);
    if str_eq(text.as_str(), "inf") || str_eq(text.as_str(), "infinity") {
        return Some(
            if neg {
                i64::MIN
            } else {
                i64::MAX
            },
        );
    }
    if str_eq(text.as_str(), "nan") {
        return Some(0);
    }
    let bn = body.len();
    let e = find_char(&body, 0, bn, 'e');
    let p = find_char(&body, 0, e, '.');
    assert(body@.subrange(0, bn as int) =~= body@);
    let ghost mant = body@.subrange(0, e as int);
    assert(mant.subrange(0, e as int) =~= mant);
    assert(body@.subrange(0, e as int).subrange(0, p as int) =~= body@.subrange(0, p as int));
    let fs = if p < e {
        p + 1
    } else {
        e
    };
    let ghost ip = body@.subrange(0, p as int);
    let ghost fp = body@.subrange(fs as int, e as int);
    proof {
        if p < e {
            assert(mant.subrange(p + 1, mant.len() as int) =~= fp);
        } else {
            assert(fp =~= Seq::<char>::empty());
        }
    }
    if !(digits_all(&body, 0, p) && digits_all(&body, fs, e) && p + (e - fs) > 0) {
        return None;
    }
    let (eneg, emag) = if e < bn {
        assert(body@.subrange(e + 1, bn as int) == body@.subrange(e + 1, body@.len() as int));
        match parse_exponent(&body, e + 1, bn) {
            None => {
                return None;
            },
            Some(x) => x,
        }
    } else {
        (false, 0u128)
    };
    let ghost xv: int = if e < bn {
        exponent_literal(body@.subrange(e + 1, bn as int))->0
    } else {
        0
    };
    assert(finite_literal(s@) == Some((neg, ip + fp, xv - fp.len())));
    let ipv = slice_chars(&body, 0, p);
    let fpv = slice_chars(&body, fs, e);
    let dv = join_chars(ipv, &fpv);
    let ghost digits = dv@;
    assert(all_digits(digits)) by {
        assert forall|i: int| 0 <= i < digits.len() implies is_digit(#[trigger] digits[i]) by {
            if i < ip.len() {
                assert(digits[i] == ip[i]);
            } else {
                assert(digits[i] == fp[i - ip.len()]);
            }
        }
    }
    let nf = e - fs;
    let cap: u128 = 0x8000_0000_0000_0000u128;
    proof {
        if e < bn {
            assert(eneg == (xv < 0));
        }
    }
    let a = magnitude(&dv, eneg, emag, nf, m, Ghost(xv));
    if neg {
        if a == cap {
            Some(i64::MIN)
        } else {
            Some(-(a as i64))
        }
    } else {
        if a == cap {
            Some(i64::MAX)
        } else {
            Some(a as i64)
        }
    }
}

/// `min(floor(D * m / 10^k), 2^63)` for the digits `dv` spelling `D`.
#[verifier::rlimit(30)]
fn scale_down(dv: &Vec<char>, k: u128, m: u64) -> (a: u128)
    requires
        all_digits(dv@),
        1 <= m <= 1099511627776,
    ensures
        a as nat == min_cap((digits_value(dv@) * (m as nat)) / pow10(k as nat), cap63()),
{
    let ghost digits = dv@;
    let ghost dval = digits_value(digits);
    let big_l = dv.len();
    assert(dv@.subrange(0, big_l as int) =~= dv@);
    let cap: u128 = 0x8000_0000_0000_0000u128;
    let mm = m as u128;
    if k <= big_l as u128 {
        let split = big_l - (k as usize);
        let hc = capped_digits(dv, 0, split);
        assert(hc * mm <= 0x8000_0000_0000_0000u128 * 1099511627776u128) by (nonlinear_arith)
            requires
                hc <= 0x8000_0000_0000_0000u128,
                mm <= 1099511627776u128,
        ;
        let h_raw = hc * mm;
        let whole = if h_raw < cap {
            h_raw
        } else {
            cap
        };
        let t = floor_fraction(dv, split, big_l, m);
        let total = whole + t;
        proof {
            let hi = digits.subrange(0, split as int);
            let lo = digits.subrange(split as int, big_l as int);
            assert(hi + lo =~= digits);
            lemma_digits_value_concat(hi, lo);
            assert(lo.len() == k);
            lemma_cap_product(digits_value(hi), m as nat, cap63());
            lemma_pow10_positive(k as nat);
            lemma_scaled_split(digits_value(hi), digits_value(lo), m as nat, pow10(k as nat));
        }
        if total < cap {
            total
        } else {
            cap
        }
    } else {
        let t = floor_fraction(dv, 0, big_l, m);
        let r: u128 = k - (big_l as u128);
        proof {
            lemma_pow10_add(big_l as nat, r as nat);
            lemma_pow10_positive(big_l as nat);
            lemma_pow10_positive(r as nat);
            lemma_div_denominator(
                (dval * (m as nat)) as int,
                pow10(big_l as nat) as int,
                pow10(r as nat) as int,
            );
            assert((big_l + r) as nat == k as nat);
        }
        let u = divide_by_power(t, r, m);
        u
    }
}

/// `t / 10^r` for `t < m <= 2^40`.
fn divide_by_power(t: u128, r: u128, m: u64) -> (u: u128)
    requires
        t < m,
        m <= 1099511627776,
    ensures
        u as nat == (t as nat) / pow10(r as nat),
        u < 0x8000_0000_0000_0000u128,
{
    if r >= 14 {
        proof {
            lemma_pow10_monotone(14, r as nat);
            lemma_pow10_20();
            lemma_basic_div_specific(t as nat, pow10(r as nat));
        }
        return 0;
    }
    let mut u = t;
    let mut j: u128 = 0;
    assert(pow10(0) == 1);
    while j < r
        invariant
            j <= r < 14,
            t < m <= 1099511627776,
            u as nat == (t as nat) / pow10(j as nat),
            u <= t,
        decreases r - j,
    {
        proof {
            lemma_pow10_positive(j as nat);
            lemma_div_denominator(t as int, pow10(j as nat) as int, 10);
            assert(pow10((j + 1) as nat) == 10 * pow10(j as nat));
            assert(pow10(j as nat) * 10 == 10 * pow10(j as nat));
        }
        u = u / 10;
        j = j + 1;
    }
    u
}

/// The magnitude when the exponent's size is at least 2^65: zero or
/// saturated, whatever the digits.
fn huge_exponent_magnitude(dv: &Vec<char>, eneg: bool, nf: usize, m: u64, Ghost(xv): Ghost<int>) -> (a:
    u128)
    requires
        all_digits(dv@),
        1 <= m <= 1099511627776,
        eneg == (xv < 0),
        (if xv < 0 {
            -xv
        } else {
            xv
        }) >= 0x2_0000_0000_0000_0000int,
    ensures
        a as nat == min_cap(scaled_magnitude(digits_value(dv@), xv - nf, m as nat), cap63()),
{
    let ghost digits = dv@;
    let ghost dval = digits_value(digits);
    let ghost ev = xv - nf;
    let big_l = dv.len();
    assert(dv@.subrange(0, big_l as int) =~= dv@);
    if eneg {
        proof {
            let k = (-ev) as nat;
            assert(big_l < 0x1_0000_0000_0000_0000int);
            assert(k >= digits.len() + 13);
            lemma_digits_value_bound(digits);
            lemma_pow10_20();
            lemma_pow10_add(digits.len(), 13);
            lemma_pow10_monotone(digits.len() + 13, k);
            lemma_pow10_positive(digits.len());
            assert(dval * (m as nat) < pow10(digits.len()) * pow10(13)) by (nonlinear_arith)
                requires
                    dval < pow10(digits.len()),
                    (m as nat) < pow10(13),
            ;
            lemma_basic_div_specific(dval * (m as nat), pow10(k));
            assert(scaled_magnitude(dval, ev, m as nat) == 0);
            assert(0 == min_cap(scaled_magnitude(digits_value(dv@), xv - nf, m as nat), cap63()));
        }
        0
    } else {
        let dc = capped_digits(dv, 0, big_l);
        if dc == 0 {
            assert(dval == 0);
            assert(ev >= 0);
            assert(dval * (m as nat) * pow10(ev as nat) == 0) by (nonlinear_arith)
                requires
                    dval == 0,
            ;
            assert(0 == min_cap(scaled_magnitude(digits_value(dv@), xv - nf, m as nat), cap63()));
            0
        } else {
            proof {
                let k = ev as nat;
                assert(ev >= 20);
                lemma_pow10_monotone(20, k);
                lemma_pow10_20();
                assert(dval * (m as nat) * pow10(k) >= pow10(k)) by (nonlinear_arith)
                    requires
                        dval >= 1,
                        m >= 1,
                ;
                assert(cap63() == min_cap(scaled_magnitude(digits_value(dv@), xv - nf, m as nat), cap63()));
            }
            0x8000_0000_0000_0000u128
        }
    }
}

/// `min(floor(D * 10^(x - nf) * m), 2^63)` for the digits `dv` spelling `D`
/// and an exponent `x` given by its sign and its magnitude capped at 2^65.
fn magnitude(dv: &Vec<char>, eneg: bool, emag: u128, nf: usize, m: u64, Ghost(xv): Ghost<int>) -> (a:
    u128)
    requires
        all_digits(dv@),
        1 <= m <= 1099511627776,
        eneg == (xv < 0),
        emag as nat == min_cap(
            (if xv < 0 {
                -xv
            } else {
                xv
            }) as nat,
            0x2_0000_0000_0000_0000nat,
        ),
    ensures
        a as nat == min_cap(scaled_magnitude(digits_value(dv@), xv - nf, m as nat), cap63()),
{
    let ghost dval = digits_value(dv@);
    if emag == 0x2_0000_0000_0000_0000u128 {
        return huge_exponent_magnitude(dv, eneg, nf, m, Ghost(xv));
    }
    let ex: i128 = if eneg {
        -(emag as i128)
    } else {
        emag as i128
    };
    assert(ex == xv);
    let big_e: i128 = ex - (nf as i128);
    if big_e >= 0 {
        let big_l = dv.len();
        assert(dv@.subrange(0, big_l as int) =~= dv@);
        let dc = capped_digits(dv, 0, big_l);
        let mm = m as u128;
        let cap: u128 = 0x8000_0000_0000_0000u128;
        assert(dc * mm <= 0x8000_0000_0000_0000u128 * 1099511627776u128) by (nonlinear_arith)
            requires
                dc <= 0x8000_0000_0000_0000u128,
                mm <= 1099511627776u128,
        ;
        let dm_raw = dc * mm;
        let dm = if dm_raw < cap {
            dm_raw
        } else {
            cap
        };
        proof {
            lemma_cap_product(dval, m as nat, cap63());
        }
        scale_up(dm, big_e as u128, Ghost(dval * (m as nat)))
    } else {
        let k: u128 = (-big_e) as u128;
        scale_down(dv, k, m)
    }
}

/// `x < d ==> x / d == 0`.
proof fn lemma_basic_div_specific(x: nat, d: nat)
    requires
        x < d,
    ensures
        x / d == 0,
{
    lemma_basic_div(x as int, d as int);
}

// ─── Unit tables ────────────────────────────────────────────────────────────

/// An executable unit table agrees with its specification.
pub open spec fn table_matches(table: Seq<(Vec<char>, u64)>, units: Seq<(Seq<char>, nat)>) -> bool {
    &&& table.len() == units.len()
    &&& forall|k: int|
        #![trigger table[k]]
        0 <= k < table.len() ==> table[k].0@ == units[k].0 && table[k].1 as nat == units[k].1
}

pub open spec fn multipliers_in_range(units: Seq<(Seq<char>, nat)>) -> bool {
    forall|k: int| 0 <= k < units.len() ==> 1 <= #[trigger] units[k].1 <= 1099511627776
}

fn word1(a: char) -> (v: Vec<char>)
    ensures
        v@ == seq![a],
{
    let mut v: Vec<char> = Vec::new();
    v.push(a);
    v
}

fn word2(a: char, b: char) -> (v: Vec<char>)
    ensures
        v@ == seq![a, b],
{
    let mut v = word1(a);
    v.push(b);
    v
}

fn word3(a: char, b: char, c: char) -> (v: Vec<char>)
    ensures
        v@ == seq![a, b, c],
{
    let mut v = word2(a, b);
    v.push(c);
    v
}

fn size_table() -> (t: Vec<(Vec<char>, u64)>)
    ensures
        table_matches(t@, size_units()),
{
    let mut t: Vec<(Vec<char>, u64)> = Vec::new();
    t.push((word3('t', 'i', 'b'), 1099511627776u64));
    t.push((word3('g', 'i', 'b'), 1073741824u64));
    t.push((word3('m', 'i', 'b'), 1048576u64));
    t.push((word3('k', 'i', 'b'), 1024u64));
    t.push((word2('t', 'b'), 1000000000000u64));
    t.push((word2('g', 'b'), 1000000000u64));
    t.push((word2('m', 'b'), 1000000u64));
    t.push((word2('k', 'b'), 1000u64));
    t.push((word1('b'), 1u64));
    assert(table_matches(t@, size_units()));
    t
}

fn duration_table() -> (t: Vec<(Vec<char>, u64)>)
    ensures
        table_matches(t@, duration_units()),
{
    let mut t: Vec<(Vec<char>, u64)> = Vec::new();
    t.push((word1('d'), 86400u64));
    t.push((word1('h'), 3600u64));
    t.push((word1('m'), 60u64));
    t.push((word1('s'), 1u64));
    assert(table_matches(t@, duration_units()));
    t
}

fn ends_with_chars(s: &Vec<char>, suffix: &Vec<char>) -> (b: bool)
    ensures
        b == ends_with(s@, suffix@),
{
    let n = s.len();
    let m = suffix.len();
    if m > n {
        return false;
    }
    let base = n - m;
    for k in 0..m
        invariant
            n == s@.len(),
            m == suffix@.len(),
            base == n - m,
            forall|i: int| 0 <= i < k ==> s@[base + i] == #[trigger] suffix@[i],
    {
        if s[base + k] != suffix[k] {
            assert(s@.subrange(base as int, n as int)[k as int] != suffix@[k as int]);
            return false;
        }
    }
    assert(s@.subrange(base as int, n as int) =~= suffix@);
    true
}

fn take_chars(s: &Vec<char>, n: usize) -> (r: Vec<char>)
    requires
        n <= s@.len(),
    ensures
        r@ == s@.subrange(0, n as int),
{
    let mut r: Vec<char> = Vec::new();
    for k in 0..n
        invariant
            n <= s@.len(),
            r@ == s@.subrange(0, k as int),
    {
        r.push(s[k]);
        assert(s@.subrange(0, k + 1) =~= s@.subrange(0, k as int).push(s@[k as int]));
    }
    r
}

/// Evaluates a quantity against a unit table.
fn quantity(s: &str, table: &Vec<(Vec<char>, u64)>, Ghost(units): Ghost<Seq<(Seq<char>, nat)>>) -> (r:
    Option<i64>)
    requires
        table_matches(table@, units),
        multipliers_in_range(units),
    ensures
        quantity_value(s@, units) == match r {
            Some(v) => Some(v as int),
            None => None::<int>,
        },
{
    let cs = chars_of(s);
    let t = trim_chars(&cs);
    if t.len() == 0 {
        return Some(0);
    }
    let lower = lower_ascii_chars(&t);
    let n = table.len();
    let mut k: usize = 0;
    assert(units.subrange(0, n as int) =~= units);
    while k < n
        invariant
            k <= n,
            n == table@.len(),
            table_matches(table@, units),
            multipliers_in_range(units),
            first_unit(lower@, units) == first_unit(lower@, units.subrange(k as int, n as int)),
            trim(s@).len() > 0,
            lower@ == lower_ascii_seq(trim(s@)),
        decreases n - k,
    {
        let entry = &table[k];
        assert(*entry == table@[k as int]);
        assert(entry.0@ == units[k as int].0 && entry.1 as nat == units[k as int].1);
        if ends_with_chars(&lower, &entry.0) {
            assert(units.subrange(k as int, n as int)[0] == units[k as int]);
            assert(first_unit(lower@, units.subrange(k as int, n as int)) == Some(units[k as int]));
            assert(first_unit(lower@, units) == Some(units[k as int]));
            let num = trim_chars(&take_chars(&lower, lower.len() - entry.0.len()));
            assert(1 <= units[k as int].1 <= 1099511627776);
            let r = scale_number(&num, entry.1);
            assert(num@ == trim(lower@.subrange(0, lower@.len() - units[k as int].0.len())));
            assert(entry.1 as nat == units[k as int].1);
            return r;
        }
        proof {
            lemma_first_unit_skip(lower@, units, k as int);
        }
        k = k + 1;
    }
    assert(units.subrange(n as int, n as int).len() == 0);
    parse_integer(&lower)
}

/// The message of the error for a text that is not a quantity.
pub open spec fn invalid_message(kind: Seq<char>, s: Seq<char>) -> Seq<char> {
    kind + debug_quoted(trim(s))
}

fn invalid_quantity(kind: &str, s: &str) -> (e: Error)
    ensures
        e matches Error::Parse(m) && m@ == invalid_message(kind@, s@),
{
    let t = string_from_chars(&trim_chars(&chars_of(s)));
    let shown = debug_text(t.as_str());
    Error::Parse(concat(kind, shown.as_str()))
}

/// Parses a size into bytes. Suffixes (case-insensitive): B / KB / MB / GB /
/// TB (powers of 1000) and KiB / MiB / GiB / TiB (powers of 1024); a bare
/// integer is a count of bytes and an empty text is zero.
pub fn parse_size(s: &str) -> (r: Result<i64, Error>)
    ensures
        match r {
            Ok(v) => size_value(s@) == Some(v as int),
            Err(e) => size_value(s@) is None && (e matches Error::Parse(m) && m@ == invalid_message(
                "invalid size: "@,
                s@,
            )),
        },
{
    let table = size_table();
    match quantity(s, &table, Ghost(size_units())) {
        Some(v) => Ok(v),
        None => Err(invalid_quantity("invalid size: ", s)),
    }
}

/// Parses a duration into seconds. Suffixes: s / m / h / d (case-insensitive);
/// a bare integer is a count of seconds and an empty text is zero.
pub fn parse_duration(s: &str) -> (r: Result<i64, Error>)
    ensures
        match r {
            Ok(v) => duration_value(s@) == Some(v as int),
            Err(e) => duration_value(s@) is None && (e matches Error::Parse(m) && m@
                == invalid_message("invalid duration: "@, s@)),
        },
{
    let table = duration_table();
    match quantity(s, &table, Ghost(duration_units())) {
        Some(v) => Ok(v),
        None => Err(invalid_quantity("invalid duration: ", s)),
    }
}

/// What `u64::from_str` accepts: an optional `+`, at least one digit, and a
/// value in range.
pub open spec fn unsigned_literal(s: Seq<char>) -> Option<nat> {
    let body = if s.len() > 0 && s[0] == '+' {
        s.drop_first()
    } else {
        s
    };
    if body.len() > 0 && all_digits(body) && digits_value(body) <= u64::MAX {
        Some(digits_value(body))
    } else {
        None
    }
}

/// `s.parse::<u64>().ok()`.
pub fn parse_unsigned(s: &str) -> (r: Option<u64>)
    ensures
        unsigned_literal(s@) == match r {
            Some(v) => Some(v as nat),
            None => None::<nat>,
        },
{
    let cs = chars_of(s);
    let n = cs.len();
    let start: usize = if n > 0 && cs[0] == '+' {
        1
    } else {
        0
    };
    let ghost body = cs@.subrange(start as int, n as int);
    assert(body == if cs@.len() > 0 && cs@[0] == '+' {
        cs@.drop_first()
    } else {
        cs@
    });
    if start == n || !digits_all(&cs, start, n) {
        return None;
    }
    let cap: u128 = 0x1_0000_0000_0000_0000u128;
    let mut acc: u128 = 0;
    let mut k = start;
    while k < n
        invariant
            start <= k <= n,
            n == cs@.len(),
            body == cs@.subrange(start as int, n as int),
            all_digits(body),
            cap == 0x1_0000_0000_0000_0000u128,
            acc as int == if digits_value(cs@.subrange(start as int, k as int)) < cap {
                digits_value(cs@.subrange(start as int, k as int)) as int
            } else {
                cap as int
            },
        decreases n - k,
    {
        assert(is_digit(body[k - start]));
        let d = digit_of(cs[k]);
        let ghost prev = cs@.subrange(start as int, k as int);
        let ghost next = cs@.subrange(start as int, k + 1);
        assert(next.drop_last() =~= prev);
        assert(digits_value(next) == digits_value(prev) * 10 + d);
        let t = acc * 10 + (d as u128);
        acc = if t < cap {
            t
        } else {
            cap
        };
        k = k + 1;
    }
    assert(cs@.subrange(start as int, n as int) =~= body);
    if acc >= cap {
        None
    } else {
        Some(acc as u64)
    }
}

// ─── Laws ───────────────────────────────────────────────────────────────────

proof fn lemma_no_ws_trim(s: Seq<char>)
    requires
        forall|i: int| 0 <= i < s.len() ==> !is_ws(#[trigger] s[i]),
    ensures
        trim(s) == s,
{
    if s.len() > 0 {
        assert(!is_ws(s[0]));
        assert(!is_ws(s[s.len() - 1]));
    }
    assert(trim_start(s) == s);
}

proof fn lemma_lower_fixed(s: Seq<char>)
    requires
        forall|i: int| 0 <= i < s.len() ==> !('A' <= #[trigger] s[i] && s[i] <= 'Z'),
    ensures
        lower_ascii_seq(s) == s,
{
    assert(lower_ascii_seq(s) =~= s);
}

proof fn lemma_index_of_absent(s: Seq<char>, c: char)
    requires
        forall|i: int| 0 <= i < s.len() ==> #[trigger] s[i] != c,
    ensures
        index_of(s, c) == s.len(),
    decreases s.len(),
{
    if s.len() > 0 {
        assert forall|i: int| 0 <= i < s.drop_first().len() implies #[trigger] s.drop_first()[i]
            != c by {
            assert(s.drop_first()[i] == s[i + 1]);
        }
        lemma_index_of_absent(s.drop_first(), c);
    }
}

/// A digit string is a number with no fraction and no exponent.
proof fn lemma_digits_number(d: Seq<char>, m: nat)
    requires
        d.len() > 0,
        all_digits(d),
    ensures
        scaled_number(d, m) == Some(saturate(false, digits_value(d) * m)),
{
    reveal_strlit("inf");
    reveal_strlit("infinity");
    reveal_strlit("nan");
    assert(is_digit(d[0]));
    assert(sign_split(d) == (false, d));
    assert(d[0] != "inf"@[0]);
    assert(d[0] != "infinity"@[0]);
    assert(d[0] != "nan"@[0]);
    assert forall|i: int| 0 <= i < d.len() implies #[trigger] d[i] != '.' && d[i] != 'e' by {
        assert(is_digit(d[i]));
    }
    lemma_index_of_absent(d, 'e');
    lemma_index_of_absent(d, '.');
    assert(d.subrange(0, d.len() as int) =~= d);
    assert(d + Seq::<char>::empty() =~= d);
    assert(finite_literal(d) == Some((false, d, 0int)));
    assert(pow10(0) == 1);
    assert(digits_value(d) * m * 1 == digits_value(d) * m) by (nonlinear_arith);
}

proof fn lemma_not_ends_with(s: Seq<char>, suffix: Seq<char>, i: int)
    requires
        suffix.len() <= s.len(),
        0 <= i < suffix.len(),
        s[s.len() - suffix.len() + i] != suffix[i],
    ensures
        !ends_with(s, suffix),
{
    if ends_with(s, suffix) {
        assert(s.subrange(s.len() - suffix.len(), s.len() as int)[i] == suffix[i]);
    }
}

proof fn lemma_first_unit_skip_many(s: Seq<char>, units: Seq<(Seq<char>, nat)>, j: int, k: int)
    requires
        0 <= j <= k < units.len(),
        forall|t: int| j <= t < k ==> !ends_with(s, #[trigger] units[t].0),
    ensures
        first_unit(s, units.subrange(j, units.len() as int)) == first_unit(
            s,
            units.subrange(k, units.len() as int),
        ),
    decreases k - j,
{
    if j < k {
        lemma_first_unit_skip(s, units, j);
        lemma_first_unit_skip_many(s, units, j + 1, k);
    }
}

/// A size written as digits followed by one of the units is the number
/// times the unit, saturated at `i64::MAX` ("4GiB" is 4 << 30 bytes).
pub proof fn lemma_size_digits_with_unit(d: Seq<char>, k: int)
    requires
        d.len() > 0,
        all_digits(d),
        0 <= k < size_units().len(),
    ensures
        size_value(d + size_units()[k].0) == Some(
            saturate(false, digits_value(d) * size_units()[k].1),
        ),
{
    let units = size_units();
    let suf = units[k].0;
    let m = units[k].1;
    let s = d + suf;
    let n = s.len();
    assert forall|i: int| 0 <= i < n implies !is_ws(#[trigger] s[i]) && !('A' <= s[i] && s[i]
        <= 'Z') by {
        if i < d.len() {
            assert(is_digit(d[i]));
        }
    }
    lemma_no_ws_trim(s);
    lemma_lower_fixed(s);
    assert(is_digit(s[n - suf.len() - 1]));
    assert(s.subrange(n - suf.len(), n as int) =~= suf);
    // No earlier unit of the table ends `s`.
    assert forall|j: int| 0 <= j < k implies !ends_with(s, #[trigger] units[j].0) by {
        let u = units[j].0;
        if u.len() <= n {
            if k <= 3 {
                lemma_not_ends_with(s, u, 0);
            } else if j <= 3 {
                if k <= 7 {
                    lemma_not_ends_with(s, u, 1);
                } else {
                    lemma_not_ends_with(s, u, 1);
                }
            } else {
                lemma_not_ends_with(s, u, 0);
            }
        }
    }
    lemma_first_unit_skip_many(s, units, 0, k);
    assert(units.subrange(0, 9) =~= units);
    assert(units.subrange(k, 9)[0] == units[k]);
    assert(first_unit(s, units) == Some(units[k]));
    assert(s.subrange(0, n - suf.len()) =~= d);
    assert forall|i: int| 0 <= i < d.len() implies !is_ws(#[trigger] d[i]) by {
        assert(is_digit(d[i]));
    }
    lemma_no_ws_trim(d);
    lemma_digits_number(d, m);
}

proof fn lemma_quantity_plain_digits(d: Seq<char>, units: Seq<(Seq<char>, nat)>)
    requires
        d.len() > 0,
        all_digits(d),
        forall|j: int|
            0 <= j < units.len() ==> (#[trigger] units[j].0).len() > 0 && !is_digit(
                units[j].0.last(),
            ),
    ensures
        quantity_value(d, units) == if digits_value(d) <= i64::MAX {
            Some(digits_value(d) as int)
        } else {
            None
        },
{
    assert forall|i: int| 0 <= i < d.len() implies !is_ws(#[trigger] d[i]) && !('A' <= d[i] && d[i]
        <= 'Z') by {
        assert(is_digit(d[i]));
    }
    lemma_no_ws_trim(d);
    lemma_lower_fixed(d);
    assert forall|j: int| 0 <= j < units.len() implies !ends_with(d, #[trigger] units[j].0) by {
        let u = units[j].0;
        if u.len() <= d.len() {
            assert(is_digit(d[d.len() - 1]));
            lemma_not_ends_with(d, u, u.len() - 1);
        }
    }
    lemma_first_unit_none(d, units);
    assert(is_digit(d[0]));
    assert(sign_split(d) == (false, d));
}

proof fn lemma_first_unit_none(s: Seq<char>, units: Seq<(Seq<char>, nat)>)
    requires
        forall|j: int| 0 <= j < units.len() ==> !ends_with(s, #[trigger] units[j].0),
    ensures
        first_unit(s, units) is None,
    decreases units.len(),
{
    if units.len() > 0 {
        assert forall|j: int| 0 <= j < units.drop_first().len() implies !ends_with(
            s,
            #[trigger] units.drop_first()[j].0,
        ) by {
            assert(units.drop_first()[j] == units[j + 1]);
        }
        lemma_first_unit_none(s, units.drop_first());
    }
}

/// A bare number of bytes is an `i64` literal: a digit string denotes its
/// value, when that fits in `i64`.
pub proof fn lemma_size_plain_digits(d: Seq<char>)
    requires
        d.len() > 0,
        all_digits(d),
        digits_value(d) <= i64::MAX,
    ensures
        size_value(d) == Some(digits_value(d) as int),
{
    lemma_quantity_plain_digits(d, size_units());
}

/// A bare number of seconds is an `i64` literal: a digit string denotes its
/// value, when that fits in `i64`.
pub proof fn lemma_duration_plain_digits(d: Seq<char>)
    requires
        d.len() > 0,
        all_digits(d),
        digits_value(d) <= i64::MAX,
    ensures
        duration_value(d) == Some(digits_value(d) as int),
{
    lemma_quantity_plain_digits(d, duration_units());
}

/// A duration written as digits followed by one of the units is the number
/// times the unit's seconds, saturated at `i64::MAX` ("30m" is 1800).
pub proof fn lemma_duration_digits_with_unit(d: Seq<char>, k: int)
    requires
        d.len() > 0,
        all_digits(d),
        0 <= k < duration_units().len(),
    ensures
        duration_value(d + duration_units()[k].0) == Some(
            saturate(false, digits_value(d) * duration_units()[k].1),
        ),
{
    let units = duration_units();
    let suf = units[k].0;
    let m = units[k].1;
    let s = d + suf;
    let n = s.len();
    assert forall|i: int| 0 <= i < n implies !is_ws(#[trigger] s[i]) && !('A' <= s[i] && s[i]
        <= 'Z') by {
        if i < d.len() {
            assert(is_digit(d[i]));
        }
    }
    lemma_no_ws_trim(s);
    lemma_lower_fixed(s);
    assert(s.subrange(n - suf.len(), n as int) =~= suf);
    assert forall|j: int| 0 <= j < k implies !ends_with(s, #[trigger] units[j].0) by {
        lemma_not_ends_with(s, units[j].0, 0);
    }
    lemma_first_unit_skip_many(s, units, 0, k);
    assert(units.subrange(0, 4) =~= units);
    assert(units.subrange(k, 4)[0] == units[k]);
    assert(first_unit(s, units) == Some(units[k]));
    assert(s.subrange(0, n - suf.len()) =~= d);
    assert forall|i: int| 0 <= i < d.len() implies !is_ws(#[trigger] d[i]) by {
        assert(is_digit(d[i]));
    }
    lemma_no_ws_trim(d);
    lemma_digits_number(d, m);
}

proof fn lemma_trim_start_shape(s: Seq<char>)
    ensures
        trim_start(s).len() <= s.len(),
        trim_start(s) == s.subrange(s.len() - trim_start(s).len(), s.len() as int),
        trim_start(s).len() > 0 ==> !is_ws(trim_start(s)[0]),
        forall|i: int| 0 <= i < s.len() - trim_start(s).len() ==> is_ws(#[trigger] s[i]),
    decreases s.len(),
{
    if s.len() > 0 && is_ws(s[0]) {
        lemma_trim_start_shape(s.drop_first());
        assert forall|i: int| 0 <= i < s.len() - trim_start(s).len() implies is_ws(#[trigger] s[i]) by {
            if i > 0 {
                assert(s[i] == s.drop_first()[i - 1]);
            }
        }
        assert(s.drop_first().subrange(
            s.drop_first().len() - trim_start(s).len(),
            s.drop_first().len() as int,
        ) =~= s.subrange(s.len() - trim_start(s).len(), s.len() as int));
    } else {
        assert(s.subrange(0, s.len() as int) =~= s);
    }
}

proof fn lemma_trim_end_shape(s: Seq<char>)
    ensures
        trim_end(s).len() <= s.len(),
        trim_end(s) == s.subrange(0, trim_end(s).len() as int),
        trim_end(s).len() > 0 ==> !is_ws(trim_end(s).last()),
        forall|i: int| trim_end(s).len() <= i < s.len() ==> is_ws(#[trigger] s[i]),
    decreases s.len(),
{
    if s.len() > 0 && is_ws(s.last()) {
        lemma_trim_end_shape(s.drop_last());
        assert forall|i: int| trim_end(s).len() <= i < s.len() implies is_ws(#[trigger] s[i]) by {
            if i < s.len() - 1 {
                assert(s[i] == s.drop_last()[i]);
            }
        }
        assert(s.drop_last().subrange(0, trim_end(s).len() as int) =~= s.subrange(
            0,
            trim_end(s).len() as int,
        ));
    } else {
        assert(s.subrange(0, s.len() as int) =~= s);
    }
}

proof fn lemma_trim_idempotent(s: Seq<char>)
    ensures
        trim(trim(s)) == trim(s),
{
    let t = trim_start(s);
    let u = trim_end(t);
    lemma_trim_start_shape(s);
    lemma_trim_end_shape(t);
    if u.len() > 0 {
        assert(u[0] == t[0]);
    }
    assert(trim_start(u) == u);
    assert(trim_end(u) == u);
}

/// Whitespace around a quantity does not matter.
pub proof fn lemma_quantity_ignores_surrounding_space(s: Seq<char>, units: Seq<(Seq<char>, nat)>)
    ensures
        quantity_value(trim(s), units) == quantity_value(s, units),
{
    lemma_trim_idempotent(s);
}

proof fn lemma_lower_preserves_ws(c: char)
    ensures
        is_ws(lower_ascii(c)) == is_ws(c),
{
}

proof fn lemma_trim_start_lower(s: Seq<char>)
    ensures
        trim_start(lower_ascii_seq(s)) == lower_ascii_seq(trim_start(s)),
    decreases s.len(),
{
    let l = lower_ascii_seq(s);
    if s.len() > 0 {
        lemma_lower_preserves_ws(s[0]);
        assert(l[0] == lower_ascii(s[0]));
        if is_ws(s[0]) {
            assert(l.drop_first() =~= lower_ascii_seq(s.drop_first()));
            lemma_trim_start_lower(s.drop_first());
        }
    }
}

proof fn lemma_trim_end_lower(s: Seq<char>)
    ensures
        trim_end(lower_ascii_seq(s)) == lower_ascii_seq(trim_end(s)),
    decreases s.len(),
{
    let l = lower_ascii_seq(s);
    if s.len() > 0 {
        lemma_lower_preserves_ws(s.last());
        assert(l.last() == lower_ascii(s.last()));
        if is_ws(s.last()) {
            assert(l.drop_last() =~= lower_ascii_seq(s.drop_last()));
            lemma_trim_end_lower(s.drop_last());
        }
    }
}

/// Quantities are read without regard to ASCII case ("4gib" is "4GiB").
pub proof fn lemma_quantity_ignores_case(s: Seq<char>, units: Seq<(Seq<char>, nat)>)
    ensures
        quantity_value(lower_ascii_seq(s), units) == quantity_value(s, units),
{
    lemma_trim_start_lower(s);
    lemma_trim_end_lower(trim_start(s));
    let t = trim(s);
    assert(trim(lower_ascii_seq(s)) == lower_ascii_seq(t));
    assert(lower_ascii_seq(lower_ascii_seq(t)) =~= lower_ascii_seq(t));
}

/// A whole number of digits, with or without a leading `+`, is read as its
/// value exactly when that fits in `u64`; nothing else is a number.
pub proof fn lemma_unsigned_digits(d: Seq<char>)
    requires
        d.len() > 0,
        all_digits(d),
    ensures
        digits_value(d) <= u64::MAX ==> unsigned_literal(d) == Some(digits_value(d)),
        digits_value(d) <= u64::MAX ==> unsigned_literal(seq!['+'] + d) == Some(digits_value(d)),
        digits_value(d) > u64::MAX ==> unsigned_literal(d) is None,
        unsigned_literal(Seq::<char>::empty()) is None,
        unsigned_literal(seq!['-'] + d) is None,
{
    assert(is_digit(d[0]));
    assert((seq!['+'] + d).drop_first() =~= d);
    let m = seq!['-'] + d;
    assert(m[0] == '-');
    assert(!is_digit('-'));
}

/// The decimal text of a number is a digit string that reads back as the
/// number, with no leading zero (but for 0 itself, written "0").
pub proof fn lemma_decimal_reads_back(n: nat)
    ensures
        decimal(n).len() > 0,
        all_digits(decimal(n)),
        digits_value(decimal(n)) == n,
        n > 0 ==> decimal(n)[0] != '0',
        n == 0 ==> decimal(n) == seq!['0'],
    decreases n,
{
    let r = n % 10;
    assert(((r + 48) as u32) as char as int == r + 48);
    assert(digit_value(digit_char(r)) == r);
    if n < 10 {
        assert(decimal(n).drop_last() =~= Seq::<char>::empty());
        assert(decimal(n).last() == digit_char(r));
        assert(((0nat + 48) as u32) as char == '0');
        assert(digits_value(Seq::<char>::empty()) == 0);
        assert(digits_value(decimal(n)) == digits_value(decimal(n).drop_last()) * 10 + digit_value(decimal(n).last()));
    } else {
        lemma_decimal_reads_back(n / 10);
        let d = decimal(n);
        assert(d.drop_last() == decimal(n / 10));
        assert(d.last() == digit_char(r));
        assert(digits_value(d) == digits_value(d.drop_last()) * 10 + digit_value(d.last()));
        lemma_fundamental_div_mod(n as int, 10);
        assert(d[0] == decimal(n / 10)[0]);
        assert forall|i: int| 0 <= i < d.len() implies is_digit(#[trigger] d[i]) by {
            if i < d.len() - 1 {
                assert(d[i] == decimal(n / 10)[i]);
            }
        }
    }
}

/// What each size unit is worth: KiB, MiB, GiB and TiB are powers of 1024,
/// KB, MB, GB and TB powers of 1000, and B one byte; a whole number with a
/// unit is the number times its worth, saturated at `i64::MAX`.
pub proof fn lemma_size_unit_worth(d: Seq<char>)
    requires
        d.len() > 0,
        all_digits(d),
    ensures
        size_value(d + "tib"@) == Some(saturate(false, digits_value(d) * 1099511627776)),
        size_value(d + "gib"@) == Some(saturate(false, digits_value(d) * 1073741824)),
        size_value(d + "mib"@) == Some(saturate(false, digits_value(d) * 1048576)),
        size_value(d + "kib"@) == Some(saturate(false, digits_value(d) * 1024)),
        size_value(d + "tb"@) == Some(saturate(false, digits_value(d) * 1000000000000)),
        size_value(d + "gb"@) == Some(saturate(false, digits_value(d) * 1000000000)),
        size_value(d + "mb"@) == Some(saturate(false, digits_value(d) * 1000000)),
        size_value(d + "kb"@) == Some(saturate(false, digits_value(d) * 1000)),
        size_value(d + "b"@) == Some(saturate(false, digits_value(d) * 1)),
{
    reveal_strlit("tib");
    assert("tib"@ =~= size_units()[0].0);
    lemma_size_digits_with_unit(d, 0);
    reveal_strlit("gib");
    assert("gib"@ =~= size_units()[1].0);
    lemma_size_digits_with_unit(d, 1);
    reveal_strlit("mib");
    assert("mib"@ =~= size_units()[2].0);
    lemma_size_digits_with_unit(d, 2);
    reveal_strlit("kib");
    assert("kib"@ =~= size_units()[3].0);
    lemma_size_digits_with_unit(d, 3);
    reveal_strlit("tb");
    assert("tb"@ =~= size_units()[4].0);
    lemma_size_digits_with_unit(d, 4);
    reveal_strlit("gb");
    assert("gb"@ =~= size_units()[5].0);
    lemma_size_digits_with_unit(d, 5);
    reveal_strlit("mb");
    assert("mb"@ =~= size_units()[6].0);
    lemma_size_digits_with_unit(d, 6);
    reveal_strlit("kb");
    assert("kb"@ =~= size_units()[7].0);
    lemma_size_digits_with_unit(d, 7);
    reveal_strlit("b");
    assert("b"@ =~= size_units()[8].0);
    lemma_size_digits_with_unit(d, 8);
}

/// What each duration unit is worth in seconds: a day 86400, an hour 3600,
/// a minute 60, a second 1; a whole number with a unit is the number times
/// its worth, saturated at `i64::MAX`.
pub proof fn lemma_duration_unit_worth(d: Seq<char>)
    requires
        d.len() > 0,
        all_digits(d),
    ensures
        duration_value(d + "d"@) == Some(saturate(false, digits_value(d) * 86400)),
        duration_value(d + "h"@) == Some(saturate(false, digits_value(d) * 3600)),
        duration_value(d + "m"@) == Some(saturate(false, digits_value(d) * 60)),
        duration_value(d + "s"@) == Some(saturate(false, digits_value(d) * 1)),
{
    reveal_strlit("d");
    assert("d"@ =~= duration_units()[0].0);
    lemma_duration_digits_with_unit(d, 0);
    reveal_strlit("h");
    assert("h"@ =~= duration_units()[1].0);
    lemma_duration_digits_with_unit(d, 1);
    reveal_strlit("m");
    assert("m"@ =~= duration_units()[2].0);
    lemma_duration_digits_with_unit(d, 2);
    reveal_strlit("s");
    assert("s"@ =~= duration_units()[3].0);
    lemma_duration_digits_with_unit(d, 3);
}

/// Only digits, after at most one leading `+`, are read as an unsigned
/// number: no sign `-`, no space, no point.
pub proof fn lemma_unsigned_only_digits(s: Seq<char>)
    ensures
        unsigned_literal(s) is Some ==> s.len() > 0 && (is_digit(s[0]) || (s[0] == '+' && s.len()
            > 1)) && forall|i: int| 0 < i < s.len() ==> is_digit(#[trigger] s[i]),
{
    if unsigned_literal(s) is Some {
        if s[0] == '+' {
            assert forall|i: int| 0 < i < s.len() implies is_digit(#[trigger] s[i]) by {
                assert(s[i] == s.drop_first()[i - 1]);
            }
        } else {
            assert forall|i: int| 0 < i < s.len() implies is_digit(#[trigger] s[i]) by {}
        }
    }
}

proof fn lemma_fraction_number(ip: Seq<char>, fp: Seq<char>, m: nat)
    requires
        all_digits(ip),
        all_digits(fp),
        ip.len() + fp.len() > 0,
    ensures
        scaled_number(ip + seq!['.'] + fp, m) == Some(
            saturate(false, (digits_value(ip + fp) * m) / pow10(fp.len())),
        ),
{
    reveal_strlit("inf");
    reveal_strlit("infinity");
    reveal_strlit("nan");
    let num = ip + seq!['.'] + fp;
    let a = ip.len() as int;
    assert(num[a] == '.');
    assert forall|i: int| 0 <= i < num.len() implies is_digit(#[trigger] num[i]) || num[i] == '.' by {
        if i < a {
            assert(num[i] == ip[i]);
        } else if i > a {
            assert(num[i] == fp[i - a - 1]);
        }
    }
    assert(is_digit(num[0]) || num[0] == '.');
    assert(sign_split(num) == (false, num));
    assert(num[0] != "inf"@[0]);
    assert(num[0] != "infinity"@[0]);
    assert(num[0] != "nan"@[0]);
    assert forall|i: int| 0 <= i < num.len() implies #[trigger] num[i] != 'e' by {
        assert(is_digit(num[i]) || num[i] == '.');
    }
    lemma_index_of_absent(num, 'e');
    assert(num.subrange(0, num.len() as int) =~= num);
    assert forall|k: int| 0 <= k < a implies #[trigger] num[k] != '.' by {
        assert(num[k] == ip[k]);
        assert(is_digit(ip[k]));
    }
    lemma_index_of_skip(num, '.', a);
    assert(num.subrange(a, num.len() as int)[0] == '.');
    assert(index_of(num, '.') == a);
    assert(num.subrange(0, a) =~= ip);
    assert(num.subrange(a + 1, num.len() as int) =~= fp);
    assert(finite_literal(num) == Some((false, ip + fp, 0 - fp.len())));
    let d = digits_value(ip + fp);
    if fp.len() == 0 {
        assert(pow10(0) == 1);
        assert(d * m * 1 == d * m) by (nonlinear_arith);
        assert((d * m) / 1 == d * m);
    }
}

proof fn lemma_size_unit_found(x: Seq<char>, k: int)
    requires
        x.len() > 0,
        forall|i: int| 0 <= i < x.len() ==> is_digit(#[trigger] x[i]) || x[i] == '.',
        0 <= k < size_units().len(),
    ensures
        size_value(x + size_units()[k].0) == scaled_number(x, size_units()[k].1),
{
    let units = size_units();
    let suf = units[k].0;
    let s = x + suf;
    let n = s.len();
    assert forall|i: int| 0 <= i < n implies !is_ws(#[trigger] s[i]) && !('A' <= s[i] && s[i]
        <= 'Z') by {
        if i < x.len() {
            assert(is_digit(x[i]) || x[i] == '.');
        }
    }
    lemma_no_ws_trim(s);
    lemma_lower_fixed(s);
    assert(s[n - suf.len() - 1] == x[x.len() - 1]);
    assert(is_digit(s[n - suf.len() - 1]) || s[n - suf.len() - 1] == '.');
    assert(s.subrange(n - suf.len(), n as int) =~= suf);
    assert forall|j: int| 0 <= j < k implies !ends_with(s, #[trigger] units[j].0) by {
        let u = units[j].0;
        if u.len() <= n {
            if k <= 3 {
                lemma_not_ends_with(s, u, 0);
            } else if j <= 3 {
                lemma_not_ends_with(s, u, 1);
            } else {
                lemma_not_ends_with(s, u, 0);
            }
        }
    }
    lemma_first_unit_skip_many(s, units, 0, k);
    assert(units.subrange(0, 9) =~= units);
    assert(units.subrange(k, 9)[0] == units[k]);
    assert(first_unit(s, units) == Some(units[k]));
    assert(s.subrange(0, n - suf.len()) =~= x);
    assert forall|i: int| 0 <= i < x.len() implies !is_ws(#[trigger] x[i]) by {
        assert(is_digit(x[i]) || x[i] == '.');
    }
    lemma_no_ws_trim(x);
}

/// A size with a fraction, `ip.fp` followed by a unit, is the exact decimal
/// times the unit, truncated toward zero and saturated at `i64::MAX`
/// ("1.5GiB" is 1610612736 bytes, "0.5KiB" 512).
pub proof fn lemma_size_fraction_with_unit(ip: Seq<char>, fp: Seq<char>, k: int)
    requires
        all_digits(ip),
        all_digits(fp),
        ip.len() + fp.len() > 0,
        0 <= k < size_units().len(),
    ensures
        size_value(ip + seq!['.'] + fp + size_units()[k].0) == Some(
            saturate(false, (digits_value(ip + fp) * size_units()[k].1) / pow10(fp.len())),
        ),
{
    let x = ip + seq!['.'] + fp;
    assert forall|i: int| 0 <= i < x.len() implies is_digit(#[trigger] x[i]) || x[i] == '.' by {
        if i < ip.len() {
            assert(x[i] == ip[i]);
        } else if i > ip.len() {
            assert(x[i] == fp[i - ip.len() - 1]);
        }
    }
    lemma_size_unit_found(x, k);
    lemma_fraction_number(ip, fp, size_units()[k].1);
}

proof fn lemma_duration_unit_found(x: Seq<char>, k: int)
    requires
        x.len() > 0,
        forall|i: int| 0 <= i < x.len() ==> is_digit(#[trigger] x[i]) || x[i] == '.',
        0 <= k < duration_units().len(),
    ensures
        duration_value(x + duration_units()[k].0) == scaled_number(x, duration_units()[k].1),
{
    let units = duration_units();
    let suf = units[k].0;
    let s = x + suf;
    let n = s.len();
    assert forall|i: int| 0 <= i < n implies !is_ws(#[trigger] s[i]) && !('A' <= s[i] && s[i]
        <= 'Z') by {
        if i < x.len() {
            assert(is_digit(x[i]) || x[i] == '.');
        }
    }
    lemma_no_ws_trim(s);
    lemma_lower_fixed(s);
    assert(s.subrange(n - suf.len(), n as int) =~= suf);
    assert forall|j: int| 0 <= j < k implies !ends_with(s, #[trigger] units[j].0) by {
        lemma_not_ends_with(s, units[j].0, 0);
    }
    lemma_first_unit_skip_many(s, units, 0, k);
    assert(units.subrange(0, 4) =~= units);
    assert(units.subrange(k, 4)[0] == units[k]);
    assert(first_unit(s, units) == Some(units[k]));
    assert(s.subrange(0, n - suf.len()) =~= x);
    assert forall|i: int| 0 <= i < x.len() implies !is_ws(#[trigger] x[i]) by {
        assert(is_digit(x[i]) || x[i] == '.');
    }
    lemma_no_ws_trim(x);
}

/// A duration with a fraction, `ip.fp` followed by a unit, is the exact
/// decimal times the unit's seconds, truncated toward zero and saturated at
/// `i64::MAX` ("1.5h" is 5400 seconds).
pub proof fn lemma_duration_fraction_with_unit(ip: Seq<char>, fp: Seq<char>, k: int)
    requires
        all_digits(ip),
        all_digits(fp),
        ip.len() + fp.len() > 0,
        0 <= k < duration_units().len(),
    ensures
        duration_value(ip + seq!['.'] + fp + duration_units()[k].0) == Some(
            saturate(false, (digits_value(ip + fp) * duration_units()[k].1) / pow10(fp.len())),
        ),
{
    let x = ip + seq!['.'] + fp;
    assert forall|i: int| 0 <= i < x.len() implies is_digit(#[trigger] x[i]) || x[i] == '.' by {
        if i < ip.len() {
            assert(x[i] == ip[i]);
        } else if i > ip.len() {
            assert(x[i] == fp[i - ip.len() - 1]);
        }
    }
    lemma_duration_unit_found(x, k);
    lemma_fraction_number(ip, fp, duration_units()[k].1);
}

} // verus!
