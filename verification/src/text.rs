//! Character-level helpers shared by the parsers and path builders.

use vstd::prelude::*;

verus! {

/// Unicode `White_Space`, the property that `char::is_whitespace` tests.
pub open spec fn is_ws(c: char) -> bool {
    ||| ('\u{9}' <= c && c <= '\u{d}')
    ||| c == ' '
    ||| c == '\u{85}'
    ||| c == '\u{a0}'
    ||| c == '\u{1680}'
    ||| ('\u{2000}' <= c && c <= '\u{200a}')
    ||| c == '\u{2028}'
    ||| c == '\u{2029}'
    ||| c == '\u{202f}'
    ||| c == '\u{205f}'
    ||| c == '\u{3000}'
}

/// Drops leading whitespace.
pub open spec fn trim_start(s: Seq<char>) -> Seq<char>
    decreases s.len(),
{
    if s.len() > 0 && is_ws(s[0]) {
        trim_start(s.drop_first())
    } else {
        s
    }
}

/// Drops trailing whitespace.
pub open spec fn trim_end(s: Seq<char>) -> Seq<char>
    decreases s.len(),
{
    if s.len() > 0 && is_ws(s.last()) {
        trim_end(s.drop_last())
    } else {
        s
    }
}

/// `str::trim`: whitespace removed from both ends.
pub open spec fn trim(s: Seq<char>) -> Seq<char> {
    trim_end(trim_start(s))
}

pub fn is_whitespace(c: char) -> (b: bool)
    ensures
        b == is_ws(c),
{
    ('\u{9}' <= c && c <= '\u{d}') || c == ' ' || c == '\u{85}' || c == '\u{a0}' || c
        == '\u{1680}' || ('\u{2000}' <= c && c <= '\u{200a}') || c == '\u{2028}' || c
        == '\u{2029}' || c == '\u{202f}' || c == '\u{205f}' || c == '\u{3000}'
}

/// The characters of `s`, in order.
pub fn chars_of(s: &str) -> (v: Vec<char>)
    ensures
        v@ == s@,
{
    let mut v: Vec<char> = Vec::new();
    for c in it: s.chars()
        invariant
            v@ == it.seq().take(it.index() as int),
            it.seq() == s@,
    {
        v.push(c);
    }
    v
}


proof fn lemma_trim_start_skip(s: Seq<char>, i: int)
    requires
        0 <= i <= s.len(),
        forall|k: int| 0 <= k < i ==> is_ws(#[trigger] s[k]),
    ensures
        trim_start(s) == trim_start(s.subrange(i, s.len() as int)),
    decreases i,
{
    if i == 0 {
        assert(s.subrange(0, s.len() as int) =~= s);
    } else {
        lemma_trim_start_skip(s.drop_first(), i - 1);
        assert(s.drop_first().subrange(i - 1, s.drop_first().len() as int) =~= s.subrange(
            i,
            s.len() as int,
        ));
    }
}

proof fn lemma_trim_end_skip(s: Seq<char>, j: int)
    requires
        0 <= j <= s.len(),
        forall|k: int| j <= k < s.len() ==> is_ws(#[trigger] s[k]),
    ensures
        trim_end(s) == trim_end(s.subrange(0, j)),
    decreases s.len() - j,
{
    if j == s.len() {
        assert(s.subrange(0, j) =~= s);
    } else {
        lemma_trim_end_skip(s.drop_last(), j);
        assert(s.drop_last().subrange(0, j) =~= s.subrange(0, j));
    }
}

/// `str::trim` on a character sequence.
pub fn trim_chars(s: &Vec<char>) -> (r: Vec<char>)
    ensures
        r@ == trim(s@),
{
    let n = s.len();
    let mut i: usize = 0;
    while i < n && is_whitespace(s[i])
        invariant
            i <= n,
            n == s@.len(),
            forall|k: int| 0 <= k < i ==> is_ws(#[trigger] s@[k]),
        decreases n - i,
    {
        i = i + 1;
    }
    let mut j: usize = n;
    while j > i && is_whitespace(s[j - 1])
        invariant
            i <= j <= n,
            n == s@.len(),
            forall|k: int| j <= k < n ==> is_ws(#[trigger] s@[k]),
        decreases j,
    {
        j = j - 1;
    }
    let mut r: Vec<char> = Vec::new();
    let mut k: usize = i;
    while k < j
        invariant
            i <= k <= j <= n,
            n == s@.len(),
            r@ == s@.subrange(i as int, k as int),
        decreases j - k,
    {
        r.push(s[k]);
        k = k + 1;
    }
    proof {
        let t = s@.subrange(i as int, n as int);
        lemma_trim_start_skip(s@, i as int);
        assert(trim_start(t) == t);
        assert forall|k: int| j - i <= k < t.len() implies is_ws(#[trigger] t[k]) by {
            assert(t[k] == s@[k + i]);
        }
        lemma_trim_end_skip(t, j - i);
        assert(t.subrange(0, j - i) =~= s@.subrange(i as int, j as int));
        let u = s@.subrange(i as int, j as int);
        if u.len() > 0 {
            assert(u.last() == s@[j - 1]);
        }
        assert(trim_end(u) == u);
    }
    r
}

/// ASCII lower-casing of one character, as `char::to_ascii_lowercase`.
pub open spec fn lower_ascii(c: char) -> char {
    if 'A' <= c && c <= 'Z' {
        ((c as u32) + 32) as char
    } else {
        c
    }
}

/// `str::to_ascii_lowercase` on a character sequence.
pub open spec fn lower_ascii_seq(s: Seq<char>) -> Seq<char> {
    s.map_values(|c: char| lower_ascii(c))
}

pub fn to_ascii_lower(c: char) -> (r: char)
    ensures
        r == lower_ascii(c),
{
    if 'A' <= c && c <= 'Z' {
        let u: u32 = c as u32;
        char_from_ascii(u + 32)
    } else {
        c
    }
}

fn char_from_ascii(u: u32) -> (c: char)
    requires
        u < 128,
    ensures
        c == u as char,
{
    let b: u8 = u as u8;
    b as char
}

pub fn lower_ascii_chars(s: &Vec<char>) -> (r: Vec<char>)
    ensures
        r@ == lower_ascii_seq(s@),
{
    let mut r: Vec<char> = Vec::new();
    let n = s.len();
    for k in 0..n
        invariant
            n == s@.len(),
            r@ == lower_ascii_seq(s@.subrange(0, k as int)),
    {
        r.push(to_ascii_lower(s[k]));
        assert(lower_ascii_seq(s@.subrange(0, k + 1)) =~= lower_ascii_seq(
            s@.subrange(0, k as int),
        ).push(lower_ascii(s@[k as int])));
    }
    assert(s@.subrange(0, n as int) =~= s@);
    r
}


/// The decimal digit character for `d < 10`.
pub open spec fn digit_char(d: nat) -> char {
    ((d + 48) as u32) as char
}

/// Decimal rendering of a natural number, without leading zeros.
pub open spec fn decimal(n: nat) -> Seq<char>
    decreases n,
{
    if n < 10 {
        seq![digit_char(n)]
    } else {
        decimal(n / 10).push(digit_char(n % 10))
    }
}

/// `String::push`.
#[verifier::external_body]
pub fn push_char(s: &mut String, c: char)
    ensures
        final(s)@ == old(s)@.push(c),
{
    s.push(c);
}

/// A `String` holding the given characters.
pub fn string_from_chars(v: &Vec<char>) -> (s: String)
    ensures
        s@ == v@,
{
    let mut s = String::new();
    let n = v.len();
    for k in 0..n
        invariant
            n == v@.len(),
            s@ == v@.subrange(0, k as int),
    {
        push_char(&mut s, v[k]);
        assert(v@.subrange(0, k + 1) =~= v@.subrange(0, k as int).push(v@[k as int]));
    }
    assert(v@.subrange(0, n as int) =~= v@);
    s
}

/// A `String` holding `a` followed by `b`.
pub fn concat(a: &str, b: &str) -> (s: String)
    ensures
        s@ == a@ + b@,
{
    let mut s = String::from_str(a);
    s.append(b);
    s
}

/// Decimal digits of `n`.
pub fn decimal_chars(n: u64) -> (v: Vec<char>)
    ensures
        v@ == decimal(n as nat),
    decreases n,
{
    if n < 10 {
        let mut v: Vec<char> = Vec::new();
        v.push(char_from_ascii((n + 48) as u32));
        v
    } else {
        let mut v = decimal_chars(n / 10);
        v.push(char_from_ascii((n % 10 + 48) as u32));
        v
    }
}

/// `n.to_string()` for an unsigned number.
pub fn u64_text(n: u64) -> (s: String)
    ensures
        s@ == decimal(n as nat),
{
    string_from_chars(&decimal_chars(n))
}

/// String equality on slices.
pub fn str_eq(a: &str, b: &str) -> (r: bool)
    ensures
        r == (a@ == b@),
{
    let x = chars_of(a);
    let y = chars_of(b);
    if x.len() != y.len() {
        return false;
    }
    let n = x.len();
    for i in 0..n
        invariant
            n == x@.len(),
            n == y@.len(),
            x@ == a@,
            y@ == b@,
            forall|j: int| 0 <= j < i ==> x@[j] == y@[j],
    {
        if x[i] != y[i] {
            assert(x@[i as int] != y@[i as int]);
            return false;
        }
    }
    assert(x@ =~= y@);
    true
}

/// `pat` occurs in `s` at index `i`.
pub open spec fn occurs_at(s: Seq<char>, pat: Seq<char>, i: int) -> bool {
    0 <= i && i + pat.len() <= s.len() && s.subrange(i, i + pat.len()) == pat
}

/// Index of the first occurrence of `pat` in `s` at or after `i`, or -1.
pub open spec fn first_occurrence_from(s: Seq<char>, pat: Seq<char>, i: nat) -> int
    decreases s.len() + 1 - i,
{
    if i + pat.len() > s.len() {
        -1
    } else if occurs_at(s, pat, i as int) {
        i as int
    } else {
        first_occurrence_from(s, pat, i + 1)
    }
}

/// Index of the first occurrence of `pat` in `s`, or -1.
pub open spec fn first_occurrence(s: Seq<char>, pat: Seq<char>) -> int {
    first_occurrence_from(s, pat, 0)
}

/// `s` with its first occurrence of `from` replaced by `to`, as
/// `str::replacen(from, to, 1)`.
pub open spec fn replace_first(s: Seq<char>, from: Seq<char>, to: Seq<char>) -> Seq<char> {
    let i = first_occurrence(s, from);
    if i < 0 {
        s
    } else {
        s.subrange(0, i) + to + s.subrange(i + from.len(), s.len() as int)
    }
}

fn matches_at(s: &Vec<char>, pat: &Vec<char>, i: usize) -> (b: bool)
    requires
        i + pat@.len() <= s@.len(),
    ensures
        b == occurs_at(s@, pat@, i as int),
{
    let m = pat.len();
    let n = s.len();
    for k in 0..m
        invariant
            m == pat@.len(),
            n == s@.len(),
            i + m <= n,
            forall|j: int| 0 <= j < k ==> s@[i + j] == #[trigger] pat@[j],
    {
        if s[i + k] != pat[k] {
            assert(s@.subrange(i as int, i + m)[k as int] != pat@[k as int]);
            return false;
        }
    }
    assert(s@.subrange(i as int, i + m) =~= pat@);
    true
}

/// The index of the first occurrence of `pat` in `s`.
pub fn find_first(s: &Vec<char>, pat: &Vec<char>) -> (r: Option<usize>)
    ensures
        match r {
            Some(i) => first_occurrence(s@, pat@) == i as int,
            None => first_occurrence(s@, pat@) == -1,
        },
{
    let n = s.len();
    let m = pat.len();
    if m > n {
        return None;
    }
    if m == 0 {
        assert(s@.subrange(0, 0) =~= pat@);
        return Some(0);
    }
    let mut i: usize = 0;
    while i <= n - m
        invariant
            n == s@.len(),
            m == pat@.len(),
            1 <= m <= n,
            i <= n - m + 1,
            first_occurrence(s@, pat@) == first_occurrence_from(s@, pat@, i as nat),
        decreases n - i,
    {
        if matches_at(s, pat, i) {
            return Some(i);
        }
        i = i + 1;
    }
    None
}

/// `haystack.contains(needle)`.
pub fn contains_text(haystack: &str, needle: &str) -> (b: bool)
    ensures
        b == (first_occurrence(haystack@, needle@) >= 0),
{
    let h = chars_of(haystack);
    let p = chars_of(needle);
    find_first(&h, &p).is_some()
}

/// `s.replacen(from, to, 1)`.
pub fn replace_first_text(s: &str, from: &str, to: &str) -> (r: String)
    ensures
        r@ == replace_first(s@, from@, to@),
{
    let cs = chars_of(s);
    let pat = chars_of(from);
    match find_first(&cs, &pat) {
        None => String::from_str(s),
        Some(i) => {
            proof {
                lemma_first_occurrence_found(cs@, pat@, 0);
            }
            assert(occurs_at(cs@, pat@, i as int));
            let n = cs.len();
            let pl = pat.len();
            assert(i + pl <= n);
            let start = i + pl;
            let mut out: Vec<char> = Vec::new();
            for k in 0..i
                invariant
                    i <= cs@.len(),
                    out@ == cs@.subrange(0, k as int),
            {
                out.push(cs[k]);
                assert(cs@.subrange(0, k + 1) =~= cs@.subrange(0, k as int).push(cs@[k as int]));
            }
            let tc = chars_of(to);
            for k in 0..tc.len()
                invariant
                    i <= cs@.len(),
                    out@ == cs@.subrange(0, i as int) + tc@.subrange(0, k as int),
            {
                out.push(tc[k]);
                assert(tc@.subrange(0, k + 1) =~= tc@.subrange(0, k as int).push(tc@[k as int]));
            }
            assert(tc@.subrange(0, tc@.len() as int) =~= tc@);
            let mut k = start;
            while k < n
                invariant
                    start <= k <= n,
                    n == cs@.len(),
                    out@ == cs@.subrange(0, i as int) + tc@ + cs@.subrange(start as int, k as int),
                decreases n - k,
            {
                out.push(cs[k]);
                assert(cs@.subrange(start as int, k + 1) =~= cs@.subrange(start as int, k as int).push(
                    cs@[k as int],
                ));
                k = k + 1;
            }
            string_from_chars(&out)
        },
    }
}

proof fn lemma_first_occurrence_found(s: Seq<char>, pat: Seq<char>, i: nat)
    ensures
        first_occurrence_from(s, pat, i) >= 0 ==> occurs_at(
            s,
            pat,
            first_occurrence_from(s, pat, i),
        ),
    decreases s.len() + 1 - i,
{
    if i + pat.len() <= s.len() && !occurs_at(s, pat, i as int) {
        lemma_first_occurrence_found(s, pat, i + 1);
    }
}

/// The first occurrence is found exactly when there is one: a search from
/// `i` fails just when `pat` occurs nowhere at or after `i`.
pub proof fn lemma_first_occurrence_absent(s: Seq<char>, pat: Seq<char>, i: nat)
    ensures
        first_occurrence_from(s, pat, i) < 0 <==> forall|j: int| i <= j ==> !#[trigger] occurs_at(s, pat, j),
    decreases s.len() + 1 - i,
{
    if i + pat.len() > s.len() {
    } else if occurs_at(s, pat, i as int) {
    } else {
        lemma_first_occurrence_absent(s, pat, i + 1);
        if first_occurrence_from(s, pat, i) >= 0 {
            let j = choose|j: int| i + 1 <= j && #[trigger] occurs_at(s, pat, j);
            assert(i <= j && occurs_at(s, pat, j));
        }
    }
}

} // verus!
