//! File paths inside a sandbox, as the file-system endpoints take them: one
//! leading `/` dropped and each segment percent-encoded.

use vstd::prelude::*;
use vstd::utf8::{decode_utf8, encode_scalar, encode_utf8, valid_utf8};
use crate::errors::Error;
use crate::text::{chars_of, concat, digit_char, string_from_chars};

verus! {

/// The bytes a path segment keeps as they are: ASCII letters, digits and
/// `-._~` (RFC 3986 "unreserved").
pub open spec fn is_unreserved(b: u8) -> bool {
    ||| (65 <= b && b <= 90)
    ||| (97 <= b && b <= 122)
    ||| (48 <= b && b <= 57)
    ||| b == 45
    ||| b == 46
    ||| b == 95
    ||| b == 126
}

/// Upper-case hexadecimal digit for `n < 16`.
pub open spec fn hex_digit(n: nat) -> char {
    if n < 10 {
        digit_char(n)
    } else {
        ((n - 10 + 65) as u32) as char
    }
}

/// One byte of a segment: itself when unreserved, `%XX` otherwise.
pub open spec fn encode_byte(b: u8) -> Seq<char> {
    if is_unreserved(b) {
        seq![(b as u32) as char]
    } else {
        seq!['%', hex_digit((b / 16) as nat), hex_digit((b % 16) as nat)]
    }
}

pub open spec fn encode_bytes(bs: Seq<u8>) -> Seq<char>
    decreases bs.len(),
{
    if bs.len() == 0 {
        Seq::empty()
    } else {
        encode_bytes(bs.drop_last()) + encode_byte(bs.last())
    }
}

/// A segment percent-encoded over its UTF-8 bytes.
pub open spec fn escape_segment(s: Seq<char>) -> Seq<char> {
    encode_bytes(encode_utf8(s))
}

/// `s` without one leading `c`, where it starts with one.
pub open spec fn strip_one(s: Seq<char>, c: char) -> Seq<char> {
    if s.len() > 0 && s[0] == c {
        s.drop_first()
    } else {
        s
    }
}

/// `str::split` on one character: every piece, empty ones included.
pub open spec fn split_on(s: Seq<char>, c: char) -> Seq<Seq<char>>
    decreases s.len(),
{
    if s.len() == 0 {
        seq![Seq::<char>::empty()]
    } else {
        let init = split_on(s.drop_last(), c);
        if s.last() == c {
            init.push(Seq::<char>::empty())
        } else {
            init.update(init.len() - 1, init.last().push(s.last()))
        }
    }
}

/// The pieces joined with `c` between each two.
pub open spec fn join_with(parts: Seq<Seq<char>>, c: char) -> Seq<char>
    decreases parts.len(),
{
    if parts.len() == 0 {
        Seq::empty()
    } else if parts.len() == 1 {
        parts[0]
    } else {
        join_with(parts.drop_last(), c).push(c) + parts.last()
    }
}

/// A path as the file-system endpoints take it.
pub open spec fn clean_path_text(p: Seq<char>) -> Seq<char> {
    join_with(
        split_on(strip_one(p, '/'), '/').map_values(|seg: Seq<char>| escape_segment(seg)),
        '/',
    )
}

fn hex_char(n: u8) -> (c: char)
    requires
        n < 16,
    ensures
        c == hex_digit(n as nat),
{
    if n < 10 {
        ((n + 48) as u8) as char
    } else {
        ((n - 10 + 65) as u8) as char
    }
}

/// Percent-encodes one path segment over its UTF-8 bytes: letters, digits
/// and `-._~` stay, every other byte becomes `%XX` with upper-case hex
/// digits.
pub fn percent_encode_segment(s: &str) -> (r: String)
    ensures
        r@ == escape_segment(s@),
{
    let bytes = s.as_bytes();
    let n = bytes.len();
    let mut out: Vec<char> = Vec::new();
    for k in 0..n
        invariant
            n == bytes@.len(),
            bytes@ == encode_utf8(s@),
            out@ == encode_bytes(bytes@.subrange(0, k as int)),
    {
        let b = bytes[k];
        assert(bytes@.subrange(0, k + 1).drop_last() =~= bytes@.subrange(0, k as int));
        if (65 <= b && b <= 90) || (97 <= b && b <= 122) || (48 <= b && b <= 57) || b == 45 || b
            == 46 || b == 95 || b == 126 {
            out.push(b as char);
        } else {
            out.push('%');
            out.push(hex_char(b / 16));
            out.push(hex_char(b % 16));
        }
        assert(out@ =~= encode_bytes(bytes@.subrange(0, k + 1)));
    }
    assert(bytes@.subrange(0, n as int) =~= bytes@);
    string_from_chars(&out)
}

/// Normalises a file path for the file-system endpoints: one leading `/`
/// dropped, then each `/`-separated segment (empty ones too)
/// percent-encoded, and the segments joined again with `/`.
pub fn clean_path(p: &str) -> (r: String)
    ensures
        r@ == clean_path_text(p@),
{
    let cs = chars_of(p);
    let n = cs.len();
    let i: usize = if n > 0 && cs[0] == '/' {
        1
    } else {
        0
    };
    let ghost body = cs@.subrange(i as int, n as int);
    assert(body =~= strip_one(cs@, '/'));
    // Split into segments.
    let mut parts: Vec<Vec<char>> = Vec::new();
    let mut cur: Vec<char> = Vec::new();
    let mut k = i;
    assert(cs@.subrange(i as int, i as int) =~= Seq::<char>::empty());
    assert(parts@.map_values(|v: Vec<char>| v@).push(cur@) =~= seq![Seq::<char>::empty()]);
    while k < n
        invariant
            i <= k <= n,
            n == cs@.len(),
            split_on(cs@.subrange(i as int, k as int), '/') == parts@.map_values(
                |v: Vec<char>| v@,
            ).push(cur@),
        decreases n - k,
    {
        let c = cs[k];
        let ghost prefix = cs@.subrange(i as int, k + 1);
        assert(prefix.drop_last() =~= cs@.subrange(i as int, k as int));
        assert(prefix.last() == c);
        if c == '/' {
            let mut done: Vec<char> = Vec::new();
            std::mem::swap(&mut done, &mut cur);
            parts.push(done);
            assert(parts@.map_values(|v: Vec<char>| v@).push(cur@) =~= split_on(prefix, '/'));
        } else {
            let ghost before = parts@.map_values(|v: Vec<char>| v@).push(cur@);
            cur.push(c);
            assert(parts@.map_values(|v: Vec<char>| v@).push(cur@) =~= before.update(
                before.len() - 1,
                before.last().push(c),
            ));
        }
        k = k + 1;
    }
    parts.push(cur);
    let ghost segs = parts@.map_values(|v: Vec<char>| v@);
    assert(segs =~= split_on(body, '/'));
    let ghost encoded = segs.map_values(|seg: Seq<char>| escape_segment(seg));
    // Encode and join.
    let m = parts.len();
    let mut out = String::new();
    for j in 0..m
        invariant
            m == parts@.len(),
            segs == parts@.map_values(|v: Vec<char>| v@),
            encoded == segs.map_values(|seg: Seq<char>| escape_segment(seg)),
            out@ == join_with(encoded.subrange(0, j as int), '/'),
    {
        let seg = string_from_chars(&parts[j]);
        let esc = percent_encode_segment(seg.as_str());
        assert(esc@ == encoded[j as int]);
        let ghost pre = encoded.subrange(0, j + 1);
        assert(pre.drop_last() =~= encoded.subrange(0, j as int));
        if j == 0 {
            out = esc;
            assert(out@ == join_with(pre, '/'));
        } else {
            let with_sep = concat(out.as_str(), "/");
            proof {
                reveal_strlit("/");
            }
            out = concat(with_sep.as_str(), esc.as_str());
            assert(out@ =~= join_with(pre, '/'));
        }
    }
    assert(encoded.subrange(0, m as int) =~= encoded);
    out
}

/// `/v1/sandboxes/{id}/fs/{path}` with the path cleaned.
pub fn fs_path(sandbox_id: &str, path: &str) -> (p: String)
    ensures
        p@ == "/v1/sandboxes/"@ + sandbox_id@ + "/fs/"@ + clean_path_text(path@),
{
    let a = concat("/v1/sandboxes/", sandbox_id);
    let b = concat(a.as_str(), "/fs/");
    let c = clean_path(path);
    concat(b.as_str(), c.as_str())
}

/// `/v1/sandboxes/{id}/fs-list/{path}` with the path cleaned (the listing
/// endpoint is `fs-list`, not `fs`).
pub fn fs_list_path(sandbox_id: &str, path: &str) -> (p: String)
    ensures
        p@ == "/v1/sandboxes/"@ + sandbox_id@ + "/fs-list/"@ + clean_path_text(path@),
{
    let a = concat("/v1/sandboxes/", sandbox_id);
    let b = concat(a.as_str(), "/fs-list/");
    let c = clean_path(path);
    concat(b.as_str(), c.as_str())
}

/// The text that the error of `String::from_utf8` displays for some bytes.
pub uninterp spec fn utf8_error_text(bytes: Seq<u8>) -> Seq<char>;

/// `String::from_utf8`: succeeds exactly on valid UTF-8, with the decoded
/// text, as its documentation says; the error is handed back as its display
/// text, which the contract only names.
#[verifier::external_body]
fn utf8_string(bytes: Vec<u8>) -> (r: Result<String, String>)
    ensures
        r is Ok <==> valid_utf8(bytes@),
        r matches Ok(s) ==> s@ == decode_utf8(bytes@),
        r matches Err(m) ==> m@ == utf8_error_text(bytes@),
{
    match String::from_utf8(bytes) {
        Ok(s) => Ok(s),
        Err(e) => Err(e.to_string()),
    }
}

/// The message of the error for file content that is not UTF-8.
pub open spec fn not_utf8_message(bytes: Seq<u8>) -> Seq<char> {
    "文件内容不是合法 UTF-8: "@ + utf8_error_text(bytes)
}

/// File content as text: the content must be valid UTF-8.
pub fn text_from_bytes(bytes: Vec<u8>) -> (r: Result<String, Error>)
    ensures
        match r {
            Ok(s) => valid_utf8(bytes@) && s@ == decode_utf8(bytes@),
            Err(e) => !valid_utf8(bytes@) && (e matches Error::Parse(m) && m@ == not_utf8_message(
                bytes@,
            )),
        },
{
    let ghost b = bytes@;
    match utf8_string(bytes) {
        Ok(s) => Ok(s),
        Err(m) => Err(Error::Parse(concat("文件内容不是合法 UTF-8: ", m.as_str()))),
    }
}

// ─── Laws ───────────────────────────────────────────────────────────────────

/// One leading slash does not matter: for a path `p` that does not itself
/// start with `/`, `/p` and `p` name the same file (`/a/b` and `a/b`).
pub proof fn lemma_clean_path_ignores_leading_slash(p: Seq<char>)
    requires
        p.len() == 0 || p[0] != '/',
    ensures
        clean_path_text(seq!['/'] + p) == clean_path_text(p),
{
    let q = seq!['/'] + p;
    assert(q.drop_first() =~= p);
}

/// The value of a hexadecimal digit (either case).
pub open spec fn hex_value(c: char) -> int {
    if '0' <= c && c <= '9' {
        c as int - 48
    } else if 'A' <= c && c <= 'F' {
        c as int - 55
    } else if 'a' <= c && c <= 'f' {
        c as int - 87
    } else {
        0
    }
}

/// Percent-decoding: `%XX` is the byte `XX`, any other character its own
/// code as a byte.
pub open spec fn unescape(s: Seq<char>) -> Seq<u8>
    decreases s.len(),
{
    if s.len() == 0 {
        Seq::empty()
    } else if s[0] == '%' && s.len() >= 3 {
        seq![(hex_value(s[1]) * 16 + hex_value(s[2])) as u8] + unescape(s.subrange(3, s.len() as int))
    } else {
        seq![s[0] as u8] + unescape(s.drop_first())
    }
}

proof fn lemma_encode_bytes_front(bs: Seq<u8>)
    requires
        bs.len() > 0,
    ensures
        encode_bytes(bs) == encode_byte(bs[0]) + encode_bytes(bs.drop_first()),
    decreases bs.len(),
{
    if bs.len() == 1 {
        assert(bs.drop_last().len() == 0);
        assert(bs.drop_first().len() == 0);
        assert(encode_bytes(bs.drop_last()) == Seq::<char>::empty());
        assert(encode_bytes(bs.drop_first()) == Seq::<char>::empty());
        assert(encode_bytes(bs) =~= encode_byte(bs[0]));
        assert(encode_byte(bs[0]) + encode_bytes(bs.drop_first()) =~= encode_byte(bs[0]));
    } else {
        lemma_encode_bytes_front(bs.drop_last());
        assert(bs.drop_last().drop_first() =~= bs.drop_first().drop_last());
        assert(bs.drop_first().last() == bs.last());
        assert(bs.drop_last()[0] == bs[0]);
        assert(encode_bytes(bs) =~= encode_byte(bs[0]) + encode_bytes(bs.drop_first()));
    }
}

proof fn lemma_hex_round_trip(n: nat)
    requires
        n < 16,
    ensures
        hex_value(hex_digit(n)) == n,
{
    if n < 10 {
        assert(((n + 48) as u32) as char as int == n + 48);
    } else {
        assert(((n - 10 + 65) as u32) as char as int == n + 55);
    }
}

proof fn lemma_unescape_byte(b: u8, rest: Seq<char>)
    ensures
        unescape(encode_byte(b) + rest) == seq![b] + unescape(rest),
{
    let e = encode_byte(b) + rest;
    if is_unreserved(b) {
        assert(((b as u32) as char) as int == b as int);
        assert(e[0] == (b as u32) as char);
        assert(e.drop_first() =~= rest);
        assert(e[0] != '%');
        assert((e[0] as u8) == b);
    } else {
        lemma_hex_round_trip((b / 16) as nat);
        lemma_hex_round_trip((b % 16) as nat);
        assert(e[0] == '%');
        assert(e.subrange(3, e.len() as int) =~= rest);
        assert((b / 16) * 16 + b % 16 == b);
    }
}

/// Percent-encoding a segment loses nothing: decoding gives back its UTF-8
/// bytes.
pub proof fn lemma_escape_round_trip(bs: Seq<u8>)
    ensures
        unescape(encode_bytes(bs)) == bs,
    decreases bs.len(),
{
    if bs.len() == 0 {
        assert(encode_bytes(bs) == Seq::<char>::empty());
    } else {
        lemma_encode_bytes_front(bs);
        lemma_unescape_byte(bs[0], encode_bytes(bs.drop_first()));
        lemma_escape_round_trip(bs.drop_first());
        assert(seq![bs[0]] + bs.drop_first() =~= bs);
    }
}

/// An escaped segment holds no `/`, so cleaning keeps the segment structure.
pub proof fn lemma_escape_has_no_slash(bs: Seq<u8>)
    ensures
        forall|i: int| 0 <= i < encode_bytes(bs).len() ==> #[trigger] encode_bytes(bs)[i] != '/',
    decreases bs.len(),
{
    if bs.len() > 0 {
        lemma_escape_has_no_slash(bs.drop_last());
        let b = bs.last();
        let e = encode_byte(b);
        if is_unreserved(b) {
            assert(((b as u32) as char) as int == b as int);
        } else {
            lemma_hex_round_trip((b / 16) as nat);
            lemma_hex_round_trip((b % 16) as nat);
            assert(hex_digit((b / 16) as nat) != '/');
            assert(hex_digit((b % 16) as nat) != '/');
        }
        assert forall|i: int| 0 <= i < encode_bytes(bs).len() implies #[trigger] encode_bytes(bs)[i]
            != '/' by {
            let init = encode_bytes(bs.drop_last());
            if i >= init.len() {
                assert(encode_bytes(bs)[i] == e[i - init.len()]);
            } else {
                assert(encode_bytes(bs)[i] == init[i]);
            }
        }
    }
}

/// A character that may stand in an encoded segment: an unreserved ASCII
/// character or the `%` of an escape (whose hex digits are unreserved too).
pub open spec fn is_escaped_char(c: char) -> bool {
    ||| ('A' <= c && c <= 'Z')
    ||| ('a' <= c && c <= 'z')
    ||| ('0' <= c && c <= '9')
    ||| c == '-'
    ||| c == '.'
    ||| c == '_'
    ||| c == '~'
    ||| c == '%'
}

proof fn lemma_hex_digit_escaped(n: nat)
    requires
        n < 16,
    ensures
        is_escaped_char(hex_digit(n)),
{
    if n < 10 {
        assert(((n + 48) as u32) as char as int == n + 48);
    } else {
        assert(((n - 10 + 65) as u32) as char as int == n + 55);
    }
}

proof fn lemma_encode_bytes_escaped(bs: Seq<u8>)
    ensures
        forall|i: int| 0 <= i < encode_bytes(bs).len() ==> is_escaped_char(#[trigger] encode_bytes(bs)[i]),
    decreases bs.len(),
{
    if bs.len() > 0 {
        lemma_encode_bytes_escaped(bs.drop_last());
        let b = bs.last();
        let e = encode_byte(b);
        if is_unreserved(b) {
            assert(((b as u32) as char) as int == b as int);
            assert(is_escaped_char(e[0]));
        } else {
            lemma_hex_digit_escaped((b / 16) as nat);
            lemma_hex_digit_escaped((b % 16) as nat);
        }
        assert forall|i: int| 0 <= i < encode_bytes(bs).len() implies is_escaped_char(
            #[trigger] encode_bytes(bs)[i],
        ) by {
            let init = encode_bytes(bs.drop_last());
            if i >= init.len() {
                assert(encode_bytes(bs)[i] == e[i - init.len()]);
            } else {
                assert(encode_bytes(bs)[i] == init[i]);
            }
        }
    }
}

proof fn lemma_join_escaped(parts: Seq<Seq<char>>)
    requires
        forall|j: int, i: int|
            0 <= j < parts.len() && 0 <= i < parts[j].len() ==> is_escaped_char(#[trigger] parts[j][i]),
    ensures
        forall|i: int|
            0 <= i < join_with(parts, '/').len() ==> #[trigger] join_with(parts, '/')[i] == '/'
                || is_escaped_char(join_with(parts, '/')[i]),
    decreases parts.len(),
{
    if parts.len() > 1 {
        let init = parts.drop_last();
        assert forall|j: int, i: int|
            0 <= j < init.len() && 0 <= i < init[j].len() implies is_escaped_char(#[trigger] init[j][i]) by {
            assert(init[j] == parts[j]);
        }
        lemma_join_escaped(init);
        let a = join_with(init, '/');
        let r = join_with(parts, '/');
        assert forall|i: int| 0 <= i < r.len() implies #[trigger] r[i] == '/' || is_escaped_char(r[i]) by {
            if i < a.len() {
                assert(r[i] == a[i]);
            } else if i > a.len() {
                assert(r[i] == parts.last()[i - a.len() - 1]);
                assert(parts[parts.len() - 1][i - a.len() - 1] == parts.last()[i - a.len() - 1]);
            }
        }
    } else if parts.len() == 1 {
        assert forall|i: int| 0 <= i < join_with(parts, '/').len() implies #[trigger] join_with(
            parts,
            '/',
        )[i] == '/' || is_escaped_char(join_with(parts, '/')[i]) by {
            assert(join_with(parts, '/')[i] == parts[0][i]);
        }
    }
}

proof fn lemma_split_nonempty(s: Seq<char>, c: char)
    ensures
        split_on(s, c).len() >= 1,
    decreases s.len(),
{
    if s.len() > 0 {
        lemma_split_nonempty(s.drop_last(), c);
    }
}

proof fn lemma_split_without_sep(b: Seq<char>, c: char)
    requires
        forall|i: int| 0 <= i < b.len() ==> #[trigger] b[i] != c,
    ensures
        split_on(b, c) == seq![b],
    decreases b.len(),
{
    if b.len() > 0 {
        let init = b.drop_last();
        lemma_split_without_sep(init, c);
        assert(b.last() == b[b.len() - 1]);
        assert(init.push(b.last()) =~= b);
        assert(seq![init].update(0, init.push(b.last())) =~= seq![b]);
    } else {
        assert(b =~= Seq::<char>::empty());
    }
}

proof fn lemma_split_after_sep(a: Seq<char>, b: Seq<char>, c: char)
    requires
        forall|i: int| 0 <= i < b.len() ==> #[trigger] b[i] != c,
    ensures
        split_on(a.push(c) + b, c) == split_on(a, c).push(b),
    decreases b.len(),
{
    let s = a.push(c) + b;
    if b.len() == 0 {
        assert(s =~= a.push(c));
        assert(s.drop_last() =~= a);
        assert(b =~= Seq::<char>::empty());
    } else {
        let bi = b.drop_last();
        lemma_split_after_sep(a, bi, c);
        assert(s.drop_last() =~= a.push(c) + bi);
        assert(s.last() == b[b.len() - 1]);
        assert(bi.push(b.last()) =~= b);
        assert(split_on(a, c).push(bi).update(split_on(a, c).len() as int, bi.push(b.last()))
            =~= split_on(a, c).push(b));
    }
}

proof fn lemma_split_join(parts: Seq<Seq<char>>, c: char)
    requires
        parts.len() >= 1,
        forall|j: int, i: int| 0 <= j < parts.len() && 0 <= i < parts[j].len() ==> #[trigger] parts[j][i] != c,
    ensures
        split_on(join_with(parts, c), c) == parts,
    decreases parts.len(),
{
    if parts.len() == 1 {
        assert forall|i: int| 0 <= i < parts[0].len() implies #[trigger] parts[0][i] != c by {
            assert(parts[0][i] != c);
        }
        lemma_split_without_sep(parts[0], c);
        assert(seq![parts[0]] =~= parts);
    } else {
        let init = parts.drop_last();
        assert forall|j: int, i: int| 0 <= j < init.len() && 0 <= i < init[j].len() implies #[trigger] init[j][i]
            != c by {
            assert(init[j] == parts[j]);
        }
        lemma_split_join(init, c);
        let last = parts.last();
        assert forall|i: int| 0 <= i < last.len() implies #[trigger] last[i] != c by {
            assert(parts[parts.len() - 1][i] != c);
        }
        lemma_split_after_sep(join_with(init, c), last, c);
        assert(init.push(last) =~= parts);
    }
}

/// Every segment of a path is percent-encoded: the cleaned path holds only
/// `/` and characters of encoded segments (unreserved ASCII and `%`).
pub proof fn lemma_clean_path_is_escaped(p: Seq<char>)
    ensures
        forall|i: int|
            0 <= i < clean_path_text(p).len() ==> #[trigger] clean_path_text(p)[i] == '/'
                || is_escaped_char(clean_path_text(p)[i]),
{
    let segs = split_on(strip_one(p, '/'), '/');
    let enc = segs.map_values(|seg: Seq<char>| escape_segment(seg));
    assert forall|j: int, i: int| 0 <= j < enc.len() && 0 <= i < enc[j].len() implies is_escaped_char(
        #[trigger] enc[j][i],
    ) by {
        lemma_encode_bytes_escaped(encode_utf8(segs[j]));
        assert(enc[j] == encode_bytes(encode_utf8(segs[j])));
    }
    lemma_join_escaped(enc);
}

/// Cleaning keeps the segments of a path (after one leading `/`): the
/// cleaned path has as many `/`-separated pieces, and decoding each piece
/// gives back the matching segment.
pub proof fn lemma_clean_path_keeps_segments(p: Seq<char>)
    ensures
        split_on(clean_path_text(p), '/').len() == split_on(strip_one(p, '/'), '/').len(),
        forall|i: int|
            0 <= i < split_on(strip_one(p, '/'), '/').len() ==> decode_utf8(
                unescape(#[trigger] split_on(clean_path_text(p), '/')[i]),
            ) == split_on(strip_one(p, '/'), '/')[i],
{
    let segs = split_on(strip_one(p, '/'), '/');
    let enc = segs.map_values(|seg: Seq<char>| escape_segment(seg));
    lemma_split_nonempty(strip_one(p, '/'), '/');
    assert forall|j: int, i: int| 0 <= j < enc.len() && 0 <= i < enc[j].len() implies #[trigger] enc[j][i]
        != '/' by {
        lemma_escape_has_no_slash(encode_utf8(segs[j]));
        assert(enc[j] == encode_bytes(encode_utf8(segs[j])));
    }
    lemma_split_join(enc, '/');
    assert forall|i: int| 0 <= i < segs.len() implies decode_utf8(
        unescape(#[trigger] split_on(clean_path_text(p), '/')[i]),
    ) == segs[i] by {
        lemma_escape_round_trip(encode_utf8(segs[i]));
        vstd::utf8::encode_utf8_decode_utf8(segs[i]);
    }
}

/// An unreserved ASCII character, which a segment keeps as it is.
pub open spec fn is_plain_char(c: char) -> bool {
    is_escaped_char(c) && c != '%'
}

proof fn lemma_low_byte(v: u32)
    by (bit_vector)
    requires
        v <= 0x7F,
    ensures
        (v & 0x7F) as u8 == v as u8,
        ((v as u8) as u32) == v,
{
}

proof fn lemma_plain_segment_unchanged(seg: Seq<char>)
    requires
        forall|i: int| 0 <= i < seg.len() ==> is_plain_char(#[trigger] seg[i]),
    ensures
        escape_segment(seg) == seg,
    decreases seg.len(),
{
    if seg.len() == 0 {
        assert(encode_utf8(seg) =~= Seq::<u8>::empty());
        assert(seg =~= Seq::<char>::empty());
    } else {
        let rest = seg.drop_first();
        assert forall|i: int| 0 <= i < rest.len() implies is_plain_char(#[trigger] rest[i]) by {
            assert(rest[i] == seg[i + 1]);
        }
        lemma_plain_segment_unchanged(rest);
        let c = seg[0];
        assert(is_plain_char(c));
        let v = c as u32;
        assert(v <= 0x7F);
        lemma_low_byte(v);
        let b = v as u8;
        assert(encode_scalar(v) =~= seq![b]);
        let bs = encode_utf8(seg);
        assert(bs =~= seq![b] + encode_utf8(rest));
        assert(bs[0] == b);
        assert(bs.drop_first() =~= encode_utf8(rest));
        lemma_encode_bytes_front(bs);
        assert(is_unreserved(b));
        assert((b as u32) as char == c);
        assert(encode_byte(b) =~= seq![c]);
        assert(seq![c] + rest =~= seg);
    }
}

proof fn lemma_split_pieces_plain(s: Seq<char>, c: char)
    requires
        forall|i: int| 0 <= i < s.len() ==> #[trigger] s[i] == c || is_plain_char(s[i]),
    ensures
        forall|j: int, i: int|
            0 <= j < split_on(s, c).len() && 0 <= i < split_on(s, c)[j].len() ==> is_plain_char(
                #[trigger] split_on(s, c)[j][i],
            ),
    decreases s.len(),
{
    if s.len() > 0 {
        let init = s.drop_last();
        assert forall|i: int| 0 <= i < init.len() implies #[trigger] init[i] == c || is_plain_char(init[i]) by {
            assert(init[i] == s[i]);
        }
        lemma_split_pieces_plain(init, c);
        lemma_split_nonempty(init, c);
        assert(s.last() == s[s.len() - 1]);
        let sp = split_on(init, c);
        if s.last() != c {
            let r = split_on(s, c);
            assert forall|j: int, i: int| 0 <= j < r.len() && 0 <= i < r[j].len() implies is_plain_char(
                #[trigger] r[j][i],
            ) by {
                if j < sp.len() - 1 {
                    assert(r[j] == sp[j]);
                } else {
                    assert(r[j] == sp.last().push(s.last()));
                    if i < sp.last().len() {
                        assert(r[j][i] == sp[sp.len() - 1][i]);
                    }
                }
            }
        } else {
            let r = split_on(s, c);
            assert forall|j: int, i: int| 0 <= j < r.len() && 0 <= i < r[j].len() implies is_plain_char(
                #[trigger] r[j][i],
            ) by {
                assert(r[j] == sp[j]);
            }
        }
    }
}

proof fn lemma_join_push(parts: Seq<Seq<char>>, x: char, c: char)
    requires
        parts.len() >= 1,
    ensures
        join_with(parts.update(parts.len() - 1, parts.last().push(x)), c) == join_with(parts, c).push(x),
{
    let q = parts.update(parts.len() - 1, parts.last().push(x));
    if parts.len() == 1 {
        assert(join_with(q, c) == q[0]);
    } else {
        assert(q.drop_last() =~= parts.drop_last());
        assert(q.last() == parts.last().push(x));
        assert(join_with(parts.drop_last(), c).push(c) + parts.last().push(x) =~= (join_with(
            parts.drop_last(),
            c,
        ).push(c) + parts.last()).push(x));
    }
}

proof fn lemma_join_split(s: Seq<char>, c: char)
    ensures
        join_with(split_on(s, c), c) == s,
    decreases s.len(),
{
    if s.len() == 0 {
        assert(join_with(split_on(s, c), c) == Seq::<char>::empty());
        assert(s =~= Seq::<char>::empty());
    } else {
        let init = s.drop_last();
        lemma_join_split(init, c);
        lemma_split_nonempty(init, c);
        let sp = split_on(init, c);
        if s.last() == c {
            let r = sp.push(Seq::<char>::empty());
            assert(r.drop_last() =~= sp);
            assert(join_with(r, c) =~= init.push(c));
        } else {
            lemma_join_push(sp, s.last(), c);
        }
        assert(init.push(s.last()) =~= s);
    }
}

/// A path made of unreserved ASCII characters and `/` is sent as it is,
/// after one leading `/`.
pub proof fn lemma_clean_path_keeps_plain(p: Seq<char>)
    requires
        forall|i: int| 0 <= i < p.len() ==> #[trigger] p[i] == '/' || is_plain_char(p[i]),
    ensures
        clean_path_text(p) == strip_one(p, '/'),
{
    let s = strip_one(p, '/');
    assert forall|i: int| 0 <= i < s.len() implies #[trigger] s[i] == '/' || is_plain_char(s[i]) by {
        if p.len() > 0 && p[0] == '/' {
            assert(s[i] == p[i + 1]);
        }
    }
    lemma_split_pieces_plain(s, '/');
    let segs = split_on(s, '/');
    let enc = segs.map_values(|seg: Seq<char>| escape_segment(seg));
    assert forall|j: int| 0 <= j < segs.len() implies #[trigger] enc[j] == segs[j] by {
        assert forall|i: int| 0 <= i < segs[j].len() implies is_plain_char(#[trigger] segs[j][i]) by {}
        lemma_plain_segment_unchanged(segs[j]);
    }
    assert(enc =~= segs);
    lemma_join_split(s, '/');
}

/// The characters a segment keeps as they are, and the hexadecimal digits
/// of an escape.
pub open spec fn unreserved_chars() -> Seq<char> {
    "ABCDEFGHIJKLMNOPQRSTUVWXYZabcdefghijklmnopqrstuvwxyz0123456789-._~"@
}

pub open spec fn upper_hex_digits() -> Seq<char> {
    "0123456789ABCDEF"@
}

/// How one byte is escaped: the bytes of ASCII letters, digits and `-._~`
/// stay as they are; every other byte `b` becomes `%` and two upper-case
/// hexadecimal digits, the high half of `b` first.
pub proof fn lemma_escape_one_byte(b: u8)
    ensures
        unreserved_chars().contains((b as u32) as char) ==> encode_bytes(seq![b]) == seq![
            (b as u32) as char,
        ],
        !unreserved_chars().contains((b as u32) as char) ==> encode_bytes(seq![b]) == seq![
            '%',
            upper_hex_digits()[(b / 16) as int],
            upper_hex_digits()[(b % 16) as int],
        ],
{
    reveal_strlit("ABCDEFGHIJKLMNOPQRSTUVWXYZabcdefghijklmnopqrstuvwxyz0123456789-._~");
    reveal_strlit("0123456789ABCDEF");
    let u = unreserved_chars();
    let c = (b as u32) as char;
    assert(c as int == b as int);
    assert(seq![b].drop_last() =~= Seq::<u8>::empty());
    assert(encode_bytes(seq![b].drop_last()) == Seq::<char>::empty());
    assert(seq![b].last() == b);
    assert(encode_bytes(seq![b]) =~= encode_byte(b));
    if is_unreserved(b) {
        let k: int = if 65 <= b && b <= 90 {
            b - 65
        } else if 97 <= b && b <= 122 {
            b - 97 + 26
        } else if 48 <= b && b <= 57 {
            b - 48 + 52
        } else if b == 45 {
            62
        } else if b == 46 {
            63
        } else if b == 95 {
            64
        } else {
            65
        };
        assert(u[k] == c);
    } else {
        assert forall|k: int| 0 <= k < u.len() implies u[k] != c by {}
        let h = upper_hex_digits();
        let hi = (b / 16) as nat;
        let lo = (b % 16) as nat;
        assert(h[hi as int] == hex_digit(hi));
        assert(h[lo as int] == hex_digit(lo));
    }
}

} // verus!
