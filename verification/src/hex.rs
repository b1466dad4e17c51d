//! Lowercase hexadecimal text for byte strings, and its tolerant inverse.

use vstd::prelude::*;
use vstd::std_specs::iter::IteratorSpec;
use crate::text::{ascii_chars, ascii_to_string};

verus! {

/// The ASCII code of the lowercase hex digit for `n` (`0 <= n < 16`).
pub open spec fn hex_digit(n: int) -> u8 {
    if n < 10 { (48 + n) as u8 } else { (87 + n) as u8 }
}

/// Two lowercase hex digits per byte, high nibble first, as ASCII bytes.
pub open spec fn hex_bytes(b: Seq<u8>) -> Seq<u8> {
    Seq::new(
        2 * b.len(),
        |i: int| if i % 2 == 0 { hex_digit(b[i / 2] as int / 16) } else { hex_digit(b[i / 2] as int % 16) },
    )
}

/// The hex text of a byte string.
pub open spec fn hex_text(b: Seq<u8>) -> Seq<char> {
    ascii_chars(hex_bytes(b))
}

/// Hex text of `bytes`: two lowercase digits per byte.
pub fn to_hex(bytes: &[u8]) -> (s: String)
    ensures
        s@ == hex_text(bytes@),
        s@.len() == 2 * bytes@.len(),
{
    let mut out: Vec<u8> = Vec::new();
    let n = bytes.len();
    for i in 0..n
        invariant
            n == bytes@.len(),
            out@.len() == 2 * i,
            forall|k: int| 0 <= k < 2 * i ==> out@[k] == #[trigger] hex_bytes(bytes@)[k],
    {
        let b = bytes[i];
        let hi = b / 16;
        let lo = b % 16;
        let dh: u8 = if hi < 10 { 48 + hi } else { 87 + hi };
        let dl: u8 = if lo < 10 { 48 + lo } else { 87 + lo };
        out.push(dh);
        out.push(dl);
        proof {
            assert(hex_bytes(bytes@)[2 * i as int] == dh);
            assert(hex_bytes(bytes@)[2 * i + 1] == dl);
        }
    }
    assert(out@ =~= hex_bytes(bytes@));
    assert forall|k: int| 0 <= k < out@.len() implies #[trigger] out@[k] < 128 by {
        assert(out@[k] == hex_bytes(bytes@)[k]);
    }
    ascii_to_string(out)
}

/// Unicode `White_Space`, as `char::is_whitespace` and `str::trim` use it.
pub open spec fn is_white_space(c: char) -> bool {
    ||| '\u{9}' <= c <= '\u{d}'
    ||| c == ' '
    ||| c == '\u{85}'
    ||| c == '\u{a0}'
    ||| c == '\u{1680}'
    ||| '\u{2000}' <= c <= '\u{200a}'
    ||| c == '\u{2028}'
    ||| c == '\u{2029}'
    ||| c == '\u{202f}'
    ||| c == '\u{205f}'
    ||| c == '\u{3000}'
}

pub open spec fn trim_start(s: Seq<char>) -> Seq<char>
    decreases s.len(),
{
    if s.len() > 0 && is_white_space(s[0]) { trim_start(s.drop_first()) } else { s }
}

pub open spec fn trim_end(s: Seq<char>) -> Seq<char>
    decreases s.len(),
{
    if s.len() > 0 && is_white_space(s.last()) { trim_end(s.drop_last()) } else { s }
}

/// `str::trim`: white space removed from both ends.
pub open spec fn trim(s: Seq<char>) -> Seq<char> {
    trim_end(trim_start(s))
}

/// The value of one hex digit, either case.
pub open spec fn hex_value(c: char) -> Option<u8> {
    if '0' <= c <= '9' {
        Some((c as u32 - 48) as u8)
    } else if 'a' <= c <= 'f' {
        Some((c as u32 - 87) as u8)
    } else if 'A' <= c <= 'F' {
        Some((c as u32 - 55) as u8)
    } else {
        None
    }
}

/// `u8::from_str_radix(hi lo, 16)` on a two-character string: two hex digits,
/// or a `+` sign followed by one.
pub open spec fn pair_value(hi: char, lo: char) -> Option<u8> {
    if hi == '+' {
        hex_value(lo)
    } else if hex_value(hi) is Some && hex_value(lo) is Some {
        Some((hex_value(hi).unwrap() * 16 + hex_value(lo).unwrap()) as u8)
    } else {
        None
    }
}

/// Decode consecutive character pairs; `None` on odd length or a bad pair.
pub open spec fn decode_pairs(t: Seq<char>) -> Option<Seq<u8>> {
    if t.len() % 2 != 0 {
        None
    } else if forall|i: int| 0 <= i < t.len() / 2 ==> (#[trigger] pair_value(t[2 * i], t[2 * i + 1])) is Some {
        Some(Seq::new(t.len() / 2, |i: int| pair_value(t[2 * i], t[2 * i + 1]).unwrap()))
    } else {
        None
    }
}

/// What `from_hex` gives back for a text.
pub open spec fn hex_decode(s: Seq<char>) -> Option<Seq<u8>> {
    decode_pairs(trim(s))
}

fn is_white_space_exec(c: char) -> (b: bool)
    ensures
        b == is_white_space(c),
{
    ('\u{9}' <= c && c <= '\u{d}') || c == ' ' || c == '\u{85}' || c == '\u{a0}' || c == '\u{1680}'
        || ('\u{2000}' <= c && c <= '\u{200a}') || c == '\u{2028}' || c == '\u{2029}'
        || c == '\u{202f}' || c == '\u{205f}' || c == '\u{3000}'
}

fn hex_value_exec(c: char) -> (v: Option<u8>)
    ensures
        v == hex_value(c),
{
    if '0' <= c && c <= '9' {
        Some((c as u32 - 48) as u8)
    } else if 'a' <= c && c <= 'f' {
        Some((c as u32 - 87) as u8)
    } else if 'A' <= c && c <= 'F' {
        Some((c as u32 - 55) as u8)
    } else {
        None
    }
}

pub(crate) fn pair_value_exec(hi: char, lo: char) -> (v: Option<u8>)
    ensures
        v == pair_value(hi, lo),
{
    if hi == '+' {
        return hex_value_exec(lo);
    }
    match (hex_value_exec(hi), hex_value_exec(lo)) {
        (Some(h), Some(l)) => Some(h * 16 + l),
        _ => None,
    }
}

proof fn lemma_trim_start_skip(s: Seq<char>, i: int)
    requires
        0 <= i <= s.len(),
        forall|k: int| 0 <= k < i ==> is_white_space(#[trigger] s[k]),
    ensures
        trim_start(s) == trim_start(s.subrange(i, s.len() as int)),
    decreases i,
{
    if i > 0 {
        assert(s.drop_first().subrange(i - 1, s.drop_first().len() as int) =~= s.subrange(i, s.len() as int));
        lemma_trim_start_skip(s.drop_first(), i - 1);
    } else {
        assert(s.subrange(0, s.len() as int) =~= s);
    }
}

proof fn lemma_trim_end_skip(s: Seq<char>, j: int)
    requires
        0 <= j <= s.len(),
        forall|k: int| j <= k < s.len() ==> is_white_space(#[trigger] s[k]),
    ensures
        trim_end(s) == trim_end(s.subrange(0, j)),
    decreases s.len() - j,
{
    if j < s.len() {
        assert(s.drop_last().subrange(0, j) =~= s.subrange(0, j));
        lemma_trim_end_skip(s.drop_last(), j);
    } else {
        assert(s.subrange(0, j) =~= s);
    }
}

/// The characters of a string, in order.
pub fn chars_of(s: &str) -> (v: Vec<char>)
    ensures
        v@ == s@,
{
    broadcast use vstd::string::group_string_axioms;
    let mut v: Vec<char> = Vec::new();
    let mut it = s.chars();
    loop
        invariant
            v@ + it.remaining() == s@,
            it.decrease() is Some,
        ensures
            v@ == s@,
        decreases it.decrease()->0,
    {
        match it.next() {
            Some(c) => {
                v.push(c);
            },
            None => {
                assert(v@ =~= s@);
                break;
            },
        }
    }
    v
}

/// Parse hex text back into bytes. Surrounding white space is ignored, either
/// digit case is accepted; `None` on odd length or a non-hex pair.
pub fn from_hex(s: &str) -> (r: Option<Vec<u8>>)
    ensures
        r matches Some(v) ==> hex_decode(s@) == Some(v@),
        r is None ==> hex_decode(s@) is None,
{
    let cs = chars_of(s);
    let n = cs.len();
    let mut lo: usize = 0;
    while lo < n && is_white_space_exec(cs[lo])
        invariant
            n == cs@.len(),
            lo <= n,
            forall|k: int| 0 <= k < lo ==> is_white_space(#[trigger] cs@[k]),
        decreases n - lo,
    {
        lo += 1;
    }
    proof { lemma_trim_start_skip(cs@, lo as int); }
    let ghost rest = cs@.subrange(lo as int, n as int);
    proof {
        if lo < n {
            assert(rest[0] == cs@[lo as int]);
            assert(trim_start(rest) == rest);
        } else {
            assert(rest.len() == 0);
        }
    }
    let mut hi: usize = n;
    while hi > lo && is_white_space_exec(cs[hi - 1])
        invariant
            n == cs@.len(),
            lo <= hi <= n,
            rest == cs@.subrange(lo as int, n as int),
            forall|k: int| hi - lo <= k < rest.len() ==> is_white_space(#[trigger] rest[k]),
        decreases hi - lo,
    {
        hi -= 1;
    }
    proof {
        lemma_trim_end_skip(rest, hi - lo);
        let t = rest.subrange(0, hi - lo);
        if hi > lo {
            assert(t.last() == cs@[hi - 1]);
        }
        assert(trim_end(t) == t);
        assert(trim(s@) == t);
        assert(t =~= cs@.subrange(lo as int, hi as int));
    }
    let ghost t = cs@.subrange(lo as int, hi as int);
    if (hi - lo) % 2 != 0 {
        return None;
    }
    let mut out: Vec<u8> = Vec::new();
    let mut i: usize = lo;
    while i < hi
        invariant
            n == cs@.len(),
            lo <= i <= hi <= n,
            (hi - lo) % 2 == 0,
            (i - lo) % 2 == 0,
            t == cs@.subrange(lo as int, hi as int),
            trim(s@) == t,
            out@.len() == (i - lo) / 2,
            forall|k: int| 0 <= k < out@.len() ==> (#[trigger] pair_value(t[2 * k], t[2 * k + 1])) == Some(out@[k]),
        decreases hi - i,
    {
        let k = (i - lo) / 2;
        assert(t[2 * k] == cs@[i as int]);
        assert(t[2 * k + 1] == cs@[i + 1]);
        match pair_value_exec(cs[i], cs[i + 1]) {
            Some(b) => out.push(b),
            None => {
                assert(0 <= k < t.len() / 2);
                assert(!(pair_value(t[2 * k as int], t[2 * k + 1]) is Some));
                assert(decode_pairs(t) is None);
                return None;
            },
        }
        i += 2;
    }
    proof {
        assert(out@ =~= Seq::new(t.len() / 2, |j: int| pair_value(t[2 * j], t[2 * j + 1]).unwrap()));
    }
    Some(out)
}

/// Hex text has no white space to trim.
pub proof fn lemma_hex_trimmed(b: Seq<u8>)
    ensures
        trim(hex_text(b)) == hex_text(b),
{
    let h = hex_bytes(b);
    let t = hex_text(b);
    if t.len() > 0 {
        assert(!is_white_space(t[0])) by {
            assert(t[0] == h[0] as char);
        }
        assert(!is_white_space(t.last())) by {
            assert(t.last() == h[h.len() - 1] as char);
        }
    }
    assert(trim_start(t) == t);
}

/// Decoding the hex text of any byte string gives the bytes back.
pub proof fn lemma_hex_roundtrip(b: Seq<u8>)
    ensures
        hex_decode(hex_text(b)) == Some(b),
{
    let h = hex_bytes(b);
    let t = hex_text(b);
    if t.len() > 0 {
        assert(!is_white_space(t[0])) by {
            assert(t[0] == h[0] as char);
        }
        assert(!is_white_space(t.last())) by {
            assert(t.last() == h[h.len() - 1] as char);
        }
    }
    assert(trim_start(t) == t);
    assert(trim(t) == t);
    assert forall|i: int| 0 <= i < t.len() / 2 implies (#[trigger] pair_value(t[2 * i], t[2 * i + 1])) == Some(b[i]) by {
        let x = b[i];
        assert(t[2 * i] == h[2 * i] as char);
        assert(t[2 * i + 1] == h[2 * i + 1] as char);
        assert(h[2 * i] == hex_digit(x as int / 16));
        assert((2 * i + 1) / 2 == i);
        assert(h[2 * i + 1] == hex_digit(x as int % 16));
    }
    assert(decode_pairs(t).unwrap() =~= b);
}


/// `str::trim`: the text without white space at either end.
pub fn trimmed(s: &str) -> (t: &str)
    ensures
        t@ == trim(s@),
{
    let n = s.unicode_len();
    let mut lo: usize = 0;
    while lo < n && is_white_space_exec(s.get_char(lo))
        invariant
            n == s@.len(),
            lo <= n,
            forall|k: int| 0 <= k < lo ==> is_white_space(#[trigger] s@[k]),
        decreases n - lo,
    {
        lo += 1;
    }
    proof { lemma_trim_start_skip(s@, lo as int); }
    let ghost rest = s@.subrange(lo as int, n as int);
    proof {
        if lo < n {
            assert(rest[0] == s@[lo as int]);
        }
        assert(trim_start(rest) == rest);
    }
    let mut hi: usize = n;
    while hi > lo && is_white_space_exec(s.get_char(hi - 1))
        invariant
            n == s@.len(),
            lo <= hi <= n,
            rest == s@.subrange(lo as int, n as int),
            forall|k: int| hi - lo <= k < rest.len() ==> is_white_space(#[trigger] rest[k]),
        decreases hi - lo,
    {
        hi -= 1;
    }
    proof {
        lemma_trim_end_skip(rest, hi - lo);
        let t = rest.subrange(0, hi - lo);
        if hi > lo {
            assert(t.last() == s@[hi - 1]);
        }
        assert(trim_end(t) == t);
        assert(t =~= s@.subrange(lo as int, hi as int));
    }
    s.substring_char(lo, hi)
}

/// `str::trim_end`: the text without white space at its end.
pub fn trimmed_end(s: &str) -> (t: &str)
    ensures
        t@ == trim_end(s@),
{
    let n = s.unicode_len();
    let mut hi: usize = n;
    while hi > 0 && is_white_space_exec(s.get_char(hi - 1))
        invariant
            n == s@.len(),
            hi <= n,
            forall|k: int| hi <= k < n ==> is_white_space(#[trigger] s@[k]),
        decreases hi,
    {
        hi -= 1;
    }
    proof {
        lemma_trim_end_skip(s@, hi as int);
        let t = s@.subrange(0, hi as int);
        if hi > 0 {
            assert(t.last() == s@[hi - 1]);
        }
        assert(trim_end(t) == t);
    }
    s.substring_char(0, hi)
}

} // verus!
