//! The canonical JSON text of the envelope types: compact, fields in
//! declaration order, strings escaped byte by byte as `serde_json` does
//! (`\"`, `\\`, `\b`, `\f`, `\n`, `\r`, `\t`, other control bytes as
//! `\u00xx` with lowercase hex, everything else verbatim UTF-8), integers in
//! shortest decimal form.

use vstd::prelude::*;
use vstd::utf8::{decode_utf8, encode_utf8, valid_utf8};
use crate::text::{ascii_chars, ascii_to_string, string_from_utf8};

verus! {

pub const QUOTE: u8 = 34;
pub const BACKSLASH: u8 = 92;
pub const COMMA: u8 = 44;
pub const COLON: u8 = 58;
pub const MINUS: u8 = 45;
pub const LBRACE: u8 = 123;
pub const RBRACE: u8 = 125;
pub const LBRACKET: u8 = 91;
pub const RBRACKET: u8 = 93;

/// Lowercase hex digit for `0 <= n < 16`, as an ASCII byte.
pub open spec fn lower_hex(n: u8) -> u8 {
    if n < 10 { (48 + n) as u8 } else { (87 + n) as u8 }
}

/// How one byte of a string's UTF-8 form is written inside a JSON string.
pub open spec fn escape_byte(x: u8) -> Seq<u8> {
    if x == 34 {
        seq![92u8, 34u8]
    } else if x == 92 {
        seq![92u8, 92u8]
    } else if x == 8 {
        seq![92u8, 98u8]
    } else if x == 12 {
        seq![92u8, 102u8]
    } else if x == 10 {
        seq![92u8, 110u8]
    } else if x == 13 {
        seq![92u8, 114u8]
    } else if x == 9 {
        seq![92u8, 116u8]
    } else if x < 32 {
        seq![92u8, 117u8, 48u8, 48u8, lower_hex(x / 16), lower_hex(x % 16)]
    } else {
        seq![x]
    }
}

pub open spec fn escape_bytes(b: Seq<u8>) -> Seq<u8>
    decreases b.len(),
{
    if b.len() == 0 {
        seq![]
    } else {
        escape_byte(b[0]) + escape_bytes(b.drop_first())
    }
}

/// A JSON string literal for the characters `s`.
pub open spec fn json_string(s: Seq<char>) -> Seq<u8> {
    seq![QUOTE] + escape_bytes(encode_utf8(s)) + seq![QUOTE]
}

/// Shortest decimal digits of `n`.
pub open spec fn decimal(n: nat) -> Seq<u8>
    decreases n,
{
    if n < 10 {
        seq![(48 + n) as u8]
    } else {
        decimal(n / 10) + seq![(48 + n % 10) as u8]
    }
}

/// A JSON number for a signed integer.
pub open spec fn json_int(n: int) -> Seq<u8> {
    if n < 0 { seq![MINUS] + decimal((-n) as nat) } else { decimal(n as nat) }
}

pub proof fn lemma_escape_bytes_concat(a: Seq<u8>, b: Seq<u8>)
    ensures
        escape_bytes(a + b) == escape_bytes(a) + escape_bytes(b),
    decreases a.len(),
{
    if a.len() == 0 {
        assert(a + b =~= b);
    } else {
        assert((a + b).drop_first() =~= a.drop_first() + b);
        lemma_escape_bytes_concat(a.drop_first(), b);
    }
}

pub proof fn lemma_escape_bytes_push(a: Seq<u8>, x: u8)
    ensures
        escape_bytes(a.push(x)) == escape_bytes(a) + escape_byte(x),
{
    lemma_escape_bytes_concat(a, seq![x]);
    assert(a.push(x) =~= a + seq![x]);
    assert(seq![x].drop_first() =~= Seq::<u8>::empty());
    assert(escape_bytes(Seq::<u8>::empty()) == Seq::<u8>::empty());
    assert(escape_bytes(seq![x]) =~= escape_byte(x));
}

/// Append raw bytes.
pub fn push_bytes(out: &mut Vec<u8>, frag: &[u8])
    ensures
        final(out)@ == old(out)@ + frag@,
{
    let n = frag.len();
    let ghost start = out@;
    for i in 0..n
        invariant
            n == frag@.len(),
            out@ == start + frag@.subrange(0, i as int),
    {
        out.push(frag[i]);
        assert(out@ =~= start + frag@.subrange(0, i + 1));
    }
    assert(frag@.subrange(0, n as int) =~= frag@);
}

fn lower_hex_exec(n: u8) -> (d: u8)
    requires
        n < 16,
    ensures
        d == lower_hex(n),
{
    if n < 10 { 48 + n } else { 87 + n }
}

/// Append how the byte `x` is written inside a JSON string.
pub fn push_escaped_byte(out: &mut Vec<u8>, x: u8)
    ensures
        final(out)@ == old(out)@ + escape_byte(x),
{
    let ghost start = out@;
    if x == 34 {
        push_bytes(out, &[92u8, 34]);
    } else if x == 92 {
        push_bytes(out, &[92u8, 92]);
    } else if x == 8 {
        push_bytes(out, &[92u8, 98]);
    } else if x == 12 {
        push_bytes(out, &[92u8, 102]);
    } else if x == 10 {
        push_bytes(out, &[92u8, 110]);
    } else if x == 13 {
        push_bytes(out, &[92u8, 114]);
    } else if x == 9 {
        push_bytes(out, &[92u8, 116]);
    } else if x < 32 {
        let h = lower_hex_exec(x / 16);
        let l = lower_hex_exec(x % 16);
        push_bytes(out, &[92u8, 117, 48, 48, h, l]);
    } else {
        out.push(x);
    }
    assert(out@ =~= start + escape_byte(x));
}

/// Append the JSON string literal for `s`.
pub fn push_json_string(out: &mut Vec<u8>, s: &str)
    ensures
        final(out)@ == old(out)@ + json_string(s@),
{
    let bytes = s.as_bytes();
    let n = bytes.len();
    let ghost start = out@;
    out.push(QUOTE);
    for i in 0..n
        invariant
            n == bytes@.len(),
            bytes@ == encode_utf8(s@),
            out@ == start + seq![QUOTE] + escape_bytes(bytes@.subrange(0, i as int)),
    {
        proof {
            lemma_escape_bytes_push(bytes@.subrange(0, i as int), bytes@[i as int]);
            assert(bytes@.subrange(0, i as int).push(bytes@[i as int]) =~= bytes@.subrange(0, i + 1));
        }
        push_escaped_byte(out, bytes[i]);
        assert(out@ =~= start + seq![QUOTE] + escape_bytes(bytes@.subrange(0, i + 1)));
    }
    assert(bytes@.subrange(0, n as int) =~= bytes@);
    out.push(QUOTE);
    assert(out@ =~= start + json_string(s@));
}

/// Append the shortest decimal digits of `n`.
pub fn push_decimal(out: &mut Vec<u8>, n: u64)
    ensures
        final(out)@ == old(out)@ + decimal(n as nat),
    decreases n,
{
    let ghost start = out@;
    if n >= 10 {
        push_decimal(out, n / 10);
    }
    let d: u8 = (n % 10) as u8;
    out.push(48 + d);
    assert(out@ =~= start + decimal(n as nat));
}

/// Append a signed integer as a JSON number.
pub fn push_json_int(out: &mut Vec<u8>, n: i64)
    ensures
        final(out)@ == old(out)@ + json_int(n as int),
{
    let ghost start = out@;
    if n < 0 {
        out.push(MINUS);
        let m: u64 = (0i128 - n as i128) as u64;
        push_decimal(out, m);
    } else {
        push_decimal(out, n as u64);
    }
    assert(out@ =~= start + json_int(n as int));
}


// ---------------------------------------------------------------------------
// Reading the canonical forms back.

/// `w` stands in `b` at `pos`.
pub open spec fn at(b: Seq<u8>, pos: int, w: Seq<u8>) -> bool {
    0 <= pos && pos + w.len() <= b.len() && b.subrange(pos, pos + w.len()) == w
}

pub proof fn lemma_at_concat(b: Seq<u8>, pos: int, w1: Seq<u8>, w2: Seq<u8>)
    ensures
        at(b, pos, w1 + w2) <==> at(b, pos, w1) && at(b, pos + w1.len(), w2),
{
    if at(b, pos, w1 + w2) {
        assert(b.subrange(pos, pos + w1.len()) =~= (w1 + w2).subrange(0, w1.len() as int));
        assert(b.subrange(pos + w1.len(), pos + w1.len() + w2.len()) =~= (w1 + w2).subrange(
            w1.len() as int,
            (w1.len() + w2.len()) as int,
        ));
        assert((w1 + w2).subrange(0, w1.len() as int) =~= w1);
        assert((w1 + w2).subrange(w1.len() as int, (w1.len() + w2.len()) as int) =~= w2);
    }
    if at(b, pos, w1) && at(b, pos + w1.len(), w2) {
        assert(b.subrange(pos, pos + (w1 + w2).len()) =~= b.subrange(pos, pos + w1.len()) + b.subrange(
            pos + w1.len(),
            pos + w1.len() + w2.len(),
        ));
    }
}

/// The value of a lowercase hex digit.
pub open spec fn lower_hex_value(c: u8) -> Option<u8> {
    if 48 <= c <= 57 {
        Some((c - 48) as u8)
    } else if 97 <= c <= 102 {
        Some((c - 87) as u8)
    } else {
        None
    }
}

/// The byte a two-character escape (`\x`) stands for.
pub open spec fn short_escape(c: u8) -> Option<u8> {
    if c == 34 {
        Some(34u8)
    } else if c == 92 {
        Some(92u8)
    } else if c == 98 {
        Some(8u8)
    } else if c == 102 {
        Some(12u8)
    } else if c == 110 {
        Some(10u8)
    } else if c == 114 {
        Some(13u8)
    } else if c == 116 {
        Some(9u8)
    } else {
        None
    }
}

/// Control bytes that have a two-character escape.
pub open spec fn has_short_escape(x: u8) -> bool {
    x == 8 || x == 9 || x == 10 || x == 12 || x == 13
}

/// The byte a `\u00xx` escape at `i` stands for, in canonical form only.
pub open spec fn unicode_escape(b: Seq<u8>, i: int) -> Option<u8> {
    if b.len() >= 6 && i <= b.len() - 6 && b[i + 2] == 48 && b[i + 3] == 48 && lower_hex_value(b[i + 4]) is Some
        && lower_hex_value(b[i + 5]) is Some {
        let x = (lower_hex_value(b[i + 4]).unwrap() * 16 + lower_hex_value(b[i + 5]).unwrap()) as u8;
        if x < 32 && !has_short_escape(x) {
            Some(x)
        } else {
            None
        }
    } else {
        None
    }
}

/// Read the escaped contents of a string from `i` to its closing quote,
/// collecting the bytes in `acc`; the raw bytes and the position after the
/// quote.
pub open spec fn unescape(b: Seq<u8>, i: int, acc: Seq<u8>) -> Option<(Seq<u8>, int)>
    decreases b.len() - i,
{
    if i < 0 || i >= b.len() {
        None
    } else if b[i] == QUOTE {
        Some((acc, i + 1))
    } else if b[i] == BACKSLASH {
        if i + 1 >= b.len() {
            None
        } else if short_escape(b[i + 1]) is Some {
            unescape(b, i + 2, acc.push(short_escape(b[i + 1]).unwrap()))
        } else if b[i + 1] == 117 && unicode_escape(b, i) is Some {
            unescape(b, i + 6, acc.push(unicode_escape(b, i).unwrap()))
        } else {
            None
        }
    } else if b[i] < 32 {
        None
    } else {
        unescape(b, i + 1, acc.push(b[i]))
    }
}

/// Read a JSON string literal at `pos`: its characters and the position after it.
pub open spec fn read_string(b: Seq<u8>, pos: int) -> Option<(Seq<char>, int)> {
    if 0 <= pos < b.len() && b[pos] == QUOTE {
        match unescape(b, pos + 1, seq![]) {
            Some((raw, end)) => if valid_utf8(raw) {
                Some((decode_utf8(raw), end))
            } else {
                None
            },
            None => None,
        }
    } else {
        None
    }
}

proof fn lemma_lower_hex(x: u8)
    requires
        x < 16,
    ensures
        lower_hex_value(lower_hex(x)) == Some(x),
{
}

/// Reading back the escape of one byte.
proof fn lemma_unescape_step(b: Seq<u8>, i: int, acc: Seq<u8>, x: u8)
    requires
        at(b, i, escape_byte(x)),
    ensures
        unescape(b, i, acc) == unescape(b, i + escape_byte(x).len(), acc.push(x)),
{
    let e = escape_byte(x);
    assert(forall|k: int| 0 <= k < e.len() ==> b[i + k] == #[trigger] e[k]) by {
        assert forall|k: int| 0 <= k < e.len() implies b[i + k] == #[trigger] e[k] by {
            assert(b.subrange(i, i + e.len())[k] == b[i + k]);
        }
    }
    if x == 34 || x == 92 || has_short_escape(x) {
        assert(b[i] == 92 && b[i + 1] == e[1]);
    } else if x < 32 {
        assert(b[i] == 92 && b[i + 1] == 117);
        lemma_lower_hex(x / 16);
        lemma_lower_hex(x % 16);
        assert(b[i + 4] == lower_hex(x / 16));
        assert(b[i + 5] == lower_hex(x % 16));
        assert((x / 16) * 16 + x % 16 == x);
        assert(unicode_escape(b, i) == Some(x));
    } else {
        assert(e[0] == x);
        assert(b[i + 0] == e[0]);
    }
}

proof fn lemma_unescape_complete(b: Seq<u8>, i: int, acc: Seq<u8>, raw: Seq<u8>)
    requires
        at(b, i, escape_bytes(raw) + seq![QUOTE]),
    ensures
        unescape(b, i, acc) == Some((acc + raw, i + escape_bytes(raw).len() + 1)),
    decreases raw.len(),
{
    lemma_at_concat(b, i, escape_bytes(raw), seq![QUOTE]);
    if raw.len() == 0 {
        assert(b.subrange(i, i + 1)[0] == b[i]);
        assert(acc + raw =~= acc);
    } else {
        let x = raw[0];
        let rest = raw.drop_first();
        assert(escape_bytes(raw) == escape_byte(x) + escape_bytes(rest));
        assert(escape_bytes(raw) + seq![QUOTE] =~= escape_byte(x) + (escape_bytes(rest) + seq![QUOTE]));
        lemma_at_concat(b, i, escape_byte(x), escape_bytes(rest) + seq![QUOTE]);
        lemma_unescape_step(b, i, acc, x);
        lemma_unescape_complete(b, i + escape_byte(x).len(), acc.push(x), rest);
        assert(acc.push(x) + rest =~= acc + raw);
    }
}

/// What the escaped contents read from `i` spell.
proof fn lemma_unescape_sound(b: Seq<u8>, i: int, acc: Seq<u8>)
    requires
        unescape(b, i, acc) is Some,
    ensures
        ({
            let (raw, end) = unescape(b, i, acc).unwrap();
            &&& i < end <= b.len()
            &&& raw.len() >= acc.len()
            &&& raw.subrange(0, acc.len() as int) == acc
            &&& b.subrange(i, end) == escape_bytes(raw.subrange(acc.len() as int, raw.len() as int)) + seq![QUOTE]
        }),
    decreases b.len() - i,
{
    let (raw, end) = unescape(b, i, acc).unwrap();
    if b[i] == QUOTE {
        assert(raw.subrange(acc.len() as int, raw.len() as int) =~= Seq::<u8>::empty());
        assert(b.subrange(i, end) =~= seq![QUOTE]);
        assert(raw.subrange(0, acc.len() as int) =~= acc);
    } else {
        let (x, w) = if b[i] == BACKSLASH {
            if short_escape(b[i + 1]) is Some {
                (short_escape(b[i + 1]).unwrap(), 2int)
            } else {
                (unicode_escape(b, i).unwrap(), 6int)
            }
        } else {
            (b[i], 1int)
        };
        let acc2 = acc.push(x);
        assert(unescape(b, i, acc) == unescape(b, i + w, acc2));
        lemma_unescape_sound(b, i + w, acc2);
        // the bytes consumed here are exactly the escape of x
        assert(b.subrange(i, i + w) =~= escape_byte(x)) by {
            if b[i] == BACKSLASH && short_escape(b[i + 1]) is None {
                let h = lower_hex_value(b[i + 4]).unwrap();
                let l = lower_hex_value(b[i + 5]).unwrap();
                assert(x / 16 == h && x % 16 == l);
                assert(lower_hex(h) == b[i + 4]);
                assert(lower_hex(l) == b[i + 5]);
            }
        }
        let tail = raw.subrange(acc2.len() as int, raw.len() as int);
        let mine = raw.subrange(acc.len() as int, raw.len() as int);
        assert(raw.subrange(0, acc2.len() as int)[acc.len() as int] == x);
        assert(mine =~= seq![x] + tail);
        assert(mine.drop_first() =~= tail);
        assert(escape_bytes(mine) == escape_byte(x) + escape_bytes(tail));
        assert(b.subrange(i, end) =~= b.subrange(i, i + w) + b.subrange(i + w, end));
        assert(raw.subrange(0, acc.len() as int) =~= raw.subrange(0, acc2.len() as int).subrange(0, acc.len() as int));
    }
}

/// Reading a string literal gives back the characters it was written from.
pub proof fn lemma_read_string_complete(b: Seq<u8>, pos: int, s: Seq<char>)
    requires
        at(b, pos, json_string(s)),
    ensures
        read_string(b, pos) == Some((s, pos + json_string(s).len())),
{
    let raw = encode_utf8(s);
    assert(json_string(s) =~= seq![QUOTE] + (escape_bytes(raw) + seq![QUOTE]));
    lemma_at_concat(b, pos, seq![QUOTE], escape_bytes(raw) + seq![QUOTE]);
    assert(b.subrange(pos, pos + 1)[0] == b[pos]);
    lemma_unescape_complete(b, pos + 1, seq![], raw);
    assert(Seq::<u8>::empty() + raw =~= raw);
    vstd::utf8::encode_utf8_valid_utf8(s);
    vstd::utf8::encode_utf8_decode_utf8(s);
}

/// Whatever reading a string literal accepts is the literal of what it read.
pub proof fn lemma_read_string_sound(b: Seq<u8>, pos: int)
    requires
        read_string(b, pos) is Some,
    ensures
        ({
            let (s, end) = read_string(b, pos).unwrap();
            end == pos + json_string(s).len() && at(b, pos, json_string(s))
        }),
{
    let (raw, end) = unescape(b, pos + 1, seq![]).unwrap();
    lemma_unescape_sound(b, pos + 1, seq![]);
    assert(raw.subrange(0, raw.len() as int) =~= raw);
    let s = decode_utf8(raw);
    vstd::utf8::decode_utf8_encode_utf8(raw);
    assert(encode_utf8(s) == raw);
    assert(b.subrange(pos, end) =~= seq![QUOTE] + b.subrange(pos + 1, end));
    assert(json_string(s) =~= seq![QUOTE] + (escape_bytes(raw) + seq![QUOTE]));
}

fn lower_hex_value_exec(c: u8) -> (r: Option<u8>)
    ensures
        r == lower_hex_value(c),
{
    if 48 <= c && c <= 57 {
        Some(c - 48)
    } else if 97 <= c && c <= 102 {
        Some(c - 87)
    } else {
        None
    }
}

fn short_escape_exec(c: u8) -> (r: Option<u8>)
    ensures
        r == short_escape(c),
{
    if c == 34 {
        Some(34)
    } else if c == 92 {
        Some(92)
    } else if c == 98 {
        Some(8)
    } else if c == 102 {
        Some(12)
    } else if c == 110 {
        Some(10)
    } else if c == 114 {
        Some(13)
    } else if c == 116 {
        Some(9)
    } else {
        None
    }
}

fn unicode_escape_exec(b: &[u8], i: usize) -> (r: Option<u8>)
    requires
        i < b@.len(),
    ensures
        r == unicode_escape(b@, i as int),
{
    if b.len() >= 6 && i <= b.len() - 6 && b[i + 2] == 48 && b[i + 3] == 48 {
        match (lower_hex_value_exec(b[i + 4]), lower_hex_value_exec(b[i + 5])) {
            (Some(h), Some(l)) => {
                let x = h * 16 + l;
                if x < 32 && !(x == 8 || x == 9 || x == 10 || x == 12 || x == 13) {
                    Some(x)
                } else {
                    None
                }
            },
            _ => None,
        }
    } else {
        None
    }
}

/// Read a JSON string literal at `pos`.
pub fn read_string_exec(b: &[u8], pos: usize) -> (r: Option<(String, usize)>)
    ensures
        r matches Some((s, e)) ==> read_string(b@, pos as int) == Some((s@, e as int)) && e <= b@.len(),
        r is None ==> read_string(b@, pos as int) is None,
{
    if pos >= b.len() || b[pos] != QUOTE {
        return None;
    }
    let mut raw: Vec<u8> = Vec::new();
    let mut i: usize = pos + 1;
    let n = b.len();
    loop
        invariant
            n == b@.len(),
            pos < n,
            b@[pos as int] == QUOTE,
            pos < i,
            unescape(b@, pos + 1, seq![]) == unescape(b@, i as int, raw@),
        decreases n - i,
    {
        if i >= n {
            return None;
        }
        let c = b[i];
        if c == QUOTE {
            let end = i + 1;
            match string_from_utf8(raw) {
                Some(s) => {
                    return Some((s, end));
                },
                None => {
                    return None;
                },
            }
        } else if c == BACKSLASH {
            if i + 1 >= n {
                return None;
            }
            match short_escape_exec(b[i + 1]) {
                Some(x) => {
                    raw.push(x);
                    i = i + 2;
                },
                None => {
                    if b[i + 1] != 117 {
                        return None;
                    }
                    match unicode_escape_exec(b, i) {
                        Some(x) => {
                            raw.push(x);
                            i = i + 6;
                        },
                        None => {
                            return None;
                        },
                    }
                },
            }
        } else if c < 32 {
            return None;
        } else {
            raw.push(c);
            i = i + 1;
        }
    }
}


pub open spec fn is_digit(c: u8) -> bool {
    48 <= c <= 57
}

/// Read decimal digits from `i` onward, continuing the value `acc`.
pub open spec fn read_digits(b: Seq<u8>, i: int, acc: nat) -> (nat, int)
    decreases b.len() - i,
{
    if 0 <= i < b.len() && is_digit(b[i]) {
        read_digits(b, i + 1, acc * 10 + (b[i] - 48) as nat)
    } else {
        (acc, i)
    }
}

/// Read a natural number in shortest decimal form at `pos` (a lone `0`, or
/// digits not starting with `0`).
pub open spec fn read_nat(b: Seq<u8>, pos: int) -> Option<(nat, int)> {
    if 0 <= pos < b.len() && is_digit(b[pos]) {
        if b[pos] == 48 {
            Some((0, pos + 1))
        } else {
            Some(read_digits(b, pos + 1, (b[pos] - 48) as nat))
        }
    } else {
        None
    }
}

/// Read a `u32` number at `pos`.
pub open spec fn read_u32(b: Seq<u8>, pos: int) -> Option<(u32, int)> {
    match read_nat(b, pos) {
        Some((n, e)) => if n <= u32::MAX {
            Some((n as u32, e))
        } else {
            None
        },
        None => None,
    }
}

/// Read an `i64` number at `pos` (`-` only before a non-zero magnitude).
pub open spec fn read_i64(b: Seq<u8>, pos: int) -> Option<(i64, int)> {
    if 0 <= pos < b.len() && b[pos] == MINUS {
        match read_nat(b, pos + 1) {
            Some((n, e)) => if 1 <= n <= 0x8000_0000_0000_0000 {
                Some(((0 - n) as i64, e))
            } else {
                None
            },
            None => None,
        }
    } else {
        match read_nat(b, pos) {
            Some((n, e)) => if n <= i64::MAX {
                Some((n as i64, e))
            } else {
                None
            },
            None => None,
        }
    }
}

/// After the number: the end, or a byte that is not a digit.
pub open spec fn ends_number(b: Seq<u8>, i: int) -> bool {
    i >= b.len() || !is_digit(b[i])
}

proof fn lemma_div_mod_10(v: nat, d: nat)
    requires
        d < 10,
    ensures
        (v * 10 + d) / 10 == v,
        (v * 10 + d) % 10 == d,
{
    assert((v * 10 + d) / 10 == v) by (nonlinear_arith)
        requires d < 10;
    assert((v * 10 + d) % 10 == d) by (nonlinear_arith)
        requires d < 10;
}

proof fn lemma_decimal_push(v: nat, d: nat)
    requires
        v >= 1,
        d < 10,
    ensures
        decimal(v * 10 + d) == decimal(v) + seq![(48 + d) as u8],
{
    lemma_div_mod_10(v, d);
}

/// The digits read after a non-zero start spell that value.
proof fn lemma_read_digits_sound(b: Seq<u8>, start: int, i: int, acc: nat)
    requires
        acc >= 1,
        0 <= start < i <= b.len(),
        b.subrange(start, i) == decimal(acc),
    ensures
        ({
            let (n, e) = read_digits(b, i, acc);
            &&& i <= e <= b.len()
            &&& b.subrange(start, e) == decimal(n)
            &&& n >= acc
            &&& ends_number(b, e)
        }),
    decreases b.len() - i,
{
    if 0 <= i < b.len() && is_digit(b[i]) {
        let d = (b[i] - 48) as nat;
        lemma_decimal_push(acc, d);
        assert(b.subrange(start, i + 1) =~= b.subrange(start, i) + seq![b[i]]);
        assert((48 + d) as u8 == b[i]);
        lemma_read_digits_sound(b, start, i + 1, acc * 10 + d);
    }
}

/// Whatever number is read is the decimal form of its value.
pub proof fn lemma_read_nat_sound(b: Seq<u8>, pos: int)
    requires
        read_nat(b, pos) is Some,
    ensures
        ({
            let (n, e) = read_nat(b, pos).unwrap();
            e == pos + decimal(n).len() && at(b, pos, decimal(n)) && ends_number(b, e) || (n == 0 && e
                == pos + 1 && at(b, pos, decimal(n)))
        }),
{
    if b[pos] == 48 {
        assert(b.subrange(pos, pos + 1) =~= seq![48u8]);
    } else {
        let d = (b[pos] - 48) as nat;
        assert(b.subrange(pos, pos + 1) =~= decimal(d));
        lemma_read_digits_sound(b, pos, pos + 1, d);
        let (n, e) = read_digits(b, pos + 1, d);
        assert(b.subrange(pos, e).len() == e - pos);
    }
}

/// The value of digits read left to right.
pub open spec fn digits_value(acc: nat, ds: Seq<u8>) -> nat
    decreases ds.len(),
{
    if ds.len() == 0 {
        acc
    } else {
        digits_value(acc * 10 + (ds[0] - 48) as nat, ds.drop_first())
    }
}

proof fn lemma_digits_value_push(acc: nat, ds: Seq<u8>, d: u8)
    requires
        is_digit(d),
        forall|k: int| 0 <= k < ds.len() ==> is_digit(#[trigger] ds[k]),
    ensures
        digits_value(acc, ds.push(d)) == digits_value(acc, ds) * 10 + (d - 48) as nat,
    decreases ds.len(),
{
    if ds.len() > 0 {
        assert(ds.push(d).drop_first() =~= ds.drop_first().push(d));
        assert(ds.push(d)[0] == ds[0]);
        assert forall|k: int| 0 <= k < ds.drop_first().len() implies is_digit(#[trigger] ds.drop_first()[k]) by {
            assert(ds.drop_first()[k] == ds[k + 1]);
        }
        lemma_digits_value_push(acc * 10 + (ds[0] - 48) as nat, ds.drop_first(), d);
    } else {
        assert(ds.push(d).drop_first() =~= Seq::<u8>::empty());
        assert(ds.push(d)[0] == d);
        assert(digits_value(acc * 10 + (d - 48) as nat, Seq::<u8>::empty()) == acc * 10 + (d - 48) as nat);
    }
}

pub proof fn lemma_decimal_props(n: nat)
    ensures
        decimal(n).len() >= 1,
        forall|k: int| 0 <= k < decimal(n).len() ==> is_digit(#[trigger] decimal(n)[k]),
        digits_value(0, decimal(n)) == n,
        n >= 1 ==> decimal(n)[0] != 48,
        n == 0 ==> decimal(n) == seq![48u8],
    decreases n,
{
    if n >= 10 {
        lemma_decimal_props(n / 10);
        let d = (n % 10) as nat;
        assert(decimal(n) == decimal(n / 10) + seq![(48 + d) as u8]);
        lemma_digits_value_push(0, decimal(n / 10), (48 + d) as u8);
        assert(decimal(n / 10).push((48 + d) as u8) =~= decimal(n));
        assert((n / 10) * 10 + d == n) by (nonlinear_arith)
            requires d == n % 10;
        assert(decimal(n)[0] == decimal(n / 10)[0]);
    } else {
        assert(digits_value(n, Seq::<u8>::empty()) == n);
        assert(decimal(n).drop_first() =~= Seq::<u8>::empty());
    }
}

proof fn lemma_read_digits_complete(b: Seq<u8>, i: int, acc: nat, ds: Seq<u8>)
    requires
        at(b, i, ds),
        forall|k: int| 0 <= k < ds.len() ==> is_digit(#[trigger] ds[k]),
        ends_number(b, i + ds.len()),
    ensures
        read_digits(b, i, acc) == (digits_value(acc, ds), i + ds.len()),
    decreases ds.len(),
{
    if ds.len() > 0 {
        assert(b.subrange(i, i + ds.len())[0] == b[i]);
        assert(b[i] == ds[0]);
        assert(at(b, i + 1, ds.drop_first())) by {
            assert(b.subrange(i + 1, i + 1 + ds.drop_first().len()) =~= b.subrange(i, i + ds.len()).drop_first());
        }
        lemma_read_digits_complete(b, i + 1, acc * 10 + (ds[0] - 48) as nat, ds.drop_first());
    }
}

/// Reading the decimal form of `n` gives `n` back.
pub proof fn lemma_read_nat_complete(b: Seq<u8>, pos: int, n: nat)
    requires
        at(b, pos, decimal(n)),
        ends_number(b, pos + decimal(n).len()),
    ensures
        read_nat(b, pos) == Some((n, pos + decimal(n).len())),
{
    lemma_decimal_props(n);
    let ds = decimal(n);
    assert(b.subrange(pos, pos + ds.len())[0] == b[pos]);
    if n == 0 {
    } else {
        assert(at(b, pos + 1, ds.drop_first())) by {
            assert(b.subrange(pos + 1, pos + 1 + ds.drop_first().len()) =~= b.subrange(pos, pos + ds.len()).drop_first());
        }
        assert forall|k: int| 0 <= k < ds.drop_first().len() implies is_digit(#[trigger] ds.drop_first()[k]) by {
            assert(ds.drop_first()[k] == ds[k + 1]);
        }
        lemma_read_digits_complete(b, pos + 1, (b[pos] - 48) as nat, ds.drop_first());
        assert(digits_value(0, ds) == digits_value((ds[0] - 48) as nat, ds.drop_first()));
    }
}

/// Read digits into a `u64`, giving up once the value passes `limit`.
fn read_nat_exec(b: &[u8], pos: usize, limit: u64) -> (r: Option<(u64, usize)>)
    requires
        limit <= 0x8000_0000_0000_0000,
    ensures
        r matches Some((v, e)) ==> read_nat(b@, pos as int) == Some((v as nat, e as int)) && v <= limit && e <= b@.len(),
        r is None ==> (read_nat(b@, pos as int) matches Some((n, e)) ==> n > limit),
{
    let n = b.len();
    if pos >= n || !(48 <= b[pos] && b[pos] <= 57) {
        return None;
    }
    if b[pos] == 48 {
        return Some((0, pos + 1));
    }
    let mut acc: u64 = (b[pos] - 48) as u64;
    if acc > limit {
        proof {
            lemma_read_digits_monotone(b@, pos + 1, acc as nat);
        }
        return None;
    }
    let mut i: usize = pos + 1;
    while i < n && 48 <= b[i] && b[i] <= 57
        invariant
            n == b@.len(),
            pos < i <= n,
            acc <= limit,
            limit <= 0x8000_0000_0000_0000,
            read_nat(b@, pos as int) == Some(read_digits(b@, i as int, acc as nat)),
        decreases n - i,
    {
        let d = (b[i] - 48) as u64;
        let next: u128 = acc as u128 * 10 + d as u128;
        if next > limit as u128 {
            proof {
                lemma_read_digits_monotone(b@, i + 1, next as nat);
            }
            return None;
        }
        acc = next as u64;
        i += 1;
    }
    Some((acc, i))
}

proof fn lemma_read_digits_monotone(b: Seq<u8>, i: int, acc: nat)
    ensures
        read_digits(b, i, acc).0 >= acc,
    decreases b.len() - i,
{
    if 0 <= i < b.len() && is_digit(b[i]) {
        lemma_read_digits_monotone(b, i + 1, acc * 10 + (b[i] - 48) as nat);
    }
}

pub fn read_u32_exec(b: &[u8], pos: usize) -> (r: Option<(u32, usize)>)
    ensures
        r matches Some((v, e)) ==> read_u32(b@, pos as int) == Some((v, e as int)) && e <= b@.len(),
        r is None ==> read_u32(b@, pos as int) is None,
{
    match read_nat_exec(b, pos, 0xffff_ffff) {
        Some((v, e)) => Some((v as u32, e)),
        None => None,
    }
}

pub fn read_i64_exec(b: &[u8], pos: usize) -> (r: Option<(i64, usize)>)
    ensures
        r matches Some((v, e)) ==> read_i64(b@, pos as int) == Some((v, e as int)) && e <= b@.len(),
        r is None ==> read_i64(b@, pos as int) is None,
{
    if pos < b.len() && b[pos] == MINUS {
        match read_nat_exec(b, pos + 1, 0x8000_0000_0000_0000) {
            Some((v, e)) => {
                if v >= 1 {
                    Some(((0i128 - v as i128) as i64, e))
                } else {
                    None
                }
            },
            None => None,
        }
    } else {
        match read_nat_exec(b, pos, 0x7fff_ffff_ffff_ffff) {
            Some((v, e)) => Some((v as i64, e)),
            None => None,
        }
    }
}

/// A signed number read back from its JSON form.
pub proof fn lemma_read_i64_complete(b: Seq<u8>, pos: int, n: i64)
    requires
        at(b, pos, json_int(n as int)),
        ends_number(b, pos + json_int(n as int).len()),
    ensures
        read_i64(b, pos) == Some((n, pos + json_int(n as int).len())),
{
    lemma_decimal_props(if n < 0 { (-n) as nat } else { n as nat });
    if n < 0 {
        let m = (-n) as nat;
        lemma_at_concat(b, pos, seq![MINUS], decimal(m));
        assert(b.subrange(pos, pos + 1)[0] == b[pos]);
        lemma_read_nat_complete(b, pos + 1, m);
    } else {
        assert(b.subrange(pos, pos + decimal(n as nat).len())[0] == b[pos]);
        assert(b[pos] != MINUS);
        lemma_read_nat_complete(b, pos, n as nat);
    }
}

/// A read signed number is the JSON form of its value.
pub proof fn lemma_read_i64_sound(b: Seq<u8>, pos: int)
    requires
        read_i64(b, pos) is Some,
    ensures
        ({
            let (n, e) = read_i64(b, pos).unwrap();
            e == pos + json_int(n as int).len() && at(b, pos, json_int(n as int))
        }),
{
    if 0 <= pos < b.len() && b[pos] == MINUS {
        lemma_read_nat_sound(b, pos + 1);
        let (m, e) = read_nat(b, pos + 1).unwrap();
        assert(b.subrange(pos, pos + 1) =~= seq![MINUS]);
        lemma_at_concat(b, pos, seq![MINUS], decimal(m));
    } else {
        lemma_read_nat_sound(b, pos);
    }
}

/// The shortest decimal digits of `n`, as text.
pub fn decimal_string(n: u64) -> (s: String)
    ensures
        s@ == ascii_chars(decimal(n as nat)),
{
    let mut digits: Vec<u8> = Vec::new();
    push_decimal(&mut digits, n);
    proof {
        lemma_decimal_props(n as nat);
        assert forall|i: int| 0 <= i < digits@.len() implies #[trigger] digits@[i] < 128 by {
            assert(is_digit(decimal(n as nat)[i]));
        }
    }
    ascii_to_string(digits)
}

} // verus!
