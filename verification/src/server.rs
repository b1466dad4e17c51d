//! The zero-knowledge sync relay.
//!
//! The relay stores opaque, client-encrypted envelope blobs in append-only
//! logs bucketed by an opaque id (an HKDF tag of the client's workspace key);
//! it never sees plaintext, only bucket ids, blob counts, sizes and timing.
//!
//! Protocol (one append-only log per bucket):
//! - `POST /push/<bucket>`  body `{"blobs":["<hex>",...]}`  -> `{"accepted":K,"cursor":N}`
//! - `GET  /pull/<bucket>?since=N`                          -> `{"blobs":[...],"cursor":N}`
//! - `GET  /health`                                         -> `ok`
//!
//! Every decision is made here. Touching the bucket logs is the caller's:
//! `handle` says whether to answer at once, to append blobs to a bucket's
//! log, or to read one; `pushed` and `pulled` give the answer once that is
//! done.

use vstd::prelude::*;
use crate::hex::{chars_of, hex_value, trim, trimmed};
use crate::json::{decimal, decimal_string, escape_byte, lower_hex, push_escaped_byte};
use crate::json_value::{entry_of, json_parse, json_view, json_views, json_entries, lemma_json_entries_all, lemma_json_views_all, opt_json, parse_json, JsonValue, JsonValueView};
use crate::order::str_eq;
use crate::text::{all_ascii, ascii_chars, ascii_to_string, dec_value, is_dec_digit, lemma_dec_value_grows};

verus! {

/// An HTTP answer: status code and body.
pub struct Response {
    pub status: u16,
    pub body: String,
}

// ---------------------------------------------------------------------------
// JSON text, as serde_json writes it.

/// Characters that a JSON string cannot hold as they are.
pub open spec fn needs_escape(c: char) -> bool {
    c == '"' || c == '\\' || (c as u32) < 32
}

/// How one character is written inside a JSON string.
pub open spec fn escape_char(c: char) -> Seq<char> {
    if needs_escape(c) { ascii_chars(escape_byte((c as u32) as u8)) } else { seq![c] }
}

pub open spec fn escape_chars(s: Seq<char>) -> Seq<char>
    decreases s.len(),
{
    if s.len() == 0 {
        seq![]
    } else {
        escape_chars(s.drop_last()) + escape_char(s.last())
    }
}

/// A JSON string literal holding `s`.
pub open spec fn json_text(s: Seq<char>) -> Seq<char> {
    seq!['"'] + escape_chars(s) + seq!['"']
}

/// JSON string literals for `items`, separated by commas.
pub open spec fn json_texts(items: Seq<Seq<char>>) -> Seq<char>
    decreases items.len(),
{
    if items.len() == 0 {
        seq![]
    } else if items.len() == 1 {
        json_text(items[0])
    } else {
        json_texts(items.drop_last()) + seq![','] + json_text(items.last())
    }
}

/// The shortest decimal digits of `n`.
pub open spec fn number_text(n: nat) -> Seq<char> {
    ascii_chars(decimal(n))
}

pub open spec fn error_body(msg: Seq<char>) -> Seq<char> {
    "{\"error\":"@ + json_text(msg) + "}"@
}

pub open spec fn push_body(accepted: nat, cursor: nat) -> Seq<char> {
    "{\"accepted\":"@ + number_text(accepted) + ",\"cursor\":"@ + number_text(cursor) + "}"@
}

pub open spec fn pull_body(blobs: Seq<Seq<char>>, cursor: nat) -> Seq<char> {
    "{\"blobs\":["@ + json_texts(blobs) + "],\"cursor\":"@ + number_text(cursor) + "}"@
}

proof fn lemma_escape_ascii(x: u8)
    requires
        x < 128,
    ensures
        all_ascii(escape_byte(x)),
{
    if x < 32 && x != 8 && x != 12 && x != 10 && x != 13 && x != 9 {
        assert(x / 16 < 16 && x % 16 < 16);
        assert(lower_hex((x / 16) as u8) < 128 && lower_hex((x % 16) as u8) < 128);
    }
}

/// A run of characters that need no escape is written as it stands.
proof fn lemma_plain_run(s: Seq<char>, a: int, b: int)
    requires
        0 <= a <= b <= s.len(),
        forall|k: int| a <= k < b ==> !needs_escape(#[trigger] s[k]),
    ensures
        escape_chars(s.take(b)) == escape_chars(s.take(a)) + s.subrange(a, b),
    decreases b - a,
{
    if b > a {
        lemma_plain_run(s, a, b - 1);
        assert(s.take(b).drop_last() =~= s.take(b - 1));
        assert(s.take(b).last() == s[b - 1]);
        assert(escape_chars(s.take(a)) + s.subrange(a, b - 1) + seq![s[b - 1]]
            =~= escape_chars(s.take(a)) + s.subrange(a, b));
    }
}

/// Append the JSON string literal for `s`.
fn push_json_text(out: &mut String, s: &str)
    ensures
        final(out)@ == old(out)@ + json_text(s@),
{
    let cs = chars_of(s);
    let n = cs.len();
    let ghost start = out@;
    proof {
        reveal_strlit("\"");
    }
    out.append("\"");
    let mut run: usize = 0;
    let mut i: usize = 0;
    while i < n
        invariant
            n == cs@.len(),
            cs@ == s@,
            run <= i <= n,
            out@ == start + seq!['"'] + escape_chars(s@.take(run as int)),
            forall|k: int| run <= k < i ==> !needs_escape(#[trigger] s@[k]),
        decreases n - i,
    {
        let c = cs[i];
        let code = c as u32;
        if c == '"' || c == '\\' || code < 32 {
            proof {
                lemma_plain_run(s@, run as int, i as int);
            }
            out.append(s.substring_char(run, i));
            let x: u8 = if code < 32 { code as u8 } else if c == '"' { 34 } else { 92 };
            assert(x == (c as u32) as u8);
            let mut esc: Vec<u8> = Vec::new();
            push_escaped_byte(&mut esc, x);
            proof {
                lemma_escape_ascii(x);
                assert(esc@ =~= escape_byte(x));
            }
            let e = ascii_to_string(esc);
            out.append(e.as_str());
            proof {
                assert(s@.take(i + 1).drop_last() =~= s@.take(i as int));
                assert(s@.take(i + 1).last() == c);
                assert(out@ =~= start + seq!['"'] + escape_chars(s@.take(i + 1)));
            }
            run = i + 1;
        }
        i += 1;
    }
    proof {
        lemma_plain_run(s@, run as int, n as int);
        assert(s@.take(n as int) =~= s@);
    }
    out.append(s.substring_char(run, n));
    out.append("\"");
    assert(out@ =~= start + json_text(s@));
}

/// Append JSON string literals for `items`, separated by commas.
fn push_json_texts(out: &mut String, items: &[String])
    ensures
        final(out)@ == old(out)@ + json_texts(texts(items@)),
{
    let ghost start = out@;
    let ghost all = texts(items@);
    let n = items.len();
    proof {
        reveal_strlit(",");
        assert(all.take(0) =~= Seq::<Seq<char>>::empty());
    }
    for i in 0..n
        invariant
            n == items@.len(),
            all == texts(items@),
            out@ == start + json_texts(all.take(i as int)),
    {
        proof {
            reveal_strlit(",");
        }
        if i > 0 {
            out.append(",");
        }
        push_json_text(out, items[i].as_str());
        proof {
            let t = all.take(i + 1);
            assert(t.drop_last() =~= all.take(i as int));
            assert(t.last() == items@[i as int]@);
            if i == 0 {
                assert(t.len() == 1);
                assert(out@ =~= start + json_texts(t));
            } else {
                assert(out@ =~= start + json_texts(t));
            }
        }
    }
    assert(all.take(n as int) =~= all);
}

/// The texts of a sequence of strings.
pub open spec fn texts(v: Seq<String>) -> Seq<Seq<char>> {
    v.map_values(|s: String| s@)
}

impl Response {
    /// `200 OK` with the given body.
    pub fn ok(body: &str) -> (r: Response)
        ensures
            r.status == 200,
            r.body@ == body@,
    {
        Response { status: 200, body: body.to_owned() }
    }

    /// `400 Bad Request` with `{"error":msg}`.
    pub fn bad(msg: &str) -> (r: Response)
        ensures
            r.status == 400,
            r.body@ == error_body(msg@),
    {
        let mut body = "{\"error\":".to_owned();
        push_json_text(&mut body, msg);
        body.append("}");
        Response { status: 400, body }
    }

    /// `404 Not Found` with `{"error":"not found"}`.
    pub fn not_found() -> (r: Response)
        ensures
            r.status == 404,
            r.body@ == error_body("not found"@),
    {
        let mut body = "{\"error\":".to_owned();
        push_json_text(&mut body, "not found");
        body.append("}");
        Response { status: 404, body }
    }
}

// ---------------------------------------------------------------------------
// Paths and queries.

/// Index of the first `c` in `s` at or after `i`, or `s.len()`.
pub open spec fn index_of(s: Seq<char>, c: char, i: int) -> int
    decreases s.len() - i,
{
    if i < 0 || i >= s.len() {
        s.len() as int
    } else if s[i] == c {
        i
    } else {
        index_of(s, c, i + 1)
    }
}

/// The path before its first `?`.
pub open spec fn route_of(path: Seq<char>) -> Seq<char> {
    path.take(index_of(path, '?', 0))
}

/// The path after its first `?`; empty when there is none.
pub open spec fn query_of(path: Seq<char>) -> Seq<char> {
    let q = index_of(path, '?', 0);
    if q < path.len() { path.skip(q + 1) } else { seq![] }
}

pub open spec fn strip_start(s: Seq<char>, c: char) -> Seq<char>
    decreases s.len(),
{
    if s.len() > 0 && s[0] == c { strip_start(s.drop_first(), c) } else { s }
}

pub open spec fn strip_end(s: Seq<char>, c: char) -> Seq<char>
    decreases s.len(),
{
    if s.len() > 0 && s.last() == c { strip_end(s.drop_last(), c) } else { s }
}

/// `str::trim_matches(c)`: every `c` removed from both ends.
pub open spec fn trim_matches(s: Seq<char>, c: char) -> Seq<char> {
    strip_end(strip_start(s, c), c)
}

/// `str::split(c)`: the pieces between the `c`s; one piece when there is none.
pub open spec fn split_on(s: Seq<char>, c: char) -> Seq<Seq<char>>
    decreases s.len(),
{
    if s.len() == 0 {
        seq![seq![]]
    } else {
        let parts = split_on(s.drop_last(), c);
        if s.last() == c {
            parts.push(seq![])
        } else {
            parts.update(parts.len() - 1, parts.last().push(s.last()))
        }
    }
}

/// The path's segments between slashes, slashes at either end ignored.
pub open spec fn segments(path: Seq<char>) -> Seq<Seq<char>> {
    split_on(trim_matches(route_of(path), '/'), '/')
}

proof fn lemma_split_on_len(s: Seq<char>, c: char)
    ensures
        split_on(s, c).len() >= 1,
    decreases s.len(),
{
    if s.len() > 0 {
        lemma_split_on_len(s.drop_last(), c);
    }
}

/// The characters of `s` before position `i` hold no `c`.
proof fn lemma_index_of_skip(s: Seq<char>, c: char, i: int)
    requires
        0 <= i <= s.len(),
        forall|k: int| 0 <= k < i ==> s[k] != c,
    ensures
        index_of(s, c, 0) == index_of(s, c, i),
    decreases i,
{
    if i > 0 {
        lemma_index_of_skip(s, c, i - 1);
    }
}

/// Split a path at its first `?`.
fn split_query(path: &str) -> (r: (&str, &str))
    ensures
        r.0@ == route_of(path@),
        r.1@ == query_of(path@),
{
    let cs = chars_of(path);
    let n = cs.len();
    let mut i: usize = 0;
    while i < n && cs[i] != '?'
        invariant
            n == cs@.len(),
            cs@ == path@,
            i <= n,
            forall|k: int| 0 <= k < i ==> path@[k] != '?',
        decreases n - i,
    {
        i += 1;
    }
    proof {
        lemma_index_of_skip(path@, '?', i as int);
    }
    if i < n {
        let route = path.substring_char(0, i);
        let query = path.substring_char(i + 1, n);
        assert(query@ =~= query_of(path@));
        (route, query)
    } else {
        assert(path@.take(n as int) =~= path@);
        (path, path.substring_char(n, n))
    }
}

proof fn lemma_strip_start_skip(s: Seq<char>, c: char, i: int)
    requires
        0 <= i <= s.len(),
        forall|k: int| 0 <= k < i ==> s[k] == c,
    ensures
        strip_start(s, c) == strip_start(s.skip(i), c),
    decreases i,
{
    if i > 0 {
        assert(s[0] == c);
        assert forall|k: int| 0 <= k < i - 1 implies s.drop_first()[k] == c by {
            assert(s.drop_first()[k] == s[k + 1]);
        }
        lemma_strip_start_skip(s.drop_first(), c, i - 1);
        assert(s.drop_first().skip(i - 1) =~= s.skip(i));
    } else {
        assert(s.skip(0) =~= s);
    }
}

proof fn lemma_strip_end_take(s: Seq<char>, c: char, j: int)
    requires
        0 <= j <= s.len(),
        forall|k: int| j <= k < s.len() ==> s[k] == c,
    ensures
        strip_end(s, c) == strip_end(s.take(j), c),
    decreases s.len() - j,
{
    if j < s.len() {
        assert(s.drop_last().take(j) =~= s.take(j));
        lemma_strip_end_take(s.drop_last(), c, j);
    } else {
        assert(s.take(j) =~= s);
    }
}

/// `str::trim_matches('/')`.
fn trim_slashes(s: &str) -> (t: &str)
    ensures
        t@ == trim_matches(s@, '/'),
{
    let cs = chars_of(s);
    let n = cs.len();
    let mut lo: usize = 0;
    while lo < n && cs[lo] == '/'
        invariant
            n == cs@.len(),
            cs@ == s@,
            lo <= n,
            forall|k: int| 0 <= k < lo ==> s@[k] == '/',
        decreases n - lo,
    {
        lo += 1;
    }
    let ghost rest = s@.skip(lo as int);
    proof {
        lemma_strip_start_skip(s@, '/', lo as int);
        if lo < n {
            assert(rest[0] == s@[lo as int]);
        }
        assert(strip_start(rest, '/') == rest);
    }
    let mut hi: usize = n;
    while hi > lo && cs[hi - 1] == '/'
        invariant
            n == cs@.len(),
            cs@ == s@,
            lo <= hi <= n,
            rest == s@.skip(lo as int),
            forall|k: int| hi - lo <= k < rest.len() ==> #[trigger] rest[k] == '/',
        decreases hi - lo,
    {
        hi -= 1;
    }
    proof {
        lemma_strip_end_take(rest, '/', hi - lo);
        let t = rest.take(hi - lo);
        if hi > lo {
            assert(t.last() == s@[hi - 1]);
        }
        assert(strip_end(t, '/') == t);
        assert(t =~= s@.subrange(lo as int, hi as int));
    }
    s.substring_char(lo, hi)
}

/// The texts of a sequence of string slices.
pub open spec fn slices(v: Seq<&str>) -> Seq<Seq<char>> {
    v.map_values(|p: &str| p@)
}

/// `str::split(c)`, collected.
fn split_char(s: &str, c: char) -> (parts: Vec<&str>)
    ensures
        slices(parts@) == split_on(s@, c),
{
    let cs = chars_of(s);
    let n = cs.len();
    let mut parts: Vec<&str> = Vec::new();
    let mut seg: usize = 0;
    assert(slices(parts@) =~= Seq::<Seq<char>>::empty());
    assert(s@.take(0) =~= Seq::<char>::empty());
    assert(s@.subrange(0, 0) =~= Seq::<char>::empty());
    for i in 0..n
        invariant
            n == cs@.len(),
            cs@ == s@,
            seg <= i,
            split_on(s@.take(i as int), c) == slices(parts@).push(s@.subrange(seg as int, i as int)),
    {
        let ghost pre = slices(parts@);
        proof {
            assert(s@.take(i + 1).drop_last() =~= s@.take(i as int));
            assert(s@.take(i + 1).last() == s@[i as int]);
        }
        if cs[i] == c {
            let piece = s.substring_char(seg, i);
            parts.push(piece);
            assert(slices(parts@) =~= pre.push(piece@));
            seg = i + 1;
            assert(s@.subrange(seg as int, i + 1) =~= Seq::<char>::empty());
        } else {
            assert(s@.subrange(seg as int, i as int).push(s@[i as int]) =~= s@.subrange(seg as int, i + 1));
        }
    }
    parts.push(s.substring_char(seg, n));
    assert(s@.take(n as int) =~= s@);
    parts
}

// ---------------------------------------------------------------------------
// Buckets, blobs and cursors.

pub open spec fn is_lower_hex(c: char) -> bool {
    ('0' <= c <= '9') || ('a' <= c <= 'f')
}

/// A bucket id is 64 lowercase-hex characters (an HKDF tag), so it is a safe
/// file name.
pub open spec fn is_bucket_id(b: Seq<char>) -> bool {
    b.len() == 64 && forall|i: int| 0 <= i < b.len() ==> is_lower_hex(#[trigger] b[i])
}

/// A blob the relay stores: non-empty hex text (either case).
pub open spec fn is_hex_blob(s: Seq<char>) -> bool {
    s.len() > 0 && forall|i: int| 0 <= i < s.len() ==> (#[trigger] hex_value(s[i])) is Some
}

/// Whether `b` is a valid bucket id.
fn valid_bucket(b: &str) -> (ok: bool)
    ensures
        ok == is_bucket_id(b@),
{
    let cs = chars_of(b);
    if cs.len() != 64 {
        return false;
    }
    for i in 0..64
        invariant
            cs@ == b@,
            cs@.len() == 64,
            forall|k: int| 0 <= k < i ==> is_lower_hex(#[trigger] b@[k]),
    {
        let c = cs[i];
        if !(('0' <= c && c <= '9') || ('a' <= c && c <= 'f')) {
            return false;
        }
    }
    true
}

/// Whether `s` is a blob the relay stores.
fn hex_blob(s: &str) -> (ok: bool)
    ensures
        ok == is_hex_blob(s@),
{
    let cs = chars_of(s);
    let n = cs.len();
    if n == 0 {
        return false;
    }
    for i in 0..n
        invariant
            n == cs@.len(),
            cs@ == s@,
            forall|k: int| 0 <= k < i ==> (#[trigger] hex_value(s@[k])) is Some,
    {
        let c = cs[i];
        if !(('0' <= c && c <= '9') || ('a' <= c && c <= 'f') || ('A' <= c && c <= 'F')) {
            assert(hex_value(s@[i as int]) is None);
            return false;
        }
    }
    true
}

/// Decimal digits whose value fits in a `usize`.
pub open spec fn parse_digits(ds: Seq<char>) -> Option<nat> {
    if ds.len() > 0 && (forall|i: int| 0 <= i < ds.len() ==> is_dec_digit(#[trigger] ds[i]))
        && dec_value(ds) <= usize::MAX {
        Some(dec_value(ds))
    } else {
        None
    }
}

/// `usize::from_str`: decimal digits, optionally after a `+`, whose value
/// fits in a `usize`.
pub open spec fn parse_usize(s: Seq<char>) -> Option<nat> {
    parse_digits(if s.len() > 1 && s[0] == '+' { s.drop_first() } else { s })
}

pub open spec fn since_key() -> Seq<char> {
    seq!['s', 'i', 'n', 'c', 'e', '=']
}

/// The `since` cursor of a query's `&`-separated pieces: the first piece
/// that starts with `since=` decides; its value, or 0 when it does not parse
/// (and 0 when no piece starts so).
pub open spec fn since_of(pieces: Seq<Seq<char>>) -> nat
    decreases pieces.len(),
{
    if pieces.len() == 0 {
        0
    } else if pieces[0].len() >= 6 && pieces[0].take(6) == since_key() {
        match parse_usize(pieces[0].skip(6)) {
            Some(v) => v,
            None => 0,
        }
    } else {
        since_of(pieces.drop_first())
    }
}

/// Digits whose prefix is already too large for a `usize` are too large too.
proof fn lemma_overflow(ds: Seq<char>, k: int)
    requires
        0 < k <= ds.len(),
        dec_value(ds.take(k)) > usize::MAX,
    ensures
        !((forall|i: int| 0 <= i < ds.len() ==> is_dec_digit(#[trigger] ds[i])) && dec_value(ds) <= usize::MAX),
{
    if forall|i: int| 0 <= i < ds.len() ==> is_dec_digit(#[trigger] ds[i]) {
        lemma_dec_value_grows(ds, k);
    }
}

/// Parse `cs[from..]` as `usize::from_str` does.
fn parse_usize_at(cs: &Vec<char>, from: usize) -> (r: Option<usize>)
    requires
        from <= cs@.len(),
    ensures
        match r {
            Some(v) => parse_usize(cs@.skip(from as int)) == Some(v as nat),
            None => parse_usize(cs@.skip(from as int)) is None,
        },
{
    let ghost s = cs@.skip(from as int);
    let n = cs.len();
    let start = if n - from > 1 && cs[from] == '+' { from + 1 } else { from };
    let ghost ds = cs@.skip(start as int);
    assert(ds =~= (if s.len() > 1 && s[0] == '+' { s.drop_first() } else { s }));
    if start == n {
        return None;
    }
    let mut v: usize = 0;
    let mut i: usize = start;
    while i < n
        invariant
            n == cs@.len(),
            start < n,
            start <= i <= n,
            ds == cs@.skip(start as int),
            parse_usize(cs@.skip(from as int)) == parse_digits(ds),
            forall|k: int| 0 <= k < i - start ==> is_dec_digit(#[trigger] ds[k]),
            v as nat == dec_value(ds.take(i - start)),
        decreases n - i,
    {
        let c = cs[i];
        if !('0' <= c && c <= '9') {
            assert(!is_dec_digit(ds[i - start]));
            return None;
        }
        let d = (c as u32 - 48) as usize;
        proof {
            assert(ds.take(i - start + 1).drop_last() =~= ds.take(i - start));
            assert(ds.take(i - start + 1).last() == c);
        }
        match v.checked_mul(10) {
            Some(t) => match t.checked_add(d) {
                Some(u) => {
                    v = u;
                },
                None => {
                    proof {
                        lemma_overflow(ds, i - start + 1);
                    }
                    return None;
                },
            },
            None => {
                proof {
                    lemma_overflow(ds, i - start + 1);
                }
                return None;
            },
        }
        i += 1;
    }
    assert(ds.take(n - start) =~= ds);
    Some(v)
}

/// The `since` cursor of a query string.
fn since_in(query: &str) -> (since: usize)
    ensures
        since as nat == since_of(split_on(query@, '&')),
{
    let pieces = split_char(query, '&');
    let ghost ps = slices(pieces@);
    let n = pieces.len();
    let mut i: usize = 0;
    assert(ps.skip(0) =~= ps);
    while i < n
        invariant
            n == pieces@.len(),
            ps == slices(pieces@),
            i <= n,
            since_of(split_on(query@, '&')) == since_of(ps.skip(i as int)),
        decreases n - i,
    {
        let cs = chars_of(pieces[i]);
        let ghost p = ps[i as int];
        assert(p == cs@);
        assert(ps.skip(i as int)[0] == p);
        assert(ps.skip(i as int).drop_first() =~= ps.skip(i + 1));
        if cs.len() >= 6 && cs[0] == 's' && cs[1] == 'i' && cs[2] == 'n' && cs[3] == 'c' && cs[4] == 'e'
            && cs[5] == '=' {
            assert(p.take(6) =~= since_key());
            return match parse_usize_at(&cs, 6) {
                Some(v) => v,
                None => 0,
            };
        }
        proof {
            if p.len() >= 6 && p.take(6) == since_key() {
                assert(p.take(6)[5] == '=');
            }
        }
        i += 1;
    }
    0
}

/// The blobs a bucket log holds: its lines that are not blank.
pub open spec fn stored(lines: Seq<Seq<char>>) -> Seq<Seq<char>>
    decreases lines.len(),
{
    if lines.len() == 0 {
        seq![]
    } else if trim(lines.last()).len() == 0 {
        stored(lines.drop_last())
    } else {
        stored(lines.drop_last()).push(lines.last())
    }
}

/// The items of a push that the relay stores: the non-empty hex strings, in
/// order; anything else is dropped.
pub open spec fn accepted(items: Seq<Option<Seq<char>>>) -> Seq<Seq<char>>
    decreases items.len(),
{
    if items.len() == 0 {
        seq![]
    } else {
        let a = accepted(items.drop_last());
        match items.last() {
            Some(s) => if is_hex_blob(s) { a.push(s) } else { a },
            None => a,
        }
    }
}

/// What a push body holds, as far as the relay reads it.
pub enum PushBody {
    /// The body is not JSON.
    NotJson,
    /// JSON, but not an object with an array under `"blobs"`.
    NoBlobs,
    /// The items of the `"blobs"` array: each string's text, `None` for an
    /// item of another kind.
    Blobs(Vec<Option<String>>),
}

pub enum PushBodyView {
    NotJson,
    NoBlobs,
    Blobs(Seq<Option<Seq<char>>>),
}

pub open spec fn opt_texts(v: Seq<Option<String>>) -> Seq<Option<Seq<char>>> {
    v.map_values(|o: Option<String>| match o {
        Some(s) => Some(s@),
        None => None,
    })
}

impl View for PushBody {
    type V = PushBodyView;

    open spec fn view(&self) -> PushBodyView {
        match self {
            PushBody::NotJson => PushBodyView::NotJson,
            PushBody::NoBlobs => PushBodyView::NoBlobs,
            PushBody::Blobs(v) => PushBodyView::Blobs(opt_texts(v@)),
        }
    }
}

/// A string item's text; `None` for an item of another kind.
pub open spec fn item_text(v: JsonValueView) -> Option<Seq<char>> {
    match v {
        JsonValueView::String(t) => Some(t),
        _ => None,
    }
}

pub open spec fn item_texts_view(items: Seq<JsonValueView>) -> Seq<Option<Seq<char>>> {
    items.map_values(|x: JsonValueView| item_text(x))
}

/// What a push body holds, read from its JSON value (`None`: not JSON): the
/// array under `"blobs"` of an object.
pub open spec fn push_body_spec(v: Option<JsonValueView>) -> PushBodyView {
    match v {
        None => PushBodyView::NotJson,
        Some(JsonValueView::Object(entries)) => match entry_of(entries, "blobs"@) {
            Some(JsonValueView::Array(items)) => PushBodyView::Blobs(item_texts_view(items)),
            _ => PushBodyView::NoBlobs,
        },
        Some(_) => PushBodyView::NoBlobs,
    }
}

/// The text of each string item; `None` for the others.
fn item_texts(items: &Vec<JsonValue>) -> (r: Vec<Option<String>>)
    ensures
        opt_texts(r@) == item_texts_view(json_views(items@, items@.len() as int)),
{
    proof {
        lemma_json_views_all(items@);
    }
    let ghost want = item_texts_view(json_views(items@, items@.len() as int));
    let n = items.len();
    let mut r: Vec<Option<String>> = Vec::new();
    for i in 0..n
        invariant
            n == items@.len(),
            want.len() == n,
            want == item_texts_view(json_views(items@, items@.len() as int)),
            forall|k: int| 0 <= k < n ==> #[trigger] json_views(items@, items@.len() as int)[k] == json_view(items@[k]),
            opt_texts(r@) == want.take(i as int),
    {
        let ghost pre = opt_texts(r@);
        let t: Option<String> = match &items[i] {
            JsonValue::String(t) => Some(t.clone()),
            _ => None,
        };
        let ghost tv = match &t {
            Some(x) => Some(x@),
            None => None::<Seq<char>>,
        };
        proof {
            assert(want[i as int] == item_text(json_views(items@, items@.len() as int)[i as int]));
            assert(want[i as int] == item_text(json_view(items@[i as int])));
            assert(want[i as int] == tv);
        }
        r.push(t);
        assert(opt_texts(r@) =~= pre.push(tv));
        assert(opt_texts(r@) =~= want.take(i + 1));
    }
    assert(want.take(n as int) =~= want);
    r
}

/// What a push body holds, read from its JSON value (`None`: the body is
/// not JSON).
pub fn push_body_of(v: Option<JsonValue>) -> (b: PushBody)
    ensures
        b@ == push_body_spec(opt_json(v)),
{
    match &v {
        None => PushBody::NotJson,
        Some(JsonValue::Object(entries)) => {
            let ghost ev = json_entries(entries@, entries@.len() as int);
            proof {
                lemma_json_entries_all(entries@);
                assert(ev.skip(0) =~= ev);
                assert(opt_json(v) == Some(JsonValueView::Object(ev)));
            }
            let n = entries.len();
            let mut i: usize = 0;
            while i < n
                invariant
                    n == entries@.len(),
                    ev == json_entries(entries@, entries@.len() as int),
                    opt_json(v) == Some(JsonValueView::Object(ev)),
                    ev.len() == n,
                    forall|k: int| 0 <= k < n ==> #[trigger] ev[k] == (entries@[k].0@, json_view(entries@[k].1)),
                    i <= n,
                    entry_of(ev, "blobs"@) == entry_of(ev.skip(i as int), "blobs"@),
                decreases n - i,
            {
                proof {
                    assert(ev.skip(i as int)[0] == ev[i as int]);
                    assert(ev.skip(i as int).drop_first() =~= ev.skip(i + 1));
                }
                if str_eq(entries[i].0.as_str(), "blobs") {
                    assert(entry_of(ev, "blobs"@) == Some(json_view(entries@[i as int].1)));
                    return match &entries[i].1 {
                        JsonValue::Array(items) => PushBody::Blobs(item_texts(items)),
                        _ => PushBody::NoBlobs,
                    };
                }
                i += 1;
            }
            PushBody::NoBlobs
        },
        Some(_) => PushBody::NoBlobs,
    }
}

/// What the relay does with a request.
pub enum Step {
    /// Answer at once.
    Reply(Response),
    /// Append `blobs` to the bucket's log, one per line, creating the storage
    /// directory and the log as needed; then read the log back and answer
    /// with `pushed`. If the directory or the log cannot be created, opened
    /// or written, answer `Response::bad("storage error")`.
    Append { bucket: String, blobs: Vec<String> },
    /// Read the bucket's log (no log is an empty one) and answer with
    /// `pulled`.
    Read { bucket: String, since: usize },
}

pub enum StepView {
    Reply(u16, Seq<char>),
    Append(Seq<char>, Seq<Seq<char>>),
    Read(Seq<char>, nat),
}

impl View for Step {
    type V = StepView;

    open spec fn view(&self) -> StepView {
        match self {
            Step::Reply(r) => StepView::Reply(r.status, r.body@),
            Step::Append { bucket, blobs } => StepView::Append(bucket@, texts(blobs@)),
            Step::Read { bucket, since } => StepView::Read(bucket@, *since as nat),
        }
    }
}

pub open spec fn push_plan(bucket: Seq<char>, body: PushBodyView) -> StepView {
    if !is_bucket_id(bucket) {
        StepView::Reply(400, error_body("invalid bucket"@))
    } else {
        match body {
            PushBodyView::NotJson => StepView::Reply(400, error_body("invalid json"@)),
            PushBodyView::NoBlobs => StepView::Reply(400, error_body("missing blobs"@)),
            PushBodyView::Blobs(items) => StepView::Append(bucket, accepted(items)),
        }
    }
}

pub open spec fn pull_plan(bucket: Seq<char>, query: Seq<char>) -> StepView {
    if !is_bucket_id(bucket) {
        StepView::Reply(400, error_body("invalid bucket"@))
    } else {
        StepView::Read(bucket, since_of(split_on(query, '&')))
    }
}

/// What the relay does with `method path`, its body read as `body`.
pub open spec fn plan(method: Seq<char>, path: Seq<char>, body: PushBodyView) -> StepView {
    let parts = segments(path);
    if method == "GET"@ && parts.len() == 1 && parts[0] == "health"@ {
        StepView::Reply(200, "ok"@)
    } else if method == "POST"@ && parts.len() == 2 && parts[0] == "push"@ {
        push_plan(parts[1], body)
    } else if method == "GET"@ && parts.len() == 2 && parts[0] == "pull"@ {
        pull_plan(parts[1], query_of(path))
    } else {
        StepView::Reply(404, error_body("not found"@))
    }
}

/// The stored items of a push.
fn accept_blobs(items: Vec<Option<String>>) -> (blobs: Vec<String>)
    ensures
        texts(blobs@) == accepted(opt_texts(items@)),
{
    let ghost all = opt_texts(items@);
    let n = items.len();
    let mut blobs: Vec<String> = Vec::new();
    let mut i: usize = 0;
    assert(all.take(0) =~= Seq::<Option<Seq<char>>>::empty());
    assert(texts(blobs@) =~= Seq::<Seq<char>>::empty());
    while i < n
        invariant
            n == items@.len(),
            all == opt_texts(items@),
            i <= n,
            texts(blobs@) == accepted(all.take(i as int)),
        decreases n - i,
    {
        proof {
            assert(all.take(i + 1).drop_last() =~= all.take(i as int));
            assert(all.take(i + 1).last() == all[i as int]);
        }
        match &items[i] {
            Some(t) => {
                if hex_blob(t.as_str()) {
                    let ghost pre = texts(blobs@);
                    blobs.push(t.clone());
                    assert(texts(blobs@) =~= pre.push(t@));
                }
            },
            None => {},
        }
        i += 1;
    }
    assert(all.take(n as int) =~= all);
    blobs
}

/// The step for a push to `bucket` whose body reads as `body`.
pub fn push_step(bucket: &str, body: PushBody) -> (r: Step)
    ensures
        r@ == push_plan(bucket@, body@),
{
    if !valid_bucket(bucket) {
        return Step::Reply(Response::bad("invalid bucket"));
    }
    match body {
        PushBody::NotJson => Step::Reply(Response::bad("invalid json")),
        PushBody::NoBlobs => Step::Reply(Response::bad("missing blobs")),
        PushBody::Blobs(items) => Step::Append { bucket: bucket.to_owned(), blobs: accept_blobs(items) },
    }
}

/// The step for a pull from `bucket` with the query string `query`.
pub fn pull_step(bucket: &str, query: &str) -> (r: Step)
    ensures
        r@ == pull_plan(bucket@, query@),
{
    if !valid_bucket(bucket) {
        return Step::Reply(Response::bad("invalid bucket"));
    }
    Step::Read { bucket: bucket.to_owned(), since: since_in(query) }
}

/// What to do with a request: `method` and `path` as the client sent them
/// (the path with its query string), and the request body.
pub fn handle(method: &str, path: &str, body: &str) -> (r: Step)
    ensures
        r@ == plan(method@, path@, push_body_spec(json_parse(body@))),
{
    let (route, query) = split_query(path);
    let parts = split_char(trim_slashes(route), '/');
    proof {
        lemma_split_on_len(trim_matches(route@, '/'), '/');
    }
    assert(slices(parts@) == segments(path@));
    let get = str_eq(method, "GET");
    if get && parts.len() == 1 && str_eq(parts[0], "health") {
        Step::Reply(Response::ok("ok"))
    } else if str_eq(method, "POST") && parts.len() == 2 && str_eq(parts[0], "push") {
        push_step(parts[1], push_body_of(parse_json(body)))
    } else if get && parts.len() == 2 && str_eq(parts[0], "pull") {
        pull_step(parts[1], query)
    } else {
        Step::Reply(Response::not_found())
    }
}

/// The non-blank lines of a bucket log.
fn stored_blobs(lines: &Vec<String>) -> (blobs: Vec<String>)
    ensures
        texts(blobs@) == stored(texts(lines@)),
{
    let ghost all = texts(lines@);
    let n = lines.len();
    let mut blobs: Vec<String> = Vec::new();
    assert(all.take(0) =~= Seq::<Seq<char>>::empty());
    assert(texts(blobs@) =~= Seq::<Seq<char>>::empty());
    for i in 0..n
        invariant
            n == lines@.len(),
            all == texts(lines@),
            texts(blobs@) == stored(all.take(i as int)),
    {
        proof {
            assert(all.take(i + 1).drop_last() =~= all.take(i as int));
            assert(all.take(i + 1).last() == lines@[i as int]@);
        }
        if trimmed(lines[i].as_str()).unicode_len() != 0 {
            let ghost pre = texts(blobs@);
            blobs.push(lines[i].clone());
            assert(texts(blobs@) =~= pre.push(lines@[i as int]@));
        }
    }
    assert(all.take(n as int) =~= all);
    blobs
}

/// The answer to a push once its `accepted` blobs were appended: the log's
/// lines as read back (`None` if it could not be read, in which case the
/// cursor is the number accepted).
pub fn pushed(accepted: usize, log: Option<Vec<String>>) -> (r: Response)
    ensures
        r.status == 200,
        r.body@ == push_body(accepted as nat, match log {
            Some(lines) => stored(texts(lines@)).len(),
            None => accepted as nat,
        }),
{
    let cursor: usize = match &log {
        Some(lines) => stored_blobs(lines).len(),
        None => accepted,
    };
    let mut body = "{\"accepted\":".to_owned();
    body.append(decimal_string(accepted as u64).as_str());
    body.append(",\"cursor\":");
    body.append(decimal_string(cursor as u64).as_str());
    body.append("}");
    Response { status: 200, body }
}

/// The stored blobs from position `since` on.
pub open spec fn after(blobs: Seq<Seq<char>>, since: nat) -> Seq<Seq<char>> {
    if since < blobs.len() { blobs.skip(since as int) } else { seq![] }
}

/// The answer to a pull once the bucket's log was read (`None` if it could
/// not be read): the blobs from position `since` on, and the cursor to pull
/// from next time.
pub fn pulled(log: Option<Vec<String>>, since: usize) -> (r: Response)
    ensures
        match log {
            Some(lines) => {
                &&& r.status == 200
                &&& r.body@ == pull_body(after(stored(texts(lines@)), since as nat), stored(texts(lines@)).len())
            },
            None => r.status == 400 && r.body@ == error_body("storage error"@),
        },
{
    match log {
        None => Response::bad("storage error"),
        Some(lines) => {
            let all = stored_blobs(&lines);
            let total = all.len();
            let mut rest: Vec<String> = Vec::new();
            assert(texts(rest@) =~= Seq::<Seq<char>>::empty());
            if since < total {
                let mut i = since;
                assert(texts(all@).subrange(since as int, since as int) =~= Seq::<Seq<char>>::empty());
                while i < total
                    invariant
                        total == all@.len(),
                        since <= i <= total,
                        texts(rest@) == texts(all@).subrange(since as int, i as int),
                    decreases total - i,
                {
                    let ghost pre = texts(rest@);
                    rest.push(all[i].clone());
                    assert(texts(rest@) =~= pre.push(all@[i as int]@));
                    i += 1;
                    assert(texts(rest@) =~= texts(all@).subrange(since as int, i as int));
                }
                assert(texts(rest@) =~= texts(all@).skip(since as int));
            }
            let mut body = "{\"blobs\":[".to_owned();
            push_json_texts(&mut body, rest.as_slice());
            body.append("],\"cursor\":");
            body.append(decimal_string(total as u64).as_str());
            body.append("}");
            Response { status: 200, body }
        },
    }
}

// ---------------------------------------------------------------------------
// Laws.

proof fn lemma_stored_concat(a: Seq<Seq<char>>, b: Seq<Seq<char>>)
    ensures
        stored(a + b) == stored(a) + stored(b),
    decreases b.len(),
{
    if b.len() == 0 {
        assert(a + b =~= a);
        assert(stored(a) + stored(b) =~= stored(a));
    } else {
        lemma_stored_concat(a, b.drop_last());
        assert((a + b).drop_last() =~= a + b.drop_last());
        assert((a + b).last() == b.last());
        if trim(b.last()).len() != 0 {
            assert(stored(a) + stored(b.drop_last()).push(b.last()) =~= (stored(a) + stored(b.drop_last())).push(b.last()));
        }
    }
}

proof fn lemma_hex_blob_not_blank(s: Seq<char>)
    requires
        is_hex_blob(s),
    ensures
        trim(s).len() > 0,
{
    assert(hex_value(s[0]) is Some);
    assert(crate::hex::trim_start(s) == s);
    assert(hex_value(s[s.len() - 1]) is Some);
    assert(s.last() == s[s.len() - 1]);
    assert(crate::hex::trim_end(s) == s);
}

proof fn lemma_stored_hex(blobs: Seq<Seq<char>>)
    requires
        forall|i: int| 0 <= i < blobs.len() ==> is_hex_blob(#[trigger] blobs[i]),
    ensures
        stored(blobs) == blobs,
    decreases blobs.len(),
{
    if blobs.len() > 0 {
        let d = blobs.drop_last();
        assert forall|i: int| 0 <= i < d.len() implies is_hex_blob(#[trigger] d[i]) by {
            assert(d[i] == blobs[i]);
        }
        lemma_stored_hex(d);
        assert(is_hex_blob(blobs[blobs.len() - 1]));
        lemma_hex_blob_not_blank(blobs.last());
        assert(d.push(blobs.last()) =~= blobs);
    }
}

/// Every blob a push stores is non-empty hex text, so it is one line of the
/// bucket log and reads back as one blob.
pub proof fn law_accepted_are_hex(items: Seq<Option<Seq<char>>>)
    ensures
        forall|i: int| 0 <= i < accepted(items).len() ==> is_hex_blob(#[trigger] accepted(items)[i]),
        stored(accepted(items)) == accepted(items),
    decreases items.len(),
{
    if items.len() > 0 {
        law_accepted_are_hex(items.drop_last());
    }
    lemma_stored_hex(accepted(items));
}

/// A pull from the cursor a client saw before its push returns exactly the
/// blobs it pushed (when nothing else was pushed in between), and the new
/// cursor counts them.
pub proof fn law_pull_after_push(log: Seq<Seq<char>>, blobs: Seq<Seq<char>>)
    requires
        forall|i: int| 0 <= i < blobs.len() ==> is_hex_blob(#[trigger] blobs[i]),
    ensures
        stored(log + blobs) == stored(log) + blobs,
        after(stored(log + blobs), stored(log).len()) == blobs,
        stored(log + blobs).len() == stored(log).len() + blobs.len(),
{
    lemma_stored_concat(log, blobs);
    lemma_stored_hex(blobs);
    let all = stored(log) + blobs;
    if blobs.len() > 0 {
        assert(all.skip(stored(log).len() as int) =~= blobs);
    }
}

/// Appending to a bucket log never moves its cursor back.
pub proof fn law_cursor_never_decreases(log: Seq<Seq<char>>, more: Seq<Seq<char>>)
    ensures
        stored(log + more).len() >= stored(log).len(),
{
    lemma_stored_concat(log, more);
}

/// A bucket id is a safe file name: no path separator, no dot.
pub proof fn law_bucket_id_is_safe_name(b: Seq<char>)
    requires
        is_bucket_id(b),
    ensures
        forall|i: int| 0 <= i < b.len() ==> b[i] != '/' && b[i] != '\\' && b[i] != '.',
{
    assert forall|i: int| 0 <= i < b.len() implies b[i] != '/' && b[i] != '\\' && b[i] != '.' by {
        assert(is_lower_hex(b[i]));
    }
}

/// A push stores exactly its items that are non-empty strings of ASCII hex
/// digits (`0`-`9`, `a`-`f`, `A`-`F`), in the order given: such an item is
/// appended to what the earlier items store, and any other item (or a value
/// that is not a string) adds nothing.
pub proof fn law_push_keeps_hex_strings(items: Seq<Option<Seq<char>>>, x: Option<Seq<char>>)
    ensures
        accepted(items.push(x)) == (match x {
            Some(s) => if s.len() > 0 && forall|i: int| 0 <= i < s.len() ==> {
                let c = #[trigger] s[i];
                ('0' <= c && c <= '9') || ('a' <= c && c <= 'f') || ('A' <= c && c <= 'F')
            } {
                accepted(items).push(s)
            } else {
                accepted(items)
            },
            None => accepted(items),
        }),
{
    assert(items.push(x).drop_last() =~= items);
    match x {
        Some(s) => {
            if is_hex_blob(s) {
                assert forall|i: int| 0 <= i < s.len() implies {
                    let c = #[trigger] s[i];
                    ('0' <= c && c <= '9') || ('a' <= c && c <= 'f') || ('A' <= c && c <= 'F')
                } by {
                    assert(hex_value(s[i]) is Some);
                }
            } else if s.len() > 0 {
                let i = choose|i: int| 0 <= i < s.len() && !(#[trigger] hex_value(s[i]) is Some);
                let c = s[i];
                assert(!(('0' <= c && c <= '9') || ('a' <= c && c <= 'f') || ('A' <= c && c <= 'F')));
            }
        },
        None => {},
    }
}

/// Every item that is a non-empty string of ASCII hex digits is stored, and
/// nothing else is.
pub proof fn law_push_stores_exactly_hex(items: Seq<Option<Seq<char>>>, s: Seq<char>)
    ensures
        accepted(items).contains(s) <==> (items.contains(Some(s)) && s.len() > 0 && forall|i: int|
            0 <= i < s.len() ==> {
                let c = #[trigger] s[i];
                ('0' <= c && c <= '9') || ('a' <= c && c <= 'f') || ('A' <= c && c <= 'F')
            }),
    decreases items.len(),
{
    if items.len() > 0 {
        let init = items.drop_last();
        law_push_stores_exactly_hex(init, s);
        law_push_keeps_hex_strings(init, items.last());
        assert(init.push(items.last()) =~= items);
        assert(items.contains(Some(s)) <==> (init.contains(Some(s)) || items.last() == Some(s))) by {
            if items.contains(Some(s)) {
                let k = choose|k: int| 0 <= k < items.len() && items[k] == Some(s);
                if k < items.len() - 1 {
                    assert(init[k] == Some(s));
                }
            }
            if init.contains(Some(s)) {
                let k = choose|k: int| 0 <= k < init.len() && init[k] == Some(s);
                assert(items[k] == Some(s));
            }
        }
        let a = accepted(init);
        assert(a.push(s).contains(s)) by {
            assert(a.push(s)[a.len() as int] == s);
        }
        assert forall|t: Seq<char>| a.push(t).contains(s) <==> (a.contains(s) || t == s) by {
            if a.push(t).contains(s) {
                let k = choose|k: int| 0 <= k < a.push(t).len() && a.push(t)[k] == s;
                if k < a.len() {
                    assert(a[k] == s);
                }
            }
            if a.contains(s) {
                let k = choose|k: int| 0 <= k < a.len() && a[k] == s;
                assert(a.push(t)[k] == s);
            }
            if t == s {
                assert(a.push(t)[a.len() as int] == s);
            }
        }
    }
}

} // verus!
