//! Durable local storage: two append-only logs model "local save precedes
//! network truth" with no silent data loss.
//!
//! - the op log: one sealed envelope per line (hex of `nonce || ciphertext`
//!   of the envelope's canonical bytes under the store key), so the log
//!   holds no plaintext;
//! - the ack log: op ids the server has receipted, one per line.
//!
//! The outbox (committed but unacked ops) is derived from the difference, so
//! "outbox empty" is structurally distinct from "converged". `LocalStore`
//! holds the lines of both logs as they read back; whoever owns the files
//! appends each line a call adds (and fsyncs it) before going on.

use vstd::prelude::*;
use crate::causal::{has_id, views};
use crate::crypto::{max_message_len, MAX_SEALED_LEN, opened, opened_line, opt_bytes, sealed_with, SymKey, NONCE_LEN};
use crate::envelope::{encode_envelope, intact, EnvelopeView, OperationEnvelope};
use crate::hex::{hex_decode, hex_text, lemma_hex_roundtrip, lemma_hex_trimmed, trim, trimmed};
use crate::id::OpId;
use crate::json::{decimal, decimal_string};
use crate::text::ascii_chars;
use crate::order::str_eq;
use crate::wire::{envelope_from_bytes, lemma_envelope_roundtrip};

verus! {

#[derive(Debug)]
pub enum StoreError {
    /// A log file could not be read or written.
    Io(String),
    /// A fully-written log line failed to open, to parse, or its integrity
    /// check; or an envelope with a bad integrity hash was offered.
    Corruption(String),
}

impl StoreError {
    /// The error as it is shown to a user.
    pub fn message(&self) -> (m: String)
        ensures
            m@ == (match self {
                StoreError::Io(e) => "io error: "@ + e@,
                StoreError::Corruption(c) => "store corruption: "@ + c@,
            }),
    {
        match self {
            StoreError::Io(e) => {
                let mut m = "io error: ".to_owned();
                m.append(e.as_str());
                m
            },
            StoreError::Corruption(c) => {
                let mut m = "store corruption: ".to_owned();
                m.append(c.as_str());
                m
            },
        }
    }
}

pub struct LocalStore {
    key: SymKey,
    op_log: Vec<String>,
    ack_log: Vec<String>,
    ops: Vec<OperationEnvelope>,
    acked: Vec<OpId>,
}

pub struct StoreView {
    pub key: Seq<u8>,
    pub op_log: Seq<Seq<char>>,
    pub ack_log: Seq<Seq<char>>,
    pub ops: Seq<EnvelopeView>,
    pub acked: Seq<Seq<char>>,
}

pub open spec fn lines_view(v: Seq<String>) -> Seq<Seq<char>> {
    v.map_values(|s: String| s@)
}

pub open spec fn opids_view(v: Seq<OpId>) -> Seq<Seq<char>> {
    v.map_values(|p: OpId| p@)
}

impl View for LocalStore {
    type V = StoreView;

    closed spec fn view(&self) -> StoreView {
        StoreView {
            key: self.key@,
            op_log: lines_view(self.op_log@),
            ack_log: lines_view(self.ack_log@),
            ops: views(self.ops@),
            acked: opids_view(self.acked@),
        }
    }
}

/// Only white space.
pub open spec fn is_blank(line: Seq<char>) -> bool {
    trim(line).len() == 0
}

/// The envelope that an op-log line holds under `key`, if it opens and parses.
pub open spec fn line_envelope(key: Seq<u8>, line: Seq<char>) -> Option<EnvelopeView> {
    match hex_decode(line) {
        Some(b) => match opened(key, b) {
            Some(p) => envelope_from_bytes(p),
            None => None,
        },
        None => None,
    }
}

/// The ops of the first `k` op-log lines, or the index of the first corrupt
/// line. Blank lines are skipped; a line that does not open or parse is
/// tolerated only as the final line (a write torn by a crash); an envelope
/// whose id does not match its core is corrupt; a repeated id is skipped.
pub open spec fn load_ops(key: Seq<u8>, lines: Seq<Seq<char>>, k: int) -> Result<Seq<EnvelopeView>, int>
    decreases k,
{
    if k <= 0 {
        Ok(seq![])
    } else {
        match load_ops(key, lines, k - 1) {
            Err(i) => Err(i),
            Ok(acc) => {
                let i = k - 1;
                if is_blank(lines[i]) {
                    Ok(acc)
                } else {
                    match line_envelope(key, lines[i]) {
                        None => if i == lines.len() - 1 {
                            Ok(acc)
                        } else {
                            Err(i)
                        },
                        Some(e) => if !intact(e) {
                            Err(i)
                        } else if has_id(acc, e.id) {
                            Ok(acc)
                        } else {
                            Ok(acc.push(e))
                        },
                    }
                }
            },
        }
    }
}

/// How corruption at line `i` (counted from 0) is reported: a line that
/// opens and parses but fails its integrity check, or one that does not.
pub open spec fn corruption_text(key: Seq<u8>, lines: Seq<Seq<char>>, i: int) -> Seq<char> {
    (if line_envelope(key, lines[i]) is Some { "integrity mismatch at line "@ } else { "parse error at line "@ })
        + ascii_chars(decimal((i + 1) as nat))
}

/// The final line was torn by a crash: not blank, and it does not open or parse.
pub open spec fn torn_tail(key: Seq<u8>, lines: Seq<Seq<char>>) -> bool {
    lines.len() > 0 && !is_blank(lines.last()) && line_envelope(key, lines.last()) is None
}

/// The op-log lines a store keeps: a torn final line is dropped.
pub open spec fn kept_lines(key: Seq<u8>, lines: Seq<Seq<char>>) -> Seq<Seq<char>> {
    if torn_tail(key, lines) { lines.drop_last() } else { lines }
}

/// The acked ids of the first `k` ack-log lines: each non-blank line, trimmed,
/// once.
pub open spec fn load_acks(lines: Seq<Seq<char>>, k: int) -> Seq<Seq<char>>
    decreases k,
{
    if k <= 0 {
        seq![]
    } else {
        let acc = load_acks(lines, k - 1);
        let t = trim(lines[k - 1]);
        if t.len() == 0 || acc.contains(t) { acc } else { acc.push(t) }
    }
}

/// The envelopes in order, the first of each id kept.
pub open spec fn dedup(s: Seq<EnvelopeView>) -> Seq<EnvelopeView>
    decreases s.len(),
{
    if s.len() == 0 {
        seq![]
    } else {
        let d = dedup(s.drop_last());
        if has_id(d, s.last().id) { d } else { d.push(s.last()) }
    }
}

/// `line` is the sealed form of `e`'s canonical bytes under `key`.
pub open spec fn sealed_line(key: Seq<u8>, line: Seq<char>, e: EnvelopeView) -> bool {
    exists|n: Seq<u8>| n.len() == NONCE_LEN && line == hex_text(#[trigger] sealed_with(key, n, encode_envelope(e)))
}

/// An op log as this store writes it: line `i` seals the intact envelope `envs[i]`.
pub open spec fn sealed_log(key: Seq<u8>, lines: Seq<Seq<char>>, envs: Seq<EnvelopeView>) -> bool {
    &&& lines.len() == envs.len()
    &&& forall|i: int| 0 <= i < lines.len() ==> intact(#[trigger] envs[i])
    &&& forall|i: int| 0 <= i < lines.len() ==> encode_envelope(#[trigger] envs[i]).len() < max_message_len()
    &&& forall|i: int| 0 <= i < lines.len() ==> sealed_line(key, #[trigger] lines[i], envs[i])
}

/// The envelope's canonical bytes are short enough to seal.
pub open spec fn fits_seal(e: EnvelopeView) -> bool {
    encode_envelope(e).len() < max_message_len()
}

/// The envelopes not yet acked, in commit order.
pub open spec fn pending(ops: Seq<EnvelopeView>, acked: Seq<Seq<char>>) -> Seq<EnvelopeView>
    decreases ops.len(),
{
    if ops.len() == 0 {
        seq![]
    } else {
        let p = pending(ops.drop_last(), acked);
        if acked.contains(ops.last().id) { p } else { p.push(ops.last()) }
    }
}

fn message_at(prefix: &str, line_no: usize) -> (m: String)
    ensures
        m@ == prefix@ + ascii_chars(decimal(line_no as nat)),
{
    let num = decimal_string(line_no as u64);
    let mut m = prefix.to_owned();
    m.append(num.as_str());
    m
}

fn contains_op(ops: &Vec<OperationEnvelope>, id: &OpId) -> (b: bool)
    ensures
        b == has_id(views(ops@), id@),
{
    let ghost vs = views(ops@);
    let n = ops.len();
    for j in 0..n
        invariant
            n == ops@.len(),
            vs == views(ops@),
            forall|k: int| 0 <= k < j ==> (#[trigger] vs[k]).id != id@,
    {
        if str_eq(ops[j].id.as_str(), id.as_str()) {
            assert(vs[j as int].id == id@);
            return true;
        }
    }
    false
}

fn contains_id(ids: &Vec<OpId>, id: &str) -> (b: bool)
    ensures
        b == opids_view(ids@).contains(id@),
{
    let ghost vs = opids_view(ids@);
    let n = ids.len();
    for j in 0..n
        invariant
            n == ids@.len(),
            vs == opids_view(ids@),
            forall|k: int| 0 <= k < j ==> (#[trigger] vs[k]) != id@,
    {
        if str_eq(ids[j].as_str(), id) {
            assert(vs[j as int] == id@);
            return true;
        }
    }
    false
}

proof fn lemma_sealed_not_blank(key: Seq<u8>, line: Seq<char>, e: EnvelopeView)
    requires
        sealed_line(key, line, e),
    ensures
        !is_blank(line),
        exists|n: Seq<u8>| n.len() == NONCE_LEN && hex_decode(line) == Some(#[trigger] sealed_with(key, n, encode_envelope(e))),
{
    let n = choose|n: Seq<u8>| n.len() == NONCE_LEN && line == hex_text(#[trigger] sealed_with(key, n, encode_envelope(e)));
    let b = sealed_with(key, n, encode_envelope(e));
    lemma_hex_trimmed(b);
    lemma_hex_roundtrip(b);
    assert(b.len() >= NONCE_LEN);
    assert(hex_text(b).len() == 2 * b.len());
}

proof fn lemma_dedup_take(envs: Seq<EnvelopeView>, i: int)
    requires
        0 <= i < envs.len(),
    ensures
        dedup(envs.take(i + 1)) == (if has_id(dedup(envs.take(i)), envs[i].id) {
            dedup(envs.take(i))
        } else {
            dedup(envs.take(i)).push(envs[i])
        }),
{
    assert(envs.take(i + 1).drop_last() =~= envs.take(i));
    assert(envs.take(i + 1).last() == envs[i]);
}

/// The envelope that `line` holds under `key`, read by the same steps as
/// `line_envelope`. Whatever a line sealed by this key holds comes back.
fn read_line(key: &SymKey, line: &str) -> (r: Option<OperationEnvelope>)
    ensures
        line_envelope(key@, line@) == (match r {
            Some(e) => Some(e@),
            None => None::<EnvelopeView>,
        }),
        reads_back(key@, line@),
{
    let plain = key.open_line(line);
    let parsed = match plain {
        Some(p) => {
            OperationEnvelope::from_bytes(p.as_slice())
        },
        None => None,
    };
    proof {
        assert forall|e: EnvelopeView|
            sealed_line(key@, line@, e) && encode_envelope(e).len() < max_message_len() implies
            line_envelope(key@, line@) == Some(e) by {
            let nn = choose|nn: Seq<u8>| nn.len() == NONCE_LEN && line@ == hex_text(#[trigger] sealed_with(key@, nn, encode_envelope(e)));
            assert(opt_bytes(plain) == Some(encode_envelope(e)));
            lemma_envelope_roundtrip(e);
        }
    }
    parsed
}

/// A line that seals an envelope under `key` opens to that envelope.
pub open spec fn reads_back(key: Seq<u8>, line: Seq<char>) -> bool {
    forall|e: EnvelopeView|
        sealed_line(key, line, e) && encode_envelope(e).len() < max_message_len()
            ==> line_envelope(key, line) == Some(e)
}

proof fn lemma_load_ops_err_sticks(key: Seq<u8>, lines: Seq<Seq<char>>, i: int, k: int)
    requires
        0 <= i < k,
        load_ops(key, lines, i + 1) == Err::<Seq<EnvelopeView>, int>(i),
    ensures
        load_ops(key, lines, k) == Err::<Seq<EnvelopeView>, int>(i),
    decreases k,
{
    if k > i + 1 {
        lemma_load_ops_err_sticks(key, lines, i, k - 1);
    }
}

/// Appending a line after a log without a torn tail leaves the reading of the
/// earlier lines unchanged.
proof fn lemma_load_ops_push(key: Seq<u8>, lines: Seq<Seq<char>>, x: Seq<char>, k: int)
    requires
        0 <= k <= lines.len(),
        !torn_tail(key, lines),
    ensures
        load_ops(key, lines.push(x), k) == load_ops(key, lines, k),
    decreases k,
{
    if k > 0 {
        lemma_load_ops_push(key, lines, x, k - 1);
        assert(lines.push(x)[k - 1] == lines[k - 1]);
        if k == lines.len() {
            assert(lines.last() == lines[k - 1]);
        }
    }
}

/// Dropping a final line leaves the reading of the earlier lines unchanged
/// when they read without error.
proof fn lemma_load_ops_drop_last(key: Seq<u8>, lines: Seq<Seq<char>>, k: int)
    requires
        0 <= k < lines.len(),
        load_ops(key, lines, k) is Ok,
    ensures
        load_ops(key, lines.drop_last(), k) == load_ops(key, lines, k),
    decreases k,
{
    if k > 0 {
        lemma_load_ops_drop_last(key, lines, k - 1);
        assert(lines.drop_last()[k - 1] == lines[k - 1]);
    }
}

/// A log of lines sealed by `key` reads back as its envelopes, first of each id.
proof fn lemma_sealed_log_loads(key: Seq<u8>, lines: Seq<Seq<char>>, envs: Seq<EnvelopeView>, k: int)
    requires
        sealed_log(key, lines, envs),
        0 <= k <= lines.len(),
        forall|j: int| 0 <= j < k ==> reads_back(key, #[trigger] lines[j]),
    ensures
        load_ops(key, lines, k) == Ok::<Seq<EnvelopeView>, int>(dedup(envs.take(k))),
    decreases k,
{
    if k > 0 {
        let i = k - 1;
        lemma_sealed_log_loads(key, lines, envs, i);
        assert(sealed_line(key, lines[i], envs[i]));
        lemma_sealed_not_blank(key, lines[i], envs[i]);
        assert(reads_back(key, lines[i]));
        assert(line_envelope(key, lines[i]) == Some(envs[i]));
        lemma_dedup_take(envs, i);
    }
}

/// Every log of lines sealed by `key` reads back as its envelopes, as far as
/// its lines are known to read back.
proof fn lemma_sealed_prefix(key: Seq<u8>, lines: Seq<Seq<char>>, k: int)
    requires
        0 <= k <= lines.len(),
        forall|j: int| 0 <= j < k ==> reads_back(key, #[trigger] lines[j]),
    ensures
        forall|envs: Seq<EnvelopeView>| #[trigger] sealed_log(key, lines, envs)
            ==> load_ops(key, lines, k) == Ok::<Seq<EnvelopeView>, int>(dedup(envs.take(k))),
{
    assert forall|envs: Seq<EnvelopeView>| #[trigger] sealed_log(key, lines, envs) implies
        load_ops(key, lines, k) == Ok::<Seq<EnvelopeView>, int>(dedup(envs.take(k))) by {
        lemma_sealed_log_loads(key, lines, envs, k);
    }
}

/// The lines a store keeps read as the whole log does, and end in no torn line.
proof fn lemma_kept_lines_read(key: Seq<u8>, lines: Seq<Seq<char>>)
    requires
        load_ops(key, lines, lines.len() as int) is Ok,
    ensures
        load_ops(key, kept_lines(key, lines), kept_lines(key, lines).len() as int)
            == load_ops(key, lines, lines.len() as int),
        !torn_tail(key, kept_lines(key, lines)),
{
    let n = lines.len() as int;
    if torn_tail(key, lines) {
        assert(lines.last() == lines[n - 1]);
        lemma_load_ops_drop_last(key, lines, n - 1);
        if n >= 2 {
            assert(lines.drop_last().last() == lines[n - 2]);
        }
    }
}

/// The op-log lines read from the start: the ops with a flag for a torn final
/// line, or the index of the first corrupt line with a flag for an integrity
/// mismatch (rather than a line that does not open or parse).
fn load_op_lines(key: &SymKey, lines: &Vec<String>) -> (r: Result<(Vec<OperationEnvelope>, bool), (usize, bool)>)
    ensures
        match r {
            Ok((ops, torn)) => {
                &&& load_ops(key@, lines_view(lines@), lines@.len() as int) == Ok::<Seq<EnvelopeView>, int>(views(ops@))
                &&& torn == torn_tail(key@, lines_view(lines@))
                &&& forall|j: int| 0 <= j < lines@.len() ==> reads_back(key@, #[trigger] lines_view(lines@)[j])
            },
            Err((i, integrity)) => {
                &&& load_ops(key@, lines_view(lines@), lines@.len() as int) == Err::<Seq<EnvelopeView>, int>(i as int)
                &&& integrity == (line_envelope(key@, lines_view(lines@)[i as int]) is Some)
                &&& load_ops(key@, lines_view(lines@), i + 1) == Err::<Seq<EnvelopeView>, int>(i as int)
                &&& i < lines@.len()
                &&& forall|j: int| 0 <= j <= i ==> reads_back(key@, #[trigger] lines_view(lines@)[j])
            },
        },
{
    let ghost lv = lines_view(lines@);
    let n = lines.len();
    let mut ops: Vec<OperationEnvelope> = Vec::new();
    let mut torn = false;
    let mut i: usize = 0;
    assert(views(ops@) =~= Seq::<EnvelopeView>::empty());
    while i < n
        invariant
            n == lines@.len(),
            lv == lines_view(lines@),
            i <= n,
            load_ops(key@, lv, i as int) == Ok::<Seq<EnvelopeView>, int>(views(ops@)),
            torn ==> i == n && torn_tail(key@, lv),
            i == n && !torn ==> !torn_tail(key@, lv),
            forall|j: int| 0 <= j < i ==> reads_back(key@, #[trigger] lv[j]),
        decreases n - i,
    {
        let line = lines[i].as_str();
        assert(lv[i as int] == line@);
        let blank = trimmed(line).unicode_len() == 0;
        if blank {
            i += 1;
            proof {
                assert forall|e: EnvelopeView| #![auto] sealed_line(key@, line@, e) implies false by {
                    lemma_sealed_not_blank(key@, line@, e);
                }
                if i == n {
                    assert(lv.last() == lv[n - 1]);
                }
            }
        } else {
            let parsed = read_line(key, line);
            match parsed {
                None => {
                    if i == n - 1 {
                        proof {
                            assert(lv.last() == lv[i as int]);
                        }
                        torn = true;
                        i += 1;
                    } else {
                        proof {
                            lemma_load_ops_err_sticks(key@, lv, i as int, n as int);
                        }
                        return Err((i, false));
                    }
                },
                Some(env) => {
                    if !env.verify_integrity() {
                        proof {
                            lemma_load_ops_err_sticks(key@, lv, i as int, n as int);
                        }
                        return Err((i, true));
                    }
                    let ghost before = views(ops@);
                    if !contains_op(&ops, &env.id) {
                        ops.push(env);
                        assert(views(ops@) =~= before.push(env@));
                    }
                    i += 1;
                    proof {
                        if i == n {
                            assert(lv.last() == lv[n - 1]);
                        }
                    }
                },
            }
        }
    }
    Ok((ops, torn))
}

/// The acked ids of the ack-log lines.
fn load_ack_lines(lines: &Vec<String>) -> (acked: Vec<OpId>)
    ensures
        opids_view(acked@) == load_acks(lines_view(lines@), lines@.len() as int),
{
    let m = lines.len();
    let mut acked: Vec<OpId> = Vec::new();
    for j in 0..m
        invariant
            m == lines@.len(),
            opids_view(acked@) == load_acks(lines_view(lines@), j as int),
    {
        let t = trimmed(lines[j].as_str());
        assert(lines_view(lines@)[j as int] == lines@[j as int]@);
        if t.unicode_len() != 0 && !contains_id(&acked, t) {
            let ghost pre = opids_view(acked@);
            acked.push(OpId::new(t));
            assert(opids_view(acked@) =~= pre.push(t@));
        }
    }
    acked
}

impl StoreView {
    /// The store's op log reads back as its ops, and it ends in no torn line,
    /// so that a line appended after it reads back too.
    pub open spec fn wf(self) -> bool {
        &&& load_ops(self.key, self.op_log, self.op_log.len() as int) == Ok::<Seq<EnvelopeView>, int>(self.ops)
        &&& !torn_tail(self.key, self.op_log)
    }

    /// The store after `line`, sealing `e`, was appended to its op log.
    pub open spec fn appended(self, line: Seq<char>, e: EnvelopeView) -> StoreView {
        StoreView { op_log: self.op_log.push(line), ops: self.ops.push(e), ..self }
    }

    /// The store after the server's receipt of `id` was recorded: an id
    /// already acked changes nothing; a new one is appended to the ack log.
    pub open spec fn marked(self, id: Seq<char>) -> StoreView {
        if self.acked.contains(id) {
            self
        } else {
            StoreView { ack_log: self.ack_log.push(id), acked: self.acked.push(id), ..self }
        }
    }
}

impl LocalStore {
    /// Rebuild the store from the lines of its two logs. A final op-log line
    /// that does not open or parse is read as a write cut short by a crash:
    /// it is tolerated and left out of the log the store keeps, so the next
    /// write of that log drops it. The reader cannot tell such a line from a
    /// whole line sealed under another key or altered afterwards: a log whose
    /// only line is of that kind opens as an empty store. Any other line that
    /// does not open, parse or pass its integrity check is corruption.
    pub fn open(key: SymKey, op_lines: Vec<String>, ack_lines: Vec<String>) -> (r: Result<LocalStore, StoreError>)
        ensures
            match load_ops(key@, lines_view(op_lines@), op_lines@.len() as int) {
                Err(i) => r matches Err(StoreError::Corruption(m)) && m@ == corruption_text(key@, lines_view(op_lines@), i),
                Ok(_) => r is Ok,
            },
            r matches Ok(s) ==> {
                &&& s@.wf()
                &&& s@.key == key@
                &&& s@.ops == load_ops(key@, lines_view(op_lines@), op_lines@.len() as int)->Ok_0
                &&& s@.op_log == kept_lines(key@, lines_view(op_lines@))
                &&& s@.acked == load_acks(lines_view(ack_lines@), ack_lines@.len() as int)
                &&& s@.ack_log == lines_view(ack_lines@)
            },
            // A log whose every line seals an envelope under this key reads
            // back as those envelopes, the first of each id.
            forall|envs: Seq<EnvelopeView>|
                sealed_log(key@, lines_view(op_lines@), envs) ==> (r matches Ok(s) && s@.ops == dedup(envs)),
    {
        let ghost lv = lines_view(op_lines@);
        let ghost n = op_lines@.len() as int;
        let loaded = load_op_lines(&key, &op_lines);
        let (ops, torn) = match loaded {
            Ok(pair) => pair,
            Err((i, integrity)) => {
                proof {
                    lemma_sealed_prefix(key@, lv, i + 1);
                }
                let prefix = if integrity { "integrity mismatch at line " } else { "parse error at line " };
                return Err(StoreError::Corruption(message_at(prefix, i + 1)));
            },
        };
        proof {
            lemma_sealed_prefix(key@, lv, n);
            assert forall|envs: Seq<EnvelopeView>| #[trigger] sealed_log(key@, lv, envs) implies views(ops@) == dedup(envs) by {
                assert(envs.take(n) =~= envs);
            }
        }
        let mut kept = op_lines;
        if torn {
            kept.pop();
        }
        proof {
            assert(lines_view(kept@) =~= kept_lines(key@, lv));
            lemma_kept_lines_read(key@, lv);
        }
        let acked = load_ack_lines(&ack_lines);
        Ok(LocalStore { key, op_log: kept, ack_log: ack_lines, ops, acked })
    }

    /// Commit an envelope: `Ok(true)` if newly stored, `Ok(false)` if an
    /// envelope with its id is already present (idempotent: safe to replay or
    /// retry); an envelope too large for the AEAD is refused. A new
    /// envelope's sealed line is appended to the op log.
    pub fn commit(&mut self, env: &OperationEnvelope) -> (r: Result<bool, StoreError>)
        requires
            old(self)@.wf(),
        ensures
            final(self)@.wf(),
            !intact(env@) ==> (r matches Err(StoreError::Corruption(m))
                && m@ == "refusing to commit an envelope with a bad integrity hash"@) && final(self)@ == old(self)@,
            intact(env@) && has_id(old(self)@.ops, env@.id) ==> r == Ok::<bool, StoreError>(false)
                && final(self)@ == old(self)@,
            intact(env@) && !has_id(old(self)@.ops, env@.id) && !fits_seal(env@) ==>
                (r matches Err(StoreError::Corruption(m)) && m@ == "envelope too large to seal"@)
                && final(self)@ == old(self)@,
            intact(env@) && !has_id(old(self)@.ops, env@.id) && fits_seal(env@) ==> {
                &&& r == Ok::<bool, StoreError>(true)
                &&& final(self)@ == old(self)@.appended(final(self)@.op_log.last(), env@)
                &&& sealed_line(old(self)@.key, final(self)@.op_log.last(), env@)
            },
    {
        if !env.verify_integrity() {
            return Err(StoreError::Corruption(
                "refusing to commit an envelope with a bad integrity hash".to_owned(),
            ));
        }
        if contains_op(&self.ops, &env.id) {
            return Ok(false);
        }
        let bytes = env.to_bytes();
        if bytes.len() as u64 >= MAX_SEALED_LEN {
            return Err(StoreError::Corruption("envelope too large to seal".to_owned()));
        }
        let line = self.key.seal_line(bytes.as_slice());
        let ghost old_view = self@;
        proof {
            lemma_envelope_roundtrip(env@);
            lemma_sealed_not_blank(self@.key, line@, env@);
            lemma_load_ops_push(self@.key, self@.op_log, line@, self@.op_log.len() as int);
            assert(lines_view(self.op_log@).push(line@)[self@.op_log.len() as int] == line@);
        }
        self.op_log.push(line);
        self.ops.push(env.clone());
        proof {
            assert(lines_view(self.op_log@) =~= old_view.op_log.push(line@));
            assert(views(self.ops@) =~= old_view.ops.push(env@));
        }
        Ok(true)
    }

    /// Record that the server has receipted this op: an id already acked
    /// changes nothing, a new one is appended to the ack log (whoever owns the
    /// file appends that line and fsyncs it). Never fails here.
    pub fn mark_acked(&mut self, id: &OpId) -> (r: Result<(), StoreError>)
        ensures
            r is Ok,
            final(self)@ == old(self)@.marked(id@),
    {
        if contains_id(&self.acked, id.as_str()) {
            return Ok(());
        }
        let ghost old_view = self@;
        self.ack_log.push(id.as_str().to_owned());
        self.acked.push(id.clone());
        proof {
            assert(lines_view(self.ack_log@) =~= old_view.ack_log.push(id@));
            assert(opids_view(self.acked@) =~= old_view.acked.push(id@));
        }
        Ok(())
    }

    /// All committed envelopes, in commit order.
    pub fn ops(&self) -> (r: &[OperationEnvelope])
        ensures
            views(r@) == self@.ops,
    {
        self.ops.as_slice()
    }

    /// Committed-but-unacked envelopes, in commit order (the send queue).
    pub fn outbox(&self) -> (r: Vec<&OperationEnvelope>)
        ensures
            r@.map_values(|e: &OperationEnvelope| e@) == pending(self@.ops, self@.acked),
    {
        let ghost vs = views(self.ops@);
        let ghost acked = opids_view(self.acked@);
        let mut out: Vec<&OperationEnvelope> = Vec::new();
        let n = self.ops.len();
        for i in 0..n
            invariant
                n == self.ops@.len(),
                vs == views(self.ops@),
                acked == opids_view(self.acked@),
                out@.map_values(|e: &OperationEnvelope| e@) == pending(vs.take(i as int), acked),
        {
            let e = &self.ops[i];
            proof {
                assert(vs.take(i + 1).drop_last() =~= vs.take(i as int));
                assert(vs.take(i + 1).last() == e@);
            }
            if !contains_id(&self.acked, e.id.as_str()) {
                let ghost pre = out@.map_values(|e: &OperationEnvelope| e@);
                out.push(e);
                assert(out@.map_values(|e: &OperationEnvelope| e@) =~= pre.push(e@));
            }
        }
        assert(vs.take(n as int) =~= vs);
        out
    }

    /// The number of committed-but-unacked envelopes.
    pub fn outbox_len(&self) -> (n: usize)
        ensures
            n == pending(self@.ops, self@.acked).len(),
    {
        let ghost vs = views(self.ops@);
        let ghost acked = opids_view(self.acked@);
        let mut count: usize = 0;
        let n = self.ops.len();
        for i in 0..n
            invariant
                n == self.ops@.len(),
                vs == views(self.ops@),
                acked == opids_view(self.acked@),
                count == pending(vs.take(i as int), acked).len(),
                count <= i,
        {
            proof {
                assert(vs.take(i + 1).drop_last() =~= vs.take(i as int));
                assert(vs.take(i + 1).last() == self.ops@[i as int]@);
            }
            if !contains_id(&self.acked, self.ops[i].id.as_str()) {
                count += 1;
            }
        }
        assert(vs.take(n as int) =~= vs);
        count
    }

    /// The op-log lines, as they stand in the file.
    pub fn op_log_lines(&self) -> (r: &[String])
        ensures
            lines_view(r@) == self@.op_log,
    {
        self.op_log.as_slice()
    }

    /// The ack-log lines, as they stand in the file.
    pub fn ack_log_lines(&self) -> (r: &[String])
        ensures
            lines_view(r@) == self@.ack_log,
    {
        self.ack_log.as_slice()
    }
}

proof fn lemma_load_acks_push(lines: Seq<Seq<char>>, x: Seq<char>, k: int)
    requires
        0 <= k <= lines.len(),
    ensures
        load_acks(lines.push(x), k) == load_acks(lines, k),
    decreases k,
{
    if k > 0 {
        lemma_load_acks_push(lines, x, k - 1);
        assert(lines.push(x)[k - 1] == lines[k - 1]);
    }
}

proof fn lemma_pending_ack(ops: Seq<EnvelopeView>, acked: Seq<Seq<char>>, id: Seq<char>)
    ensures
        pending(ops, acked.push(id)) == pending(ops, acked).filter(|e: EnvelopeView| e.id != id),
    decreases ops.len(),
{
    reveal(Seq::filter);
    if ops.len() > 0 {
        lemma_pending_ack(ops.drop_last(), acked, id);
        let p = pending(ops.drop_last(), acked);
        let e = ops.last();
        assert(acked.push(id).contains(e.id) <==> (acked.contains(e.id) || e.id == id)) by {
            if e.id == id {
                assert(acked.push(id)[acked.len() as int] == id);
            }
            if acked.push(id).contains(e.id) && e.id != id {
                let j = choose|j: int| 0 <= j < acked.push(id).len() && acked.push(id)[j] == e.id;
                assert(acked[j] == e.id);
            }
            if acked.contains(e.id) {
                let j = choose|j: int| 0 <= j < acked.len() && acked[j] == e.id;
                assert(acked.push(id)[j] == e.id);
            }
        }
        if !acked.contains(e.id) {
            assert(p.push(e).drop_last() =~= p);
        }
    }
}

/// Reopening a store from its own two logs gives back the same ops and keeps
/// the same op log (`open` reads the logs by `load_ops` and `kept_lines`).
pub proof fn law_reopen_restores(s: StoreView)
    requires
        s.wf(),
    ensures
        load_ops(s.key, s.op_log, s.op_log.len() as int) == Ok::<Seq<EnvelopeView>, int>(s.ops),
        kept_lines(s.key, s.op_log) == s.op_log,
{
}

/// A torn final write (a line that neither opens nor parses, left by a crash
/// mid-append) is tolerated: the log reads as it did without that line, and
/// the store drops it.
pub proof fn law_torn_tail_tolerated(key: Seq<u8>, lines: Seq<Seq<char>>, torn: Seq<char>)
    requires
        load_ops(key, lines, lines.len() as int) is Ok,
        !torn_tail(key, lines),
        !is_blank(torn),
        line_envelope(key, torn) is None,
    ensures
        load_ops(key, lines.push(torn), lines.len() + 1int) == load_ops(key, lines, lines.len() as int),
        kept_lines(key, lines.push(torn)) == lines,
{
    lemma_load_ops_push(key, lines, torn, lines.len() as int);
    assert(lines.push(torn)[lines.len() as int] == torn);
    assert(lines.push(torn).drop_last() =~= lines);
}

/// A line that does not open, parse, or pass its integrity check anywhere but
/// at the end of the op log makes the whole log corrupt.
pub proof fn law_corrupt_line_refused(key: Seq<u8>, lines: Seq<Seq<char>>, i: int)
    requires
        0 <= i < lines.len() - 1,
        load_ops(key, lines, i) is Ok,
        !is_blank(lines[i]),
        match line_envelope(key, lines[i]) {
            Some(e) => !intact(e),
            None => true,
        },
    ensures
        load_ops(key, lines, lines.len() as int) == Err::<Seq<EnvelopeView>, int>(i),
{
    lemma_load_ops_err_sticks(key, lines, i, lines.len() as int);
}

/// Committing is idempotent: once an envelope is appended, the store holds
/// its id, so committing it again changes nothing.
pub proof fn law_commit_idempotent(s: StoreView, line: Seq<char>, e: EnvelopeView)
    ensures
        has_id(s.appended(line, e).ops, e.id),
{
    assert(s.appended(line, e).ops[s.ops.len() as int] == e);
}

/// Acking touches neither the op log nor the ops, and takes exactly the ops
/// with that id out of the outbox: "outbox empty" is not "durable".
pub proof fn law_ack_shrinks_outbox(s: StoreView, id: Seq<char>)
    ensures
        s.marked(id).key == s.key,
        s.marked(id).op_log == s.op_log,
        s.marked(id).ops == s.ops,
        pending(s.marked(id).ops, s.marked(id).acked)
            == pending(s.ops, s.acked).filter(|e: EnvelopeView| e.id != id),
{
    lemma_pending_ack(s.ops, s.acked, id);
    if s.acked.contains(id) {
        lemma_pending_same(s.ops, s.acked, id);
    }
}

proof fn lemma_pending_same(ops: Seq<EnvelopeView>, acked: Seq<Seq<char>>, id: Seq<char>)
    requires
        acked.contains(id),
    ensures
        pending(ops, acked.push(id)) == pending(ops, acked),
    decreases ops.len(),
{
    if ops.len() > 0 {
        lemma_pending_same(ops.drop_last(), acked, id);
        let e = ops.last();
        assert(acked.push(id).contains(e.id) <==> acked.contains(e.id)) by {
            if acked.push(id).contains(e.id) {
                let j = choose|j: int| 0 <= j < acked.push(id).len() && acked.push(id)[j] == e.id;
                if j < acked.len() {
                    assert(acked[j] == e.id);
                }
            }
            if acked.contains(e.id) {
                let j = choose|j: int| 0 <= j < acked.len() && acked[j] == e.id;
                assert(acked.push(id)[j] == e.id);
            }
        }
    }
}

/// An ack survives reopening: for an id with no surrounding white space (as a
/// content id has), recording it keeps the acked ids equal to what the ack
/// log reads back as, and they hold the id.
pub proof fn law_ack_survives_reopen(s: StoreView, id: Seq<char>)
    requires
        s.acked == load_acks(s.ack_log, s.ack_log.len() as int),
        trim(id) == id,
        id.len() > 0,
    ensures
        s.marked(id).acked == load_acks(s.marked(id).ack_log, s.marked(id).ack_log.len() as int),
        s.marked(id).acked.contains(id),
{
    if !s.acked.contains(id) {
        let l = s.ack_log.push(id);
        lemma_load_acks_push(s.ack_log, id, s.ack_log.len() as int);
        assert(l[s.ack_log.len() as int] == id);
        assert(s.acked.push(id)[s.acked.len() as int] == id);
    }
}

/// What a log reads as holds only intact envelopes, no two with one id.
proof fn lemma_load_ops_clean(key: Seq<u8>, lines: Seq<Seq<char>>, k: int)
    requires
        load_ops(key, lines, k) is Ok,
    ensures
        forall|i: int| 0 <= i < load_ops(key, lines, k)->Ok_0.len()
            ==> intact(#[trigger] load_ops(key, lines, k)->Ok_0[i]),
        forall|i: int, j: int| 0 <= i < j < load_ops(key, lines, k)->Ok_0.len()
            ==> (#[trigger] load_ops(key, lines, k)->Ok_0[i]).id != (#[trigger] load_ops(key, lines, k)->Ok_0[j]).id,
    decreases k,
{
    if k > 0 {
        lemma_load_ops_clean(key, lines, k - 1);
        let acc = load_ops(key, lines, k - 1)->Ok_0;
        let r = load_ops(key, lines, k)->Ok_0;
        if r != acc {
            let e = r.last();
            assert(r == acc.push(e));
            assert(intact(e) && !has_id(acc, e.id));
            assert forall|i: int, j: int| 0 <= i < j < r.len() implies (#[trigger] r[i]).id != (#[trigger] r[j]).id by {
                if j == r.len() - 1 {
                    assert(r[i] == acc[i]);
                } else {
                    assert(r[i] == acc[i] && r[j] == acc[j]);
                }
            }
            assert forall|i: int| 0 <= i < r.len() implies intact(#[trigger] r[i]) by {
                if i < acc.len() {
                    assert(r[i] == acc[i]);
                }
            }
        }
    }
}

/// A store holds only intact envelopes, each id once.
pub proof fn law_store_ops_intact_and_distinct(s: StoreView)
    requires
        s.wf(),
    ensures
        forall|i: int| 0 <= i < s.ops.len() ==> intact(#[trigger] s.ops[i]),
        forall|i: int, j: int| 0 <= i < j < s.ops.len() ==> (#[trigger] s.ops[i]).id != (#[trigger] s.ops[j]).id,
{
    lemma_load_ops_clean(s.key, s.op_log, s.op_log.len() as int);
}

/// The outbox is the committed ops, in commit order, whose ids were not
/// acked: those recorded by `mark_acked` in this session and those the ack
/// log held when the store was opened (`open` reads them into `acked`).
pub proof fn law_outbox_is_unacked_ops(ops: Seq<EnvelopeView>, acked: Seq<Seq<char>>)
    ensures
        pending(ops, acked) == ops.filter(|e: EnvelopeView| !acked.contains(e.id)),
    decreases ops.len(),
{
    reveal(Seq::filter);
    if ops.len() > 0 {
        law_outbox_is_unacked_ops(ops.drop_last(), acked);
    }
}

} // verus!
