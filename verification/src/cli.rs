//! `ssn`, the SecureSourceNote command-line client: a local-first notes app
//! over an encrypted op log.
//!
//! Its data lives in a home directory: the device id (`device.id`), the store
//! key (`store.key`, hex), and under `data/` the op log and the ack log. The
//! key is kept in a dev-grade key file next to the data; real key protection
//! must replace it before any non-dev use.
//!
//! `Home` holds those files as text. `run` works on it; whoever owns the
//! directory reads the files into a `Home` before, and writes back what
//! changed after (a created device id or key file, the op-log lines that
//! follow the kept ones).

use vstd::prelude::*;
use crate::causal::{has_id, unique_ids, views};
use crate::crypto::{fill_random, SymKey};
use crate::document::{
    lemma_projection_names, replay, block_find, blocks_view, key_find, projection, BlockV, BlockView, DocV, DocumentState, Documents,
};
use crate::envelope::{
    content_id_of, CoreView, EnvelopeCore, EnvelopeView, OperationEnvelope, Payload, PayloadView, ENVELOPE_VERSION,
};
use crate::store::{corruption_text, fits_seal, kept_lines, load_ops, torn_tail, LocalStore, StoreView};
use crate::id::{DeviceId, OpId, WorkspaceId};
use crate::hex::{chars_of, decode_pairs, pair_value, pair_value_exec, hex_text, lemma_hex_roundtrip, lemma_hex_trimmed, to_hex, trim, trim_end, trimmed, trimmed_end};
use crate::id::{BlockId, DocumentId};
use crate::json::decimal_string;
use crate::order::str_eq;
use crate::server::number_text;

verus! {

/// What the commands read and write of the home directory, as text.
pub struct Home {
    /// How the data directory is shown to the user.
    pub data_dir: String,
    /// `device.id`, when the file exists.
    pub device: Option<String>,
    /// `store.key`, when the file exists.
    pub key: Option<String>,
    /// The lines of the op log.
    pub op_lines: Vec<String>,
    /// The lines of the ack log.
    pub ack_lines: Vec<String>,
}

pub struct HomeView {
    pub data_dir: Seq<char>,
    pub device: Option<Seq<char>>,
    pub key: Option<Seq<char>>,
    pub op_lines: Seq<Seq<char>>,
    pub ack_lines: Seq<Seq<char>>,
}

pub open spec fn opt_text(o: Option<String>) -> Option<Seq<char>> {
    match o {
        Some(s) => Some(s@),
        None => None,
    }
}

pub open spec fn lines_of(v: Seq<String>) -> Seq<Seq<char>> {
    v.map_values(|s: String| s@)
}

impl View for Home {
    type V = HomeView;

    open spec fn view(&self) -> HomeView {
        HomeView {
            data_dir: self.data_dir@,
            device: opt_text(self.device),
            key: opt_text(self.key),
            op_lines: lines_of(self.op_lines@),
            ack_lines: lines_of(self.ack_lines@),
        }
    }
}

// ---------------------------------------------------------------------------
// Commands.

pub const USAGE: &'static str = "ssn — SecureSourceNote CLI\n\
     \n\
     ssn init                 create the local encrypted store\n\
     ssn new <title>          create a note, prints its id\n\
     ssn add <doc> <text...>  append a text block to a note\n\
     ssn edit <block> <text>  replace a block's text\n\
     ssn rm <block>           remove (tombstone) a block\n\
     ssn ls                   list notes\n\
     ssn cat <doc>            print a note\n\
     \n\
     Data lives in $SSN_HOME (default ./.ssn).";

/// The usage text.
pub fn usage() -> (s: String)
    ensures
        s@ == USAGE@,
{
    USAGE.to_owned()
}

/// A command line, parsed.
pub enum Command {
    Init,
    New(String),
    Add(String, String),
    Edit(String, String),
    Rm(String),
    Ls,
    Cat(String),
    Help,
}

pub enum CommandView {
    Init,
    New(Seq<char>),
    Add(Seq<char>, Seq<char>),
    Edit(Seq<char>, Seq<char>),
    Rm(Seq<char>),
    Ls,
    Cat(Seq<char>),
    Help,
}

impl View for Command {
    type V = CommandView;

    open spec fn view(&self) -> CommandView {
        match self {
            Command::Init => CommandView::Init,
            Command::New(t) => CommandView::New(t@),
            Command::Add(d, t) => CommandView::Add(d@, t@),
            Command::Edit(b, t) => CommandView::Edit(b@, t@),
            Command::Rm(b) => CommandView::Rm(b@),
            Command::Ls => CommandView::Ls,
            Command::Cat(d) => CommandView::Cat(d@),
            Command::Help => CommandView::Help,
        }
    }
}

/// Words joined with single spaces.
pub open spec fn join_words(ws: Seq<Seq<char>>) -> Seq<char>
    decreases ws.len(),
{
    if ws.len() == 0 {
        seq![]
    } else if ws.len() == 1 {
        ws[0]
    } else {
        join_words(ws.drop_last()) + seq![' '] + ws.last()
    }
}

/// The command of a command line (its first word, `help` when there is
/// none), or the usage error to show.
pub open spec fn parse_command(args: Seq<Seq<char>>) -> Result<CommandView, Seq<char>> {
    let first = if args.len() > 0 { args[0] } else { "help"@ };
    if first == "init"@ {
        Ok(CommandView::Init)
    } else if first == "new"@ {
        if args.len() > 1 { Ok(CommandView::New(args[1])) } else { Err("usage: ssn new <title>"@) }
    } else if first == "add"@ {
        if args.len() > 1 && join_words(args.skip(2)).len() > 0 {
            Ok(CommandView::Add(args[1], join_words(args.skip(2))))
        } else {
            Err("usage: ssn add <doc-id> <text...>"@)
        }
    } else if first == "edit"@ {
        if args.len() > 1 && join_words(args.skip(2)).len() > 0 {
            Ok(CommandView::Edit(args[1], join_words(args.skip(2))))
        } else {
            Err("usage: ssn edit <block-id> <text...>"@)
        }
    } else if first == "rm"@ {
        if args.len() > 1 { Ok(CommandView::Rm(args[1])) } else { Err("usage: ssn rm <block-id>"@) }
    } else if first == "ls"@ {
        Ok(CommandView::Ls)
    } else if first == "cat"@ {
        if args.len() > 1 { Ok(CommandView::Cat(args[1])) } else { Err("usage: ssn cat <doc-id>"@) }
    } else if first == "help"@ || first == "-h"@ || first == "--help"@ {
        Ok(CommandView::Help)
    } else {
        Err("unknown command '"@ + first + "'\n\n"@ + USAGE@)
    }
}

/// `args[from..].join(" ")`.
fn join_from(args: &[String], from: usize) -> (s: String)
    requires
        from <= args@.len(),
    ensures
        s@ == join_words(lines_of(args@).skip(from as int)),
{
    let ghost all = lines_of(args@).skip(from as int);
    let n = args.len();
    let mut s = String::new();
    let mut i: usize = from;
    proof {
        reveal_strlit(" ");
        assert(all.take(0) =~= Seq::<Seq<char>>::empty());
    }
    while i < n
        invariant
            n == args@.len(),
            from <= i <= n,
            all == lines_of(args@).skip(from as int),
            s@ == join_words(all.take(i - from)),
        decreases n - i,
    {
        proof {
            reveal_strlit(" ");
            let t = all.take(i - from + 1);
            assert(t.drop_last() =~= all.take(i - from));
            assert(t.last() == args@[i as int]@);
        }
        if i > from {
            s.append(" ");
        }
        s.append(args[i].as_str());
        i += 1;
    }
    assert(all.take(n - from) =~= all);
    s
}

/// Parse a command line.
pub fn parse_args(args: &[String]) -> (r: Result<Command, String>)
    ensures
        match r {
            Ok(c) => parse_command(lines_of(args@)) == Ok::<CommandView, Seq<char>>(c@),
            Err(m) => parse_command(lines_of(args@)) == Err::<CommandView, Seq<char>>(m@),
        },
{
    let ghost a = lines_of(args@);
    let n = args.len();
    let first: &str = if n > 0 { args[0].as_str() } else { "help" };
    assert(first@ == (if a.len() > 0 { a[0] } else { "help"@ }));
    if str_eq(first, "init") {
        Ok(Command::Init)
    } else if str_eq(first, "new") {
        if n > 1 { Ok(Command::New(args[1].clone())) } else { Err("usage: ssn new <title>".to_owned()) }
    } else if str_eq(first, "add") {
        if n > 1 {
            let text = join_from(args, 2);
            if text.unicode_len() > 0 {
                return Ok(Command::Add(args[1].clone(), text));
            }
        }
        Err("usage: ssn add <doc-id> <text...>".to_owned())
    } else if str_eq(first, "edit") {
        if n > 1 {
            let text = join_from(args, 2);
            if text.unicode_len() > 0 {
                return Ok(Command::Edit(args[1].clone(), text));
            }
        }
        Err("usage: ssn edit <block-id> <text...>".to_owned())
    } else if str_eq(first, "rm") {
        if n > 1 { Ok(Command::Rm(args[1].clone())) } else { Err("usage: ssn rm <block-id>".to_owned()) }
    } else if str_eq(first, "ls") {
        Ok(Command::Ls)
    } else if str_eq(first, "cat") {
        if n > 1 { Ok(Command::Cat(args[1].clone())) } else { Err("usage: ssn cat <doc-id>".to_owned()) }
    } else if str_eq(first, "help") || str_eq(first, "-h") || str_eq(first, "--help") {
        Ok(Command::Help)
    } else {
        let mut m = "unknown command '".to_owned();
        m.append(first);
        m.append("'\n\n");
        m.append(USAGE);
        Err(m)
    }
}

// ---------------------------------------------------------------------------
// Identity and key material.

/// `prefix` followed by the hex of six bytes.
pub open spec fn is_fresh_id(s: Seq<char>, prefix: Seq<char>) -> bool {
    exists|b: Seq<u8>| b.len() == 6 && s == prefix + hex_text(b)
}

/// A fresh random id: `prefix` followed by 12 lowercase hex digits.
fn gen_id(prefix: &str) -> (s: String)
    ensures
        is_fresh_id(s@, prefix@),
{
    let mut b = [0u8; 6];
    fill_random(&mut b);
    let h = to_hex(&b);
    let mut s = prefix.to_owned();
    s.append(h.as_str());
    assert(b@.len() == 6);
    s
}

/// The 32 bytes that exactly 64 hex digits stand for, pair by pair.
pub open spec fn hex32(s: Seq<char>) -> Option<Seq<u8>> {
    if s.len() == 64 { decode_pairs(s) } else { None }
}

/// The key bytes that key-file text holds: the text, trimmed, as 64 hex
/// digits.
pub open spec fn key_bytes(text: Seq<char>) -> Option<Seq<u8>> {
    hex32(trim(text))
}

/// Parse exactly 64 hex digits, taken as they are, into 32 bytes.
fn from_hex32(s: &str) -> (r: Option<[u8; 32]>)
    ensures
        match r {
            Some(a) => hex32(s@) == Some(a@),
            None => hex32(s@) is None,
        },
{
    let cs = chars_of(s);
    if cs.len() != 64 {
        return None;
    }
    let mut out = [0u8; 32];
    for i in 0..32
        invariant
            cs@ == s@,
            cs@.len() == 64,
            forall|k: int| 0 <= k < i ==> (#[trigger] pair_value(s@[2 * k], s@[2 * k + 1])) == Some(out@[k]),
    {
        match pair_value_exec(cs[2 * i], cs[2 * i + 1]) {
            Some(b) => {
                out[i] = b;
            },
            None => {
                assert(!(pair_value(s@[2 * (i as int)], s@[2 * (i as int) + 1]) is Some));
                return None;
            },
        }
    }
    assert(out@ =~= Seq::new(32, |j: int| pair_value(s@[2 * j], s@[2 * j + 1]).unwrap()));
    Some(out)
}

// ---------------------------------------------------------------------------
// Reading the projection.

/// The number of blocks that are not removed.
pub open spec fn visible_count(blocks: Seq<BlockV>) -> nat
    decreases blocks.len(),
{
    if blocks.len() == 0 {
        0
    } else {
        visible_count(blocks.drop_last()) + if blocks.last().removed { 0nat } else { 1nat }
    }
}

/// The id of the last block that is not removed.
pub open spec fn last_visible(blocks: Seq<BlockV>) -> Option<Seq<char>>
    decreases blocks.len(),
{
    if blocks.len() == 0 {
        None
    } else if !blocks.last().removed {
        Some(blocks.last().id)
    } else {
        last_visible(blocks.drop_last())
    }
}

/// The first document (in id order) that holds a block with id `block`,
/// removed or not.
pub open spec fn doc_of_block(docs: Seq<(Seq<char>, DocV)>, block: Seq<char>) -> Option<Seq<char>>
    decreases docs.len(),
{
    if docs.len() == 0 {
        None
    } else if block_find(docs[0].1.blocks, block) < docs[0].1.blocks.len() {
        Some(docs[0].0)
    } else {
        doc_of_block(docs.drop_first(), block)
    }
}

/// One line of `ls`, with its line break.
pub open spec fn ls_line(doc: Seq<char>, d: DocV) -> Seq<char> {
    let n = visible_count(d.blocks);
    doc + "  "@ + d.title + "  ("@ + number_text(n) + (if n == 1 { " block)\n"@ } else { " blocks)\n"@ })
}

pub open spec fn ls_lines(docs: Seq<(Seq<char>, DocV)>) -> Seq<char>
    decreases docs.len(),
{
    if docs.len() == 0 {
        seq![]
    } else {
        ls_lines(docs.drop_last()) + ls_line(docs.last().0, docs.last().1)
    }
}

/// What `ls` prints.
pub open spec fn ls_text(docs: Seq<(Seq<char>, DocV)>) -> Seq<char> {
    if docs.len() == 0 {
        "(no notes yet — `ssn new <title>`)"@
    } else {
        trim_end(ls_lines(docs))
    }
}

/// The lines of `cat` for the blocks that are not removed.
pub open spec fn block_lines(blocks: Seq<BlockV>) -> Seq<char>
    decreases blocks.len(),
{
    if blocks.len() == 0 {
        seq![]
    } else {
        let b = blocks.last();
        block_lines(blocks.drop_last()) + if b.removed {
            seq![]
        } else {
            "["@ + b.id + "] "@ + b.text + "\n"@
        }
    }
}

/// What `cat` prints.
pub open spec fn cat_text(d: DocV) -> Seq<char> {
    trim_end("# "@ + d.title + "\n"@ + block_lines(d.blocks))
}

fn count_visible(blocks: &Vec<BlockView>) -> (n: usize)
    ensures
        n as nat == visible_count(blocks_view(blocks@)),
{
    let ghost bv = blocks_view(blocks@);
    let mut n: usize = 0;
    let len = blocks.len();
    for i in 0..len
        invariant
            len == blocks@.len(),
            bv == blocks_view(blocks@),
            n as nat == visible_count(bv.take(i as int)),
            n <= i,
    {
        proof {
            assert(bv.take(i + 1).drop_last() =~= bv.take(i as int));
            assert(bv.take(i + 1).last() == blocks@[i as int]@);
        }
        if !blocks[i].removed {
            n += 1;
        }
    }
    assert(bv.take(len as int) =~= bv);
    n
}

fn last_visible_block(blocks: &Vec<BlockView>) -> (r: Option<BlockId>)
    ensures
        match r {
            Some(b) => last_visible(blocks_view(blocks@)) == Some(b@),
            None => last_visible(blocks_view(blocks@)) is None,
        },
{
    let ghost bv = blocks_view(blocks@);
    let mut i = blocks.len();
    assert(bv.take(i as int) =~= bv);
    while i > 0
        invariant
            i <= blocks@.len(),
            bv == blocks_view(blocks@),
            last_visible(bv) == last_visible(bv.take(i as int)),
        decreases i,
    {
        proof {
            assert(bv.take(i as int).drop_last() =~= bv.take(i - 1));
            assert(bv.take(i as int).last() == blocks@[i - 1]@);
        }
        if !blocks[i - 1].removed {
            return Some(blocks[i - 1].id.clone());
        }
        i -= 1;
    }
    None
}

fn holds_block(blocks: &Vec<BlockView>, id: &BlockId) -> (b: bool)
    ensures
        b == (block_find(blocks_view(blocks@), id@) < blocks@.len()),
{
    let ghost bv = blocks_view(blocks@);
    let n = blocks.len();
    assert(bv.skip(0) =~= bv);
    for i in 0..n
        invariant
            n == blocks@.len(),
            bv == blocks_view(blocks@),
            block_find(bv, id@) == i + block_find(bv.skip(i as int), id@),
    {
        proof {
            let r = bv.skip(i as int);
            assert(r[0] == blocks@[i as int]@);
            assert(r.drop_first() =~= bv.skip(i + 1));
        }
        if str_eq(blocks[i].id.as_str(), id.as_str()) {
            return true;
        }
    }
    proof {
        assert(bv.skip(n as int) =~= Seq::<BlockV>::empty());
    }
    false
}

pub open spec fn entries_view(v: Seq<(DocumentId, DocumentState)>) -> Seq<(Seq<char>, DocV)> {
    v.map_values(|e: (DocumentId, DocumentState)| (e.0@, e.1@))
}

fn find_doc_of_block(docs: &Documents, block: &BlockId) -> (r: Option<DocumentId>)
    ensures
        match r {
            Some(d) => doc_of_block(docs@, block@) == Some(d@),
            None => doc_of_block(docs@, block@) is None,
        },
{
    let entries = docs.entries();
    let ghost ev = entries_view(entries@);
    let n = entries.len();
    assert(ev.skip(0) =~= ev);
    for i in 0..n
        invariant
            n == entries@.len(),
            ev == entries_view(entries@),
            ev == docs@,
            doc_of_block(docs@, block@) == doc_of_block(ev.skip(i as int), block@),
    {
        proof {
            let r = ev.skip(i as int);
            assert(r[0] == (entries@[i as int].0@, entries@[i as int].1@));
            assert(r.drop_first() =~= ev.skip(i + 1));
        }
        if holds_block(&entries[i].1.blocks, block) {
            return Some(entries[i].0.clone());
        }
    }
    proof {
        assert(ev.skip(n as int) =~= Seq::<(Seq<char>, DocV)>::empty());
    }
    None
}

/// What `ls` prints for these documents.
fn render_ls(docs: &Documents) -> (s: String)
    ensures
        s@ == ls_text(docs@),
{
    let entries = docs.entries();
    let ghost ev = entries_view(entries@);
    let n = entries.len();
    if n == 0 {
        return "(no notes yet — `ssn new <title>`)".to_owned();
    }
    let mut out = String::new();
    assert(ev.take(0) =~= Seq::<(Seq<char>, DocV)>::empty());
    for i in 0..n
        invariant
            n == entries@.len(),
            ev == entries_view(entries@),
            out@ == ls_lines(ev.take(i as int)),
    {
        proof {
            assert(ev.take(i + 1).drop_last() =~= ev.take(i as int));
            assert(ev.take(i + 1).last() == (entries@[i as int].0@, entries@[i as int].1@));
        }
        let d = &entries[i].1;
        let k = count_visible(&d.blocks);
        out.append(entries[i].0.as_str());
        out.append("  ");
        out.append(d.title.as_str());
        out.append("  (");
        out.append(decimal_string(k as u64).as_str());
        if k == 1 {
            out.append(" block)\n");
        } else {
            out.append(" blocks)\n");
        }
    }
    assert(ev.take(n as int) =~= ev);
    trimmed_end(out.as_str()).to_owned()
}

/// What `cat` prints for this document.
fn render_cat(d: &DocumentState) -> (s: String)
    ensures
        s@ == cat_text(d@),
{
    let ghost bv = blocks_view(d.blocks@);
    let mut out = "# ".to_owned();
    out.append(d.title.as_str());
    out.append("\n");
    let ghost head = out@;
    let n = d.blocks.len();
    assert(bv.take(0) =~= Seq::<BlockV>::empty());
    for i in 0..n
        invariant
            n == d.blocks@.len(),
            bv == blocks_view(d.blocks@),
            out@ == head + block_lines(bv.take(i as int)),
    {
        proof {
            assert(bv.take(i + 1).drop_last() =~= bv.take(i as int));
            assert(bv.take(i + 1).last() == d.blocks@[i as int]@);
        }
        let b = &d.blocks[i];
        if !b.removed {
            out.append("[");
            out.append(b.id.as_str());
            out.append("] ");
            out.append(b.text.as_str());
            out.append("\n");
        }
    }
    assert(bv.take(n as int) =~= bv);
    trimmed_end(out.as_str()).to_owned()
}

// ---------------------------------------------------------------------------
// What a command does to the op log.

/// The envelope a command commits: authored by `device` at `now`, naming the
/// last op of `ops` (if any) as its parent.
pub open spec fn next_op(ops: Seq<EnvelopeView>, device: Seq<char>, now: i64, payload: PayloadView) -> EnvelopeView {
    let core = CoreView {
        v: ENVELOPE_VERSION,
        actor: device,
        parents: if ops.len() > 0 { seq![ops.last().id] } else { seq![] },
        authored_ms: now,
        payload,
    };
    EnvelopeView { id: content_id_of(core), core }
}

/// The ops after committing `e` (unchanged when its id is already there);
/// `None` when the store refuses it as too large to seal.
pub open spec fn committed(ops: Seq<EnvelopeView>, e: EnvelopeView) -> Option<Seq<EnvelopeView>> {
    if has_id(ops, e.id) {
        Some(ops)
    } else if fits_seal(e) {
        Some(ops.push(e))
    } else {
        None
    }
}

/// The ops once the default workspace exists.
pub open spec fn with_workspace(ops: Seq<EnvelopeView>, device: Seq<char>, now: i64) -> Option<Seq<EnvelopeView>> {
    let names = projection(ops).names;
    if key_find(names, "default"@) < names.len() {
        Some(ops)
    } else {
        committed(ops, next_op(ops, device, now, PayloadView::CreateWorkspace { workspace: "default"@, name: "Default"@ }))
    }
}

/// How a store command ends.
pub enum Outcome {
    /// It prints the text, and the store holds these ops after.
    Done(Seq<char>, Seq<EnvelopeView>),
    /// It is refused with this message, and the store is left as it was.
    Refused(Seq<char>),
    /// The store refused a commit (an envelope too large to seal).
    Failed,
}

#[verifier::opaque]
pub open spec fn init_outcome(data_dir: Seq<char>, device: Seq<char>, ops: Seq<EnvelopeView>, now: i64) -> Outcome {
    match with_workspace(ops, device, now) {
        Some(o1) => Outcome::Done("initialized encrypted store at "@ + data_dir, o1),
        None => Outcome::Failed,
    }
}

#[verifier::opaque]
pub open spec fn new_outcome(title: Seq<char>, device: Seq<char>, ops: Seq<EnvelopeView>, now: i64, fresh: Seq<char>) -> Outcome {
    match with_workspace(ops, device, now) {
        Some(o1) => match committed(
            o1,
            next_op(o1, device, now, PayloadView::CreateDocument { workspace: "default"@, document: fresh, title }),
        ) {
            Some(o2) => Outcome::Done(fresh, o2),
            None => Outcome::Failed,
        },
        None => Outcome::Failed,
    }
}

#[verifier::opaque]
pub open spec fn add_outcome(
    doc: Seq<char>,
    text: Seq<char>,
    device: Seq<char>,
    ops: Seq<EnvelopeView>,
    now: i64,
    fresh: Seq<char>,
) -> Outcome {
    let docs = projection(ops).documents;
    let j = key_find(docs, doc);
    if j < docs.len() {
        let after = last_visible(docs[j].1.blocks);
        match committed(
            ops,
            next_op(ops, device, now, PayloadView::InsertBlock { document: doc, block: fresh, after, text }),
        ) {
            Some(o2) => Outcome::Done(fresh, o2),
            None => Outcome::Failed,
        }
    } else {
        Outcome::Refused("no such note: "@ + doc)
    }
}

#[verifier::opaque]
pub open spec fn edit_outcome(block: Seq<char>, text: Seq<char>, device: Seq<char>, ops: Seq<EnvelopeView>, now: i64) -> Outcome {
    match doc_of_block(projection(ops).documents, block) {
        Some(doc) => match committed(
            ops,
            next_op(ops, device, now, PayloadView::EditBlock { document: doc, block, text }),
        ) {
            Some(o2) => Outcome::Done("edited "@ + block, o2),
            None => Outcome::Failed,
        },
        None => Outcome::Refused("no such block: "@ + block),
    }
}

#[verifier::opaque]
pub open spec fn rm_outcome(block: Seq<char>, device: Seq<char>, ops: Seq<EnvelopeView>, now: i64) -> Outcome {
    match doc_of_block(projection(ops).documents, block) {
        Some(doc) => match committed(ops, next_op(ops, device, now, PayloadView::RemoveBlock { document: doc, block })) {
            Some(o2) => Outcome::Done("removed "@ + block, o2),
            None => Outcome::Failed,
        },
        None => Outcome::Refused("no such block: "@ + block),
    }
}

#[verifier::opaque]
pub open spec fn cat_outcome(doc: Seq<char>, ops: Seq<EnvelopeView>) -> Outcome {
    let docs = projection(ops).documents;
    let j = key_find(docs, doc);
    if j < docs.len() {
        Outcome::Done(cat_text(docs[j].1), ops)
    } else {
        Outcome::Refused("no such note: "@ + doc)
    }
}

/// What a store command does, run by `device` at `now` over a store holding
/// `ops`; `fresh` is the id it makes for a new note or block.
pub open spec fn outcome(
    cmd: CommandView,
    data_dir: Seq<char>,
    device: Seq<char>,
    ops: Seq<EnvelopeView>,
    now: i64,
    fresh: Seq<char>,
) -> Outcome {
    match cmd {
        CommandView::Init => init_outcome(data_dir, device, ops, now),
        CommandView::New(title) => new_outcome(title, device, ops, now, fresh),
        CommandView::Add(doc, text) => add_outcome(doc, text, device, ops, now, fresh),
        CommandView::Edit(block, text) => edit_outcome(block, text, device, ops, now),
        CommandView::Rm(block) => rm_outcome(block, device, ops, now),
        CommandView::Ls => Outcome::Done(ls_text(projection(ops).documents), ops),
        CommandView::Cat(doc) => cat_outcome(doc, ops),
        CommandView::Help => Outcome::Done(USAGE@, ops),
    }
}

/// The id a command makes is fresh: `doc-` for `new`, `blk-` for `add`.
pub open spec fn fresh_for(cmd: CommandView, x: Seq<char>) -> bool {
    match cmd {
        CommandView::New(_) => is_fresh_id(x, "doc-"@),
        CommandView::Add(_, _) => is_fresh_id(x, "blk-"@),
        _ => true,
    }
}

/// The store after a command, against the store before it.
pub open spec fn settled(o: Outcome, before: StoreView, after: StoreView, r: Result<Seq<char>, Seq<char>>) -> bool {
    &&& after.wf()
    &&& after.key == before.key
    &&& after.ack_log == before.ack_log
    &&& before.op_log.len() <= after.op_log.len()
    &&& after.op_log.take(before.op_log.len() as int) == before.op_log
    &&& match o {
        Outcome::Done(out, ops) => r == Ok::<Seq<char>, Seq<char>>(out) && after.ops == ops,
        Outcome::Refused(m) => r == Err::<Seq<char>, Seq<char>>(m) && after == before,
        Outcome::Failed => r == Err::<Seq<char>, Seq<char>>("store corruption: "@ + "envelope too large to seal"@),
    }
}

pub open spec fn res_view(r: Result<String, String>) -> Result<Seq<char>, Seq<char>> {
    match r {
        Ok(s) => Ok(s@),
        Err(m) => Err(m@),
    }
}

/// Commit an operation authored by `device` at `now`, after the store's last op.
fn commit_op(store: &mut LocalStore, device: &DeviceId, now: i64, payload: Payload) -> (r: Result<(), String>)
    requires
        old(store)@.wf(),
    ensures
        settled(
            match committed(old(store)@.ops, next_op(old(store)@.ops, device@, now, payload@)) {
                Some(o) => Outcome::Done(seq![], o),
                None => Outcome::Failed,
            },
            old(store)@,
            final(store)@,
            match r {
                Ok(_) => Ok(seq![]),
                Err(m) => Err(m@),
            },
        ),
{
    let ops = store.ops();
    let parents: Vec<OpId> = if ops.len() > 0 {
        let mut v: Vec<OpId> = Vec::new();
        v.push(ops[ops.len() - 1].id.clone());
        v
    } else {
        Vec::new()
    };
    let ghost pv = payload@;
    let core = EnvelopeCore { v: ENVELOPE_VERSION, actor: device.clone(), parents, authored_ms: now, payload };
    let env = OperationEnvelope::seal(core);
    proof {
        let o = old(store)@.ops;
        assert(crate::envelope::ids_view(parents@) =~= (if o.len() > 0 { seq![o.last().id] } else { Seq::<Seq<char>>::empty() }));
        assert(env@ == next_op(o, device@, now, pv));
    }
    let ghost before = store@;
    let c = store.commit(&env);
    proof {
        assert(store@.op_log.take(before.op_log.len() as int) =~= before.op_log);
    }
    match c {
        Ok(_) => Ok(()),
        Err(e) => Err(e.message()),
    }
}

proof fn lemma_settled_chain(o1: Seq<EnvelopeView>, o: Outcome, s0: StoreView, s1: StoreView, s2: StoreView, r: Result<Seq<char>, Seq<char>>)
    requires
        settled(Outcome::Done(seq![], o1), s0, s1, Ok(seq![])),
        settled(o, s1, s2, r),
        !(o is Refused),
    ensures
        settled(o, s0, s2, r),
{
    assert(s2.op_log.take(s0.op_log.len() as int) =~= s2.op_log.take(s1.op_log.len() as int).take(s0.op_log.len() as int));
}

/// Make the default workspace if the store has none.
fn ensure_ws(store: &mut LocalStore, device: &DeviceId, now: i64) -> (r: Result<(), String>)
    requires
        old(store)@.wf(),
    ensures
        settled(
            match with_workspace(old(store)@.ops, device@, now) {
                Some(o) => Outcome::Done(seq![], o),
                None => Outcome::Failed,
            },
            old(store)@,
            final(store)@,
            match r {
                Ok(_) => Ok(seq![]),
                Err(m) => Err(m@),
            },
        ),
{
    let ws = WorkspaceId::new("default");
    let state = replay(store.ops());
    if state.names.contains_key(&ws) {
        assert(store@.op_log.take(store@.op_log.len() as int) =~= store@.op_log);
        return Ok(());
    }
    commit_op(store, device, now, Payload::CreateWorkspace { workspace: ws, name: "Default".to_owned() })
}

fn cmd_init(store: &mut LocalStore, device: &DeviceId, now: i64, data_dir: &str) -> (r: Result<String, String>)
    requires
        old(store)@.wf(),
    ensures
        settled(init_outcome(data_dir@, device@, old(store)@.ops, now), old(store)@, final(store)@, res_view(r)),
{
    reveal(init_outcome);
    match ensure_ws(store, device, now) {
        Ok(()) => {
            let mut m = "initialized encrypted store at ".to_owned();
            m.append(data_dir);
            Ok(m)
        },
        Err(e) => Err(e),
    }
}

fn cmd_new(store: &mut LocalStore, device: &DeviceId, now: i64, title: String) -> (r: Result<String, String>)
    requires
        old(store)@.wf(),
    ensures
        exists|x: Seq<char>| #[trigger] is_fresh_id(x, "doc-"@)
            && settled(new_outcome(title@, device@, old(store)@.ops, now, x), old(store)@, final(store)@, res_view(r)),
{
    reveal(new_outcome);
    let ghost s0 = store@;
    let doc = gen_id("doc-");
    let ghost x = doc@;
    match ensure_ws(store, device, now) {
        Ok(()) => {},
        Err(e) => {
            assert(is_fresh_id(x, "doc-"@));
            return Err(e);
        },
    }
    let ghost s1 = store@;
    let ghost title_v = title@;
    let c = commit_op(
        store,
        device,
        now,
        Payload::CreateDocument { workspace: WorkspaceId::new("default"), document: DocumentId::new(doc.as_str()), title },
    );
    let ghost o1 = s1.ops;
    let ghost step = match committed(o1, next_op(o1, device@, now, PayloadView::CreateDocument { workspace: "default"@, document: x, title: title_v })) {
        Some(o) => Outcome::Done(seq![], o),
        None => Outcome::Failed,
    };
    let ghost cv = match &c {
        Ok(_) => Ok::<Seq<char>, Seq<char>>(seq![]),
        Err(m) => Err(m@),
    };
    let r = match c {
        Ok(()) => Ok(doc),
        Err(e) => Err(e),
    };
    proof {
        let o = new_outcome(title_v, device@, s0.ops, now, x);
        assert(settled(step, s1, store@, cv));
        assert(settled(o, s1, store@, res_view(r)));
        lemma_settled_chain(o1, o, s0, s1, store@, res_view(r));
        assert(is_fresh_id(x, "doc-"@));
    }
    r
}

fn cmd_add(store: &mut LocalStore, device: &DeviceId, now: i64, doc: String, text: String) -> (r: Result<String, String>)
    requires
        old(store)@.wf(),
    ensures
        exists|x: Seq<char>| #[trigger] is_fresh_id(x, "blk-"@)
            && settled(add_outcome(doc@, text@, device@, old(store)@.ops, now, x), old(store)@, final(store)@, res_view(r)),
{
    reveal(add_outcome);
    let ghost s0 = store@;
    let state = replay(store.ops());
    let docid = DocumentId::new(doc.as_str());
    let block = gen_id("blk-");
    let ghost x = block@;
    let ghost docs = projection(s0.ops).documents;
    match state.documents.get(&docid) {
        None => {
            let mut m = "no such note: ".to_owned();
            m.append(doc.as_str());
            assert(is_fresh_id(x, "blk-"@));
            assert(s0.op_log.take(s0.op_log.len() as int) =~= s0.op_log);
            Err(m)
        },
        Some(d) => {
            let after = last_visible_block(&d.blocks);
            let ghost after_v = match &after { Some(b) => Some(b@), None => None::<Seq<char>> };
            assert(after_v == last_visible(docs[key_find(docs, doc@)].1.blocks));
            let ghost text_v = text@;
            let ghost cv_ok = Ok::<Seq<char>, Seq<char>>(seq![]);
            let c = commit_op(
                store,
                device,
                now,
                Payload::InsertBlock { document: docid, block: BlockId::new(block.as_str()), after, text },
            );
            let ghost cv = match &c {
                Ok(_) => cv_ok,
                Err(m) => Err(m@),
            };
            let r = match c {
                Ok(()) => Ok(block),
                Err(e) => Err(e),
            };
            assert(is_fresh_id(x, "blk-"@));
            r
        },
    }
}

/// The message for a block that no note holds.
fn no_block(block: &str) -> (m: String)
    ensures
        m@ == "no such block: "@ + block@,
{
    let mut m = "no such block: ".to_owned();
    m.append(block);
    m
}

fn cmd_edit(store: &mut LocalStore, device: &DeviceId, now: i64, block: String, text: String) -> (r: Result<String, String>)
    requires
        old(store)@.wf(),
    ensures
        settled(edit_outcome(block@, text@, device@, old(store)@.ops, now), old(store)@, final(store)@, res_view(r)),
{
    reveal(edit_outcome);
    let ghost s0 = store@;
    let state = replay(store.ops());
    let blockid = BlockId::new(block.as_str());
    match find_doc_of_block(&state.documents, &blockid) {
        None => {
            assert(s0.op_log.take(s0.op_log.len() as int) =~= s0.op_log);
            Err(no_block(block.as_str()))
        },
        Some(doc) => {
            let c = commit_op(store, device, now, Payload::EditBlock { document: doc, block: blockid, text });
            match c {
                Ok(()) => {
                    let mut m = "edited ".to_owned();
                    m.append(block.as_str());
                    Ok(m)
                },
                Err(e) => Err(e),
            }
        },
    }
}

fn cmd_rm(store: &mut LocalStore, device: &DeviceId, now: i64, block: String) -> (r: Result<String, String>)
    requires
        old(store)@.wf(),
    ensures
        settled(rm_outcome(block@, device@, old(store)@.ops, now), old(store)@, final(store)@, res_view(r)),
{
    reveal(rm_outcome);
    let ghost s0 = store@;
    let state = replay(store.ops());
    let blockid = BlockId::new(block.as_str());
    match find_doc_of_block(&state.documents, &blockid) {
        None => {
            assert(s0.op_log.take(s0.op_log.len() as int) =~= s0.op_log);
            Err(no_block(block.as_str()))
        },
        Some(doc) => {
            let c = commit_op(store, device, now, Payload::RemoveBlock { document: doc, block: blockid });
            match c {
                Ok(()) => {
                    let mut m = "removed ".to_owned();
                    m.append(block.as_str());
                    Ok(m)
                },
                Err(e) => Err(e),
            }
        },
    }
}

fn cmd_ls(store: &LocalStore) -> (r: String)
    ensures
        r@ == ls_text(projection(store@.ops).documents),
{
    let state = replay(store.ops());
    render_ls(&state.documents)
}

fn cmd_cat(store: &LocalStore, doc: &str) -> (r: Result<String, String>)
    requires
        store@.wf(),
    ensures
        settled(cat_outcome(doc@, store@.ops), store@, store@, res_view(r)),
{
    reveal(cat_outcome);
    let state = replay(store.ops());
    assert(store@.op_log.take(store@.op_log.len() as int) =~= store@.op_log);
    match state.documents.get(&DocumentId::new(doc)) {
        Some(d) => Ok(render_cat(d)),
        None => {
            let mut m = "no such note: ".to_owned();
            m.append(doc);
            Err(m)
        },
    }
}

// ---------------------------------------------------------------------------
// The home directory.

/// A device file is made when missing, holding a fresh `dev-` id.
pub open spec fn device_made(old: Option<Seq<char>>, new: Option<Seq<char>>) -> bool {
    match old {
        Some(_) => new == old,
        None => new matches Some(d) && is_fresh_id(d, "dev-"@),
    }
}

/// The device id: the device file's text trimmed, or the fresh id.
pub open spec fn device_text(old: Option<Seq<char>>, new: Option<Seq<char>>) -> Seq<char> {
    match old {
        Some(t) => trim(t),
        None => match new {
            Some(d) => d,
            None => seq![],
        },
    }
}

/// A key file is made when missing, holding the hex of 32 fresh bytes.
pub open spec fn key_made(old: Option<Seq<char>>, new: Option<Seq<char>>) -> bool {
    match old {
        Some(_) => new == old,
        None => exists|k: Seq<u8>| k.len() == 32 && new == Some(hex_text(k)),
    }
}

/// The device id, making the device file when it is missing.
fn device_id(home: &mut Home) -> (d: DeviceId)
    ensures
        final(home)@ == (HomeView { device: final(home)@.device, ..old(home)@ }),
        device_made(old(home)@.device, final(home)@.device),
        d@ == device_text(old(home)@.device, final(home)@.device),
{
    match &home.device {
        Some(t) => DeviceId::new(trimmed(t.as_str())),
        None => {
            let id = gen_id("dev-");
            let d = DeviceId::new(id.as_str());
            home.device = Some(id);
            d
        },
    }
}

proof fn lemma_key_text(k: Seq<u8>)
    requires
        k.len() == 32,
    ensures
        key_bytes(hex_text(k)) == Some(k),
{
    lemma_hex_trimmed(k);
    lemma_hex_roundtrip(k);
    assert(hex_text(k).len() == 2 * k.len());
}

/// The store key, making the key file when it is missing.
fn load_key(home: &mut Home) -> (r: Result<SymKey, String>)
    ensures
        final(home)@ == (HomeView { key: final(home)@.key, ..old(home)@ }),
        key_made(old(home)@.key, final(home)@.key),
        final(home)@.key is Some,
        match r {
            Ok(k) => key_bytes(final(home)@.key->Some_0) == Some(k@),
            Err(m) => key_bytes(final(home)@.key->Some_0) is None && m@ == "corrupt store.key"@,
        },
{
    match &home.key {
        Some(t) => match from_hex32(trimmed(t.as_str())) {
            Some(bytes) => Ok(SymKey::from_bytes(bytes)),
            None => Err("corrupt store.key".to_owned()),
        },
        None => {
            let key = SymKey::generate();
            let bytes = key.as_bytes();
            let text = to_hex(&bytes);
            proof {
                lemma_key_text(bytes@);
            }
            home.key = Some(text);
            Ok(key)
        },
    }
}

/// Open the store over the home's logs, making the key file when it is
/// missing.
fn open_store(home: &mut Home) -> (r: Result<LocalStore, String>)
    ensures
        final(home)@ == (HomeView { key: final(home)@.key, ..old(home)@ }),
        key_made(old(home)@.key, final(home)@.key),
        final(home)@.key is Some,
        match key_bytes(final(home)@.key->Some_0) {
            None => r matches Err(m) && m@ == "corrupt store.key"@,
            Some(k) => match load_ops(k, old(home)@.op_lines, old(home)@.op_lines.len() as int) {
                Err(i) => r matches Err(m) && m@ == "store corruption: "@ + corruption_text(k, old(home)@.op_lines, i),
                Ok(ops) => r matches Ok(s) && {
                    &&& s@.wf()
                    &&& s@.key == k
                    &&& s@.ops == ops
                    &&& s@.op_log == kept_lines(k, old(home)@.op_lines)
                },
            },
        },
{
    let key = match load_key(home) {
        Ok(k) => k,
        Err(m) => return Err(m),
    };
    let ops = copy_lines(&home.op_lines);
    let acks = copy_lines(&home.ack_lines);
    match LocalStore::open(key, ops, acks) {
        Ok(s) => Ok(s),
        Err(e) => Err(e.message()),
    }
}

fn copy_lines(v: &[String]) -> (r: Vec<String>)
    ensures
        r@ == v@,
{
    let mut r: Vec<String> = Vec::new();
    let n = v.len();
    for i in 0..n
        invariant
            n == v@.len(),
            r@ == v@.take(i as int),
    {
        r.push(v[i].clone());
        assert(r@ =~= v@.take(i + 1));
    }
    assert(v@.take(n as int) =~= v@);
    r
}

pub open spec fn uses_device(cmd: CommandView) -> bool {
    cmd is Init || cmd is New || cmd is Add || cmd is Edit || cmd is Rm
}

/// What `run` does: with the arguments `args` over the home `old`, the
/// clock reading `now`, it answers `r` and leaves the home as `new`.
pub open spec fn ran(
    args: Seq<Seq<char>>,
    old: HomeView,
    new: HomeView,
    now: i64,
    r: Result<Seq<char>, Seq<char>>,
) -> bool {
    match parse_command(args) {
        Err(m) => r == Err::<Seq<char>, Seq<char>>(m) && new == old,
        Ok(cmd) => if cmd is Help {
            r == Ok::<Seq<char>, Seq<char>>(USAGE@) && new == old
        } else {
            &&& new.data_dir == old.data_dir
            &&& new.ack_lines == old.ack_lines
            &&& (if uses_device(cmd) { device_made(old.device, new.device) } else { new.device == old.device })
            &&& key_made(old.key, new.key)
            &&& new.key is Some
            &&& match key_bytes(new.key->Some_0) {
                None => r == Err::<Seq<char>, Seq<char>>("corrupt store.key"@) && new.op_lines == old.op_lines,
                Some(k) => match load_ops(k, old.op_lines, old.op_lines.len() as int) {
                    Err(i) => r == Err::<Seq<char>, Seq<char>>("store corruption: "@ + corruption_text(k, old.op_lines, i))
                        && new.op_lines == old.op_lines,
                    Ok(ops) => {
                        let kept = kept_lines(k, old.op_lines);
                        &&& kept.len() <= new.op_lines.len()
                        &&& new.op_lines.take(kept.len() as int) == kept
                        &&& !torn_tail(k, new.op_lines)
                        &&& load_ops(k, new.op_lines, new.op_lines.len() as int) is Ok
                        &&& exists|x: Seq<char>| #[trigger] fresh_for(cmd, x) && match outcome(
                            cmd,
                            old.data_dir,
                            device_text(old.device, new.device),
                            ops,
                            now,
                            x,
                        ) {
                            Outcome::Done(out, o2) => r == Ok::<Seq<char>, Seq<char>>(out)
                                && load_ops(k, new.op_lines, new.op_lines.len() as int) == Ok::<Seq<EnvelopeView>, int>(o2),
                            Outcome::Refused(m) => r == Err::<Seq<char>, Seq<char>>(m) && new.op_lines == kept,
                            Outcome::Failed => r == Err::<Seq<char>, Seq<char>>("store corruption: "@ + "envelope too large to seal"@),
                        }
                    },
                },
            }
        },
    }
}

/// Run a store command over an open store.
fn execute(cmd: Command, store: &mut LocalStore, device: Option<DeviceId>, data_dir: &str, now: i64) -> (r: Result<String, String>)
    requires
        old(store)@.wf(),
        !(cmd@ is Help),
        uses_device(cmd@) <==> device is Some,
    ensures
        exists|x: Seq<char>| #[trigger] fresh_for(cmd@, x) && settled(
            outcome(cmd@, data_dir@, match device { Some(d) => d@, None => seq![] }, old(store)@.ops, now, x),
            old(store)@,
            final(store)@,
            res_view(r),
        ),
{
    let ghost s0 = store@;
    let ghost c = cmd@;
    match (cmd, device) {
        (Command::Init, Some(d)) => {
            let r = cmd_init(store, &d, now, data_dir);
            assert(fresh_for(c, seq![]));
            r
        },
        (Command::New(title), Some(d)) => {
            let ghost tv = title@;
            let r = cmd_new(store, &d, now, title);
            proof {
                let x = choose|x: Seq<char>| #[trigger] is_fresh_id(x, "doc-"@)
                    && settled(new_outcome(tv, d@, s0.ops, now, x), s0, store@, res_view(r));
                assert(fresh_for(c, x));
            }
            r
        },
        (Command::Add(doc, text), Some(d)) => {
            let ghost dv = doc@;
            let ghost tv = text@;
            let r = cmd_add(store, &d, now, doc, text);
            proof {
                let x = choose|x: Seq<char>| #[trigger] is_fresh_id(x, "blk-"@)
                    && settled(add_outcome(dv, tv, d@, s0.ops, now, x), s0, store@, res_view(r));
                assert(fresh_for(c, x));
            }
            r
        },
        (Command::Edit(block, text), Some(d)) => {
            let r = cmd_edit(store, &d, now, block, text);
            assert(fresh_for(c, seq![]));
            r
        },
        (Command::Rm(block), Some(d)) => {
            let r = cmd_rm(store, &d, now, block);
            assert(fresh_for(c, seq![]));
            r
        },
        (Command::Ls, None) => {
            let out = cmd_ls(store);
            assert(s0.op_log.take(s0.op_log.len() as int) =~= s0.op_log);
            assert(fresh_for(c, seq![]));
            Ok(out)
        },
        (Command::Cat(doc), None) => {
            let r = cmd_cat(store, doc.as_str());
            assert(fresh_for(c, seq![]));
            r
        },
        (_, _) => {
            assert(false);
            Err(String::new())
        },
    }
}

/// Dispatch one command line over the home directory's files, at the clock
/// reading `now_ms`. Returns the text to print, or an error message.
pub fn run(args: &[String], home: &mut Home, now_ms: i64) -> (r: Result<String, String>)
    ensures
        ran(lines_of(args@), old(home)@, final(home)@, now_ms, res_view(r)),
{
    let cmd = match parse_args(args) {
        Ok(c) => c,
        Err(m) => return Err(m),
    };
    if let Command::Help = cmd {
        return Ok(usage());
    }
    let ghost h0 = home@;
    let writes = match &cmd {
        Command::Ls | Command::Cat(_) => false,
        _ => true,
    };
    let device = if writes { Some(device_id(home)) } else { None };
    let ghost h1 = home@;
    let mut store = match open_store(home) {
        Ok(s) => s,
        Err(m) => return Err(m),
    };
    let ghost s0 = store@;
    let r = execute(cmd, &mut store, device, home.data_dir.as_str(), now_ms);
    home.op_lines = copy_lines(store.op_log_lines());
    r
}

/// The operation that makes the default workspace.
pub open spec fn workspace_op(ops: Seq<EnvelopeView>, device: Seq<char>, now: i64) -> EnvelopeView {
    next_op(ops, device, now, PayloadView::CreateWorkspace { workspace: "default"@, name: "Default"@ })
}

/// `init` leaves the default workspace named, and commits nothing when it
/// was named already (given that ids name one operation each, as the
/// content ids of intact operations do).
pub proof fn law_init_names_default(ops: Seq<EnvelopeView>, device: Seq<char>, now: i64)
    requires
        unique_ids(ops.push(workspace_op(ops, device, now))),
        with_workspace(ops, device, now) is Some,
    ensures
        key_find(projection(with_workspace(ops, device, now)->Some_0).names, "default"@)
            < projection(with_workspace(ops, device, now)->Some_0).names.len(),
        key_find(projection(ops).names, "default"@) < projection(ops).names.len()
            ==> with_workspace(ops, device, now) == Some(ops),
{
    let e = workspace_op(ops, device, now);
    let all = ops.push(e);
    if key_find(projection(ops).names, "default"@) >= projection(ops).names.len() {
        if has_id(ops, e.id) {
            let j = choose|j: int| 0 <= j < ops.len() && ops[j].id == e.id;
            assert(all[j] == ops[j] && all[ops.len() as int] == e);
            assert(ops[j] == e);
            assert(unique_ids(ops)) by {
                assert forall|a: int, b: int| 0 <= a < ops.len() && 0 <= b < ops.len() && ops[a].id == ops[b].id
                    implies ops[a] == ops[b] by {
                    assert(all[a] == ops[a] && all[b] == ops[b]);
                }
            }
            assert(ops.contains(e));
            lemma_projection_names(ops, e, "default"@, "Default"@);
        } else {
            assert(all.contains(e)) by {
                assert(all[ops.len() as int] == e);
            }
            lemma_projection_names(all, e, "default"@, "Default"@);
        }
    }
}

/// The anchor a new block is added after is the last block that is not
/// removed: its id is that of a visible block with only removed blocks after
/// it; there is none exactly when every block is removed.
pub proof fn law_last_visible_is_last_live_block(blocks: Seq<BlockV>)
    ensures
        match last_visible(blocks) {
            Some(id) => exists|k: int|
                0 <= k < blocks.len() && !blocks[k].removed && blocks[k].id == id
                    && forall|m: int| k < m < blocks.len() ==> (#[trigger] blocks[m]).removed,
            None => forall|m: int| 0 <= m < blocks.len() ==> (#[trigger] blocks[m]).removed,
        },
    decreases blocks.len(),
{
    if blocks.len() > 0 {
        let n = blocks.len() - 1;
        if blocks.last().removed {
            let init = blocks.drop_last();
            law_last_visible_is_last_live_block(init);
            match last_visible(init) {
                Some(id) => {
                    let k = choose|k: int|
                        0 <= k < init.len() && !init[k].removed && init[k].id == id
                            && forall|m: int| k < m < init.len() ==> (#[trigger] init[m]).removed;
                    assert(blocks[k] == init[k]);
                    assert forall|m: int| k < m < blocks.len() implies (#[trigger] blocks[m]).removed by {
                        if m < n {
                            assert(blocks[m] == init[m]);
                        }
                    }
                },
                None => {
                    assert forall|m: int| 0 <= m < blocks.len() implies (#[trigger] blocks[m]).removed by {
                        if m < n {
                            assert(blocks[m] == init[m]);
                        }
                    }
                },
            }
        } else {
            assert(!blocks[n].removed && blocks[n].id == blocks.last().id);
        }
    }
}

} // verus!
