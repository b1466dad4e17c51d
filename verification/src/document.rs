//! Deterministic replay of an operation log into projected document state.
//!
//! The op log is canonical; this projection is rebuilt from it. Replay first
//! puts the operations into their replay order (see `causal`): the result
//! depends only on the set of operations, never on the order they arrived in.
//! Blocks are inserted after their anchor (at the head for none, at the end
//! when the anchor is missing); an edit replaces the values it causally
//! observed and keeps concurrent ones as conflicts; a removal tombstones.

use vstd::prelude::*;
use crate::causal::{
    first_ready_from,
    ancestry, anc_row, canonical, canonical_positions, causal_order, causal_positions,
    lemma_canonical_set, lemma_slot_at, observed, unique_ids, observed_exec, pick, replay_order, slot, views,
};
use crate::envelope::{ids_view, EnvelopeView, OperationEnvelope, Payload, PayloadView};
use crate::id::{BlockId, DocumentId, OpId, WorkspaceId};
use crate::order::{key_lt, str_eq, str_less};

verus! {

/// One block of a document.
#[derive(PartialEq, Eq, Debug)]
pub struct BlockView {
    pub id: BlockId,
    /// The current text: the value of the last head.
    pub text: String,
    /// Tombstoned: hidden from the projection but retained in history.
    pub removed: bool,
    /// Values of concurrent edits that no later edit observed, oldest first.
    pub conflicts: Vec<String>,
    /// The operations whose values are current: those of `conflicts`, then
    /// the one of `text`.
    pub heads: Vec<OpId>,
}

#[derive(PartialEq, Eq, Debug)]
pub struct DocumentState {
    pub title: String,
    pub blocks: Vec<BlockView>,
}

/// Workspace names, by workspace id, in id order.
#[derive(PartialEq, Eq, Debug)]
pub struct Names {
    entries: Vec<(WorkspaceId, String)>,
}

/// Documents, by document id, in id order.
#[derive(PartialEq, Eq, Debug)]
pub struct Documents {
    entries: Vec<(DocumentId, DocumentState)>,
}

#[derive(PartialEq, Eq, Debug)]
pub struct WorkspaceState {
    pub names: Names,
    pub documents: Documents,
}

pub struct BlockV {
    pub id: Seq<char>,
    pub text: Seq<char>,
    pub removed: bool,
    pub conflicts: Seq<Seq<char>>,
    pub heads: Seq<Seq<char>>,
}

pub struct DocV {
    pub title: Seq<char>,
    pub blocks: Seq<BlockV>,
}

pub struct WsV {
    pub names: Seq<(Seq<char>, Seq<char>)>,
    pub documents: Seq<(Seq<char>, DocV)>,
}

pub open spec fn texts_view(s: Seq<String>) -> Seq<Seq<char>> {
    s.map_values(|t: String| t@)
}

impl View for BlockView {
    type V = BlockV;

    open spec fn view(&self) -> BlockV {
        BlockV {
            id: self.id@,
            text: self.text@,
            removed: self.removed,
            conflicts: texts_view(self.conflicts@),
            heads: ids_view(self.heads@),
        }
    }
}

pub open spec fn blocks_view(s: Seq<BlockView>) -> Seq<BlockV> {
    s.map_values(|b: BlockView| b@)
}

impl View for DocumentState {
    type V = DocV;

    open spec fn view(&self) -> DocV {
        DocV { title: self.title@, blocks: blocks_view(self.blocks@) }
    }
}

impl View for Names {
    type V = Seq<(Seq<char>, Seq<char>)>;

    closed spec fn view(&self) -> Seq<(Seq<char>, Seq<char>)> {
        self.entries@.map_values(|e: (WorkspaceId, String)| (e.0@, e.1@))
    }
}

impl View for Documents {
    type V = Seq<(Seq<char>, DocV)>;

    closed spec fn view(&self) -> Seq<(Seq<char>, DocV)> {
        self.entries@.map_values(|e: (DocumentId, DocumentState)| (e.0@, e.1@))
    }
}

impl View for WorkspaceState {
    type V = WsV;

    open spec fn view(&self) -> WsV {
        WsV { names: self.names@, documents: self.documents@ }
    }
}

// ---------------------------------------------------------------------------
// The projection as a function of the replay order.

pub open spec fn keys_of<V>(m: Seq<(Seq<char>, V)>) -> Seq<Seq<char>> {
    m.map_values(|e: (Seq<char>, V)| e.0)
}

/// First position of key `k`, or `m.len()`.
pub open spec fn key_find<V>(m: Seq<(Seq<char>, V)>, k: Seq<char>) -> int
    decreases m.len(),
{
    if m.len() == 0 {
        0
    } else if m[0].0 == k {
        0
    } else {
        1 + key_find(m.drop_first(), k)
    }
}

/// Set `k` to `v`: replace an existing entry, or insert in key order.
pub open spec fn map_set<V>(m: Seq<(Seq<char>, V)>, k: Seq<char>, v: V) -> Seq<(Seq<char>, V)> {
    let f = key_find(m, k);
    if f < m.len() {
        m.update(f, (k, v))
    } else {
        m.insert(slot(keys_of(m), k), (k, v))
    }
}

pub open spec fn empty_doc() -> DocV {
    DocV { title: Seq::empty(), blocks: Seq::empty() }
}

/// The documents with an entry for `k` (an empty document if there was none).
pub open spec fn doc_touch(m: Seq<(Seq<char>, DocV)>, k: Seq<char>) -> Seq<(Seq<char>, DocV)> {
    if key_find(m, k) < m.len() {
        m
    } else {
        m.insert(slot(keys_of(m), k), (k, empty_doc()))
    }
}

/// First block with id `id`, or `blocks.len()`.
pub open spec fn block_find(blocks: Seq<BlockV>, id: Seq<char>) -> int
    decreases blocks.len(),
{
    if blocks.len() == 0 {
        0
    } else if blocks[0].id == id {
        0
    } else {
        1 + block_find(blocks.drop_first(), id)
    }
}

/// Insert after the first block with id `after`; at the head for `None`; at
/// the end when `after` names no block.
pub open spec fn insert_block(blocks: Seq<BlockV>, after: Option<Seq<char>>, b: BlockV) -> Seq<BlockV> {
    match after {
        None => blocks.insert(0, b),
        Some(a) => {
            let p = block_find(blocks, a);
            if p < blocks.len() {
                blocks.insert(p + 1, b)
            } else {
                blocks.push(b)
            }
        },
    }
}

/// The heads (and their values) among the first `n` that `o[i]` did not observe.
pub open spec fn unobserved(
    heads: Seq<Seq<char>>,
    vals: Seq<Seq<char>>,
    o: Seq<EnvelopeView>,
    i: int,
    n: int,
) -> (Seq<Seq<char>>, Seq<Seq<char>>)
    decreases n,
{
    if n <= 0 {
        (seq![], seq![])
    } else {
        let prev = unobserved(heads, vals, o, i, n - 1);
        if observed(o, i, heads[n - 1]) {
            prev
        } else {
            (prev.0.push(heads[n - 1]), prev.1.push(vals[n - 1]))
        }
    }
}

pub open spec fn min(a: int, b: int) -> int {
    if a <= b { a } else { b }
}

/// The block after the edit `o[i]` sets its text to `text`.
pub open spec fn edit_block(b: BlockV, o: Seq<EnvelopeView>, i: int, text: Seq<char>) -> BlockV {
    let vals = b.conflicts.push(b.text);
    let kept = unobserved(b.heads, vals, o, i, min(b.heads.len() as int, vals.len() as int));
    BlockV { id: b.id, text, removed: b.removed, conflicts: kept.1, heads: kept.0.push(o[i].id) }
}

/// Apply `f` to the block at `p` of the document at `j`.
pub open spec fn with_doc(ws: WsV, j: int, d: DocV) -> WsV {
    WsV { names: ws.names, documents: ws.documents.update(j, (ws.documents[j].0, d)) }
}

/// The state after applying the operation `o[i]`.
pub open spec fn apply_op(ws: WsV, o: Seq<EnvelopeView>, i: int) -> WsV {
    match o[i].core.payload {
        PayloadView::CreateWorkspace { workspace, name } =>
            WsV { names: map_set(ws.names, workspace, name), documents: ws.documents },
        PayloadView::CreateDocument { workspace, document, title } => {
            let m = doc_touch(ws.documents, document);
            let j = key_find(m, document);
            WsV { names: ws.names, documents: m.update(j, (document, DocV { title, blocks: m[j].1.blocks })) }
        },
        PayloadView::InsertBlock { document, block, after, text } => {
            let m = doc_touch(ws.documents, document);
            let j = key_find(m, document);
            let d = m[j].1;
            let b = BlockV { id: block, text, removed: false, conflicts: seq![], heads: seq![o[i].id] };
            WsV {
                names: ws.names,
                documents: m.update(j, (document, DocV { title: d.title, blocks: insert_block(d.blocks, after, b) })),
            }
        },
        PayloadView::EditBlock { document, block, text } => {
            let j = key_find(ws.documents, document);
            if j < ws.documents.len() {
                let d = ws.documents[j].1;
                let p = block_find(d.blocks, block);
                if p < d.blocks.len() {
                    let nd = DocV { title: d.title, blocks: d.blocks.update(p, edit_block(d.blocks[p], o, i, text)) };
                    with_doc(ws, j, nd)
                } else {
                    ws
                }
            } else {
                ws
            }
        },
        PayloadView::RemoveBlock { document, block } => {
            let j = key_find(ws.documents, document);
            if j < ws.documents.len() {
                let d = ws.documents[j].1;
                let p = block_find(d.blocks, block);
                if p < d.blocks.len() {
                    let b = d.blocks[p];
                    let nb = BlockV { id: b.id, text: b.text, removed: true, conflicts: b.conflicts, heads: b.heads };
                    with_doc(ws, j, DocV { title: d.title, blocks: d.blocks.update(p, nb) })
                } else {
                    ws
                }
            } else {
                ws
            }
        },
    }
}

pub open spec fn empty_ws() -> WsV {
    WsV { names: Seq::empty(), documents: Seq::empty() }
}

/// The state after the first `n` operations of `o`.
pub open spec fn fold_ops(o: Seq<EnvelopeView>, n: int) -> WsV
    decreases n,
{
    if n <= 0 {
        empty_ws()
    } else {
        apply_op(fold_ops(o, n - 1), o, n - 1)
    }
}

/// The projected state of a set of operations.
pub open spec fn projection(ops: Seq<EnvelopeView>) -> WsV {
    let o = replay_order(ops);
    fold_ops(o, o.len() as int)
}


// ---------------------------------------------------------------------------
// Executable projection.

pub proof fn lemma_key_find_at<V>(m: Seq<(Seq<char>, V)>, k: Seq<char>, i: int)
    requires
        0 <= i <= m.len(),
        forall|j: int| 0 <= j < i ==> (#[trigger] m[j]).0 != k,
        i == m.len() || m[i].0 == k,
    ensures
        key_find(m, k) == i,
    decreases i,
{
    if i > 0 {
        lemma_key_find_at(m.drop_first(), k, i - 1);
    }
}

pub proof fn lemma_key_find_absent<V>(m: Seq<(Seq<char>, V)>, k: Seq<char>)
    requires
        key_find(m, k) >= m.len(),
    ensures
        forall|j: int| 0 <= j < m.len() ==> (#[trigger] m[j]).0 != k,
    decreases m.len(),
{
    if m.len() > 0 {
        lemma_key_find_absent(m.drop_first(), k);
        assert forall|j: int| 0 <= j < m.len() implies (#[trigger] m[j]).0 != k by {
            if j > 0 {
                assert(m.drop_first()[j - 1] == m[j]);
            }
        }
    }
}

pub proof fn lemma_key_find_bound<V>(m: Seq<(Seq<char>, V)>, k: Seq<char>)
    ensures
        0 <= key_find(m, k) <= m.len(),
        key_find(m, k) < m.len() ==> m[key_find(m, k)].0 == k,
    decreases m.len(),
{
    if m.len() > 0 && m[0].0 != k {
        lemma_key_find_bound(m.drop_first(), k);
    }
}

pub proof fn lemma_block_find_at(blocks: Seq<BlockV>, id: Seq<char>, i: int)
    requires
        0 <= i <= blocks.len(),
        forall|j: int| 0 <= j < i ==> (#[trigger] blocks[j]).id != id,
        i == blocks.len() || blocks[i].id == id,
    ensures
        block_find(blocks, id) == i,
    decreases i,
{
    if i > 0 {
        lemma_block_find_at(blocks.drop_first(), id, i - 1);
    }
}

proof fn lemma_slot_bound(keys: Seq<Seq<char>>, k: Seq<char>)
    ensures
        0 <= slot(keys, k) <= keys.len(),
    decreases keys.len(),
{
    if keys.len() > 0 && key_lt(keys[0], k) {
        lemma_slot_bound(keys.drop_first(), k);
    }
}

impl Names {
    pub fn new() -> (r: Names)
        ensures
            r@ == Seq::<(Seq<char>, Seq<char>)>::empty(),
    {
        let r = Names { entries: Vec::new() };
        assert(r@ =~= Seq::<(Seq<char>, Seq<char>)>::empty());
        r
    }

    pub fn len(&self) -> (n: usize)
        ensures
            n == self@.len(),
    {
        self.entries.len()
    }

    pub fn is_empty(&self) -> (b: bool)
        ensures
            b == (self@.len() == 0),
    {
        self.entries.len() == 0
    }

    /// The entries, in id order.
    pub fn entries(&self) -> (r: &Vec<(WorkspaceId, String)>)
        ensures
            r@.map_values(|e: (WorkspaceId, String)| (e.0@, e.1@)) == self@,
    {
        &self.entries
    }

    fn find(&self, k: &str) -> (r: usize)
        ensures
            r == key_find(self@, k@),
    {
        let n = self.entries.len();
        let mut i: usize = 0;
        while i < n && !str_eq(self.entries[i].0.as_str(), k)
            invariant
                n == self@.len(),
                i <= n,
                forall|j: int| 0 <= j < i ==> (#[trigger] self@[j]).0 != k@,
            decreases n - i,
        {
            i += 1;
        }
        proof { lemma_key_find_at(self@, k@, i as int); }
        i
    }

    fn slot_of(&self, k: &str) -> (r: usize)
        ensures
            r == slot(keys_of(self@), k@),
    {
        let ghost keys = keys_of(self@);
        let n = self.entries.len();
        let mut i: usize = 0;
        while i < n && str_less(self.entries[i].0.as_str(), k)
            invariant
                n == self@.len(),
                i <= n,
                keys == keys_of(self@),
                forall|j: int| 0 <= j < i ==> key_lt(#[trigger] keys[j], k@),
            decreases n - i,
        {
            assert(keys[i as int] == self@[i as int].0);
            i += 1;
        }
        proof {
            if i < n {
                assert(keys[i as int] == self@[i as int].0);
            }
            lemma_slot_at(keys, k@, i as int);
        }
        i
    }

    /// The name of workspace `k`.
    pub fn get(&self, k: &WorkspaceId) -> (r: Option<&String>)
        ensures
            r is Some <==> key_find(self@, k@) < self@.len(),
            r matches Some(s) ==> s@ == self@[key_find(self@, k@)].1,
    {
        let f = self.find(k.as_str());
        if f < self.entries.len() {
            Some(&self.entries[f].1)
        } else {
            None
        }
    }

    pub fn contains_key(&self, k: &WorkspaceId) -> (b: bool)
        ensures
            b == (key_find(self@, k@) < self@.len()),
    {
        self.find(k.as_str()) < self.entries.len()
    }

    /// Set the name of workspace `k`.
    pub fn set(&mut self, k: &WorkspaceId, v: String)
        ensures
            final(self)@ == map_set(old(self)@, k@, v@),
    {
        let f = self.find(k.as_str());
        if f < self.entries.len() {
            self.entries.remove(f);
            self.entries.insert(f, (k.clone(), v));
            assert(self@ =~= map_set(old(self)@, k@, v@));
        } else {
            let s = self.slot_of(k.as_str());
            proof { lemma_slot_bound(keys_of(old(self)@), k@); }
            self.entries.insert(s, (k.clone(), v));
            assert(self@ =~= map_set(old(self)@, k@, v@));
        }
    }
}

impl DocumentState {
    pub fn new() -> (d: DocumentState)
        ensures
            d@ == empty_doc(),
    {
        let d = DocumentState { title: String::new(), blocks: Vec::new() };
        assert(d@.title =~= empty_doc().title);
        assert(d@.blocks =~= empty_doc().blocks);
        d
    }
}

fn find_block(blocks: &Vec<BlockView>, id: &str) -> (r: usize)
    ensures
        r == block_find(blocks_view(blocks@), id@),
{
    let ghost bv = blocks_view(blocks@);
    let n = blocks.len();
    let mut i: usize = 0;
    while i < n && !str_eq(blocks[i].id.as_str(), id)
        invariant
            n == blocks@.len(),
            i <= n,
            bv == blocks_view(blocks@),
            forall|j: int| 0 <= j < i ==> (#[trigger] bv[j]).id != id@,
        decreases n - i,
    {
        assert(bv[i as int].id == blocks@[i as int].id@);
        i += 1;
    }
    proof {
        if i < n {
            assert(bv[i as int].id == blocks@[i as int].id@);
        }
        lemma_block_find_at(bv, id@, i as int);
    }
    i
}

fn insert_block_exec(blocks: &mut Vec<BlockView>, after: &Option<BlockId>, b: BlockView)
    ensures
        blocks_view(final(blocks)@) == insert_block(blocks_view(old(blocks)@), crate::envelope::opt_id_view(*after), b@),
{
    let ghost bv = blocks_view(blocks@);
    match after {
        None => {
            blocks.insert(0, b);
        },
        Some(a) => {
            let p = find_block(blocks, a.as_str());
            if p < blocks.len() {
                blocks.insert(p + 1, b);
            } else {
                blocks.push(b);
            }
        },
    }
    assert(blocks_view(blocks@) =~= insert_block(bv, crate::envelope::opt_id_view(*after), b@));
}

fn edit_block_exec(
    b: BlockView,
    ops: &[OperationEnvelope],
    ord: &Vec<usize>,
    rows: &Vec<Vec<bool>>,
    i: usize,
    text: String,
) -> (r: BlockView)
    requires
        i < ord@.len(),
        forall|j: int| 0 <= j < ord@.len() ==> (#[trigger] ord@[j]) < ops@.len(),
        rows@.len() == ord@.len(),
        forall|q: int| 0 <= q < ord@.len() ==> (#[trigger] rows@[q])@ == anc_row(pick(views(ops@), ord@), q),
    ensures
        r@ == edit_block(b@, pick(views(ops@), ord@), i as int, text@),
{
    let ghost o = pick(views(ops@), ord@);
    let BlockView { id, text: old_text, removed, conflicts, heads } = b;
    let mut vals = conflicts;
    vals.push(old_text);
    let ghost hv = ids_view(heads@);
    let ghost vv = texts_view(vals@);
    assert(vv =~= b@.conflicts.push(b@.text));
    let n = if heads.len() <= vals.len() { heads.len() } else { vals.len() };
    let mut nh: Vec<OpId> = Vec::new();
    let mut nv: Vec<String> = Vec::new();
    for k in 0..n
        invariant
            n <= heads@.len(),
            n <= vals@.len(),
            hv == ids_view(heads@),
            vv == texts_view(vals@),
            i < ord@.len(),
            o == pick(views(ops@), ord@),
            forall|j: int| 0 <= j < ord@.len() ==> (#[trigger] ord@[j]) < ops@.len(),
            rows@.len() == ord@.len(),
            forall|q: int| 0 <= q < ord@.len() ==> (#[trigger] rows@[q])@ == anc_row(o, q),
            (ids_view(nh@), texts_view(nv@)) == unobserved(hv, vv, o, i as int, k as int),
    {
        assert(hv[k as int] == heads@[k as int]@);
        assert(vv[k as int] == vals@[k as int]@);
        if !observed_exec(ops, ord, rows, i, heads[k].as_str()) {
            let ghost pre_h = ids_view(nh@);
            let ghost pre_v = texts_view(nv@);
            nh.push(heads[k].clone());
            nv.push(vals[k].clone());
            assert(ids_view(nh@) =~= pre_h.push(hv[k as int]));
            assert(texts_view(nv@) =~= pre_v.push(vv[k as int]));
        }
    }
    let ghost kept_h = ids_view(nh@);
    nh.push(ops[ord[i]].id.clone());
    assert(ids_view(nh@) =~= kept_h.push(o[i as int].id));
    let r = BlockView { id, text, removed, conflicts: nv, heads: nh };
    assert(r@ =~= edit_block(b@, o, i as int, text@));
    r
}

impl Documents {
    pub fn new() -> (r: Documents)
        ensures
            r@ == Seq::<(Seq<char>, DocV)>::empty(),
    {
        let r = Documents { entries: Vec::new() };
        assert(r@ =~= Seq::<(Seq<char>, DocV)>::empty());
        r
    }

    pub fn len(&self) -> (n: usize)
        ensures
            n == self@.len(),
    {
        self.entries.len()
    }

    pub fn is_empty(&self) -> (b: bool)
        ensures
            b == (self@.len() == 0),
    {
        self.entries.len() == 0
    }

    /// The entries, in id order.
    pub fn entries(&self) -> (r: &Vec<(DocumentId, DocumentState)>)
        ensures
            r@.map_values(|e: (DocumentId, DocumentState)| (e.0@, e.1@)) == self@,
    {
        &self.entries
    }

    fn find(&self, k: &str) -> (r: usize)
        ensures
            r == key_find(self@, k@),
    {
        let n = self.entries.len();
        let mut i: usize = 0;
        while i < n && !str_eq(self.entries[i].0.as_str(), k)
            invariant
                n == self@.len(),
                i <= n,
                forall|j: int| 0 <= j < i ==> (#[trigger] self@[j]).0 != k@,
            decreases n - i,
        {
            i += 1;
        }
        proof { lemma_key_find_at(self@, k@, i as int); }
        i
    }

    fn slot_of(&self, k: &str) -> (r: usize)
        ensures
            r == slot(keys_of(self@), k@),
    {
        let ghost keys = keys_of(self@);
        let n = self.entries.len();
        let mut i: usize = 0;
        while i < n && str_less(self.entries[i].0.as_str(), k)
            invariant
                n == self@.len(),
                i <= n,
                keys == keys_of(self@),
                forall|j: int| 0 <= j < i ==> key_lt(#[trigger] keys[j], k@),
            decreases n - i,
        {
            assert(keys[i as int] == self@[i as int].0);
            i += 1;
        }
        proof {
            if i < n {
                assert(keys[i as int] == self@[i as int].0);
            }
            lemma_slot_at(keys, k@, i as int);
        }
        i
    }

    /// The document `k`.
    pub fn get(&self, k: &DocumentId) -> (r: Option<&DocumentState>)
        ensures
            r is Some <==> key_find(self@, k@) < self@.len(),
            r matches Some(d) ==> d@ == self@[key_find(self@, k@)].1,
    {
        let f = self.find(k.as_str());
        if f < self.entries.len() {
            Some(&self.entries[f].1)
        } else {
            None
        }
    }

    pub fn contains_key(&self, k: &DocumentId) -> (b: bool)
        ensures
            b == (key_find(self@, k@) < self@.len()),
    {
        self.find(k.as_str()) < self.entries.len()
    }

    /// Make sure document `k` has an entry; its position.
    fn touch(&mut self, k: &DocumentId) -> (r: usize)
        ensures
            final(self)@ == doc_touch(old(self)@, k@),
            r == key_find(final(self)@, k@),
            r < final(self)@.len(),
    {
        let f = self.find(k.as_str());
        if f < self.entries.len() {
            f
        } else {
            let s = self.slot_of(k.as_str());
            proof {
                lemma_slot_bound(keys_of(old(self)@), k@);
                lemma_key_find_absent(old(self)@, k@);
            }
            self.entries.insert(s, (k.clone(), DocumentState::new()));
            assert(self@ =~= doc_touch(old(self)@, k@));
            proof {
                assert forall|j: int| 0 <= j < s implies (#[trigger] self@[j]).0 != k@ by {
                    assert(self@[j] == old(self)@[j]);
                }
                lemma_key_find_at(self@, k@, s as int);
            }
            s
        }
    }

    /// Take out the document at `j`, leaving an empty one in its place.
    fn take(&mut self, j: usize) -> (d: DocumentState)
        requires
            j < old(self)@.len(),
        ensures
            d@ == old(self)@[j as int].1,
            final(self)@ == old(self)@.update(j as int, (old(self)@[j as int].0, empty_doc())),
    {
        let (id, d) = self.entries.remove(j);
        self.entries.insert(j, (id, DocumentState::new()));
        assert(self@ =~= old(self)@.update(j as int, (old(self)@[j as int].0, empty_doc())));
        d
    }

    /// Put a document back at `j`.
    fn put(&mut self, j: usize, d: DocumentState)
        requires
            j < old(self)@.len(),
        ensures
            final(self)@ == old(self)@.update(j as int, (old(self)@[j as int].0, d@)),
    {
        let (id, _) = self.entries.remove(j);
        self.entries.insert(j, (id, d));
        assert(self@ =~= old(self)@.update(j as int, (old(self)@[j as int].0, d@)));
    }
}

impl WorkspaceState {
    pub fn new() -> (ws: WorkspaceState)
        ensures
            ws@ == empty_ws(),
    {
        let ws = WorkspaceState { names: Names::new(), documents: Documents::new() };
        ws
    }
}

fn apply_exec(
    ws: &mut WorkspaceState,
    ops: &[OperationEnvelope],
    ord: &Vec<usize>,
    rows: &Vec<Vec<bool>>,
    i: usize,
)
    requires
        i < ord@.len(),
        forall|j: int| 0 <= j < ord@.len() ==> (#[trigger] ord@[j]) < ops@.len(),
        rows@.len() == ord@.len(),
        forall|q: int| 0 <= q < ord@.len() ==> (#[trigger] rows@[q])@ == anc_row(pick(views(ops@), ord@), q),
    ensures
        final(ws)@ == apply_op(old(ws)@, pick(views(ops@), ord@), i as int),
{
    let ghost o = pick(views(ops@), ord@);
    let e = &ops[ord[i]];
    assert(o[i as int] == e@);
    let ghost w0 = ws@;
    match &e.core.payload {
        Payload::CreateWorkspace { workspace, name } => {
            ws.names.set(workspace, name.clone());
            assert(ws@ == apply_op(w0, o, i as int));
        },
        Payload::CreateDocument { workspace: _, document, title } => {
            let j = ws.documents.touch(document);
            proof { lemma_key_find_bound(ws.documents@, document@); }
            let mut d = ws.documents.take(j);
            d.title = title.clone();
            ws.documents.put(j, d);
            assert(ws@.documents =~= apply_op(w0, o, i as int).documents);
            assert(ws@ == apply_op(w0, o, i as int));
        },
        Payload::InsertBlock { document, block, after, text } => {
            let j = ws.documents.touch(document);
            proof { lemma_key_find_bound(ws.documents@, document@); }
            let mut d = ws.documents.take(j);
            let mut heads: Vec<OpId> = Vec::new();
            heads.push(e.id.clone());
            let b = BlockView { id: block.clone(), text: text.clone(), removed: false, conflicts: Vec::new(), heads };
            assert(b@.conflicts =~= Seq::<Seq<char>>::empty());
            assert(b@.heads =~= seq![o[i as int].id]);
            insert_block_exec(&mut d.blocks, after, b);
            ws.documents.put(j, d);
            assert(ws@.documents =~= apply_op(w0, o, i as int).documents);
            assert(ws@ == apply_op(w0, o, i as int));
        },
        Payload::EditBlock { document, block, text } => {
            let j = ws.documents.find(document.as_str());
            if j < ws.documents.entries.len() {
                let p = find_block(&ws.documents.entries[j].1.blocks, block.as_str());
                if p < ws.documents.entries[j].1.blocks.len() {
                    let mut d = ws.documents.take(j);
                    let ghost dv = d@;
                    let b = d.blocks.remove(p);
                    let nb = edit_block_exec(b, ops, ord, rows, i, text.clone());
                    d.blocks.insert(p, nb);
                    assert(blocks_view(d.blocks@) =~= dv.blocks.update(p as int, nb@));
                    ws.documents.put(j, d);
                    assert(ws@.documents =~= apply_op(w0, o, i as int).documents);
                    assert(ws@ == apply_op(w0, o, i as int));
                } else {
                    assert(ws@ == apply_op(w0, o, i as int));
                }
            } else {
                assert(ws@ == apply_op(w0, o, i as int));
            }
        },
        Payload::RemoveBlock { document, block } => {
            let j = ws.documents.find(document.as_str());
            if j < ws.documents.entries.len() {
                let p = find_block(&ws.documents.entries[j].1.blocks, block.as_str());
                if p < ws.documents.entries[j].1.blocks.len() {
                    let mut d = ws.documents.take(j);
                    let ghost dv = d@;
                    let mut b = d.blocks.remove(p);
                    b.removed = true;
                    d.blocks.insert(p, b);
                    assert(blocks_view(d.blocks@) =~= dv.blocks.update(p as int, (BlockV {
                        id: dv.blocks[p as int].id,
                        text: dv.blocks[p as int].text,
                        removed: true,
                        conflicts: dv.blocks[p as int].conflicts,
                        heads: dv.blocks[p as int].heads,
                    })));
                    ws.documents.put(j, d);
                    assert(ws@.documents =~= apply_op(w0, o, i as int).documents);
                    assert(ws@ == apply_op(w0, o, i as int));
                } else {
                    assert(ws@ == apply_op(w0, o, i as int));
                }
            } else {
                assert(ws@ == apply_op(w0, o, i as int));
            }
        },
    }
}

/// Fold a set of envelopes into projected state. The result depends only on
/// the operations, not on the order in which they are given.
pub fn replay(ops: &[OperationEnvelope]) -> (ws: WorkspaceState)
    ensures
        ws@ == projection(views(ops@)),
{
    let canon = canonical_positions(ops);
    let ord = causal_positions(ops, canon);
    let rows = ancestry(ops, &ord);
    let ghost o = pick(views(ops@), ord@);
    assert(o == replay_order(views(ops@)));
    let mut ws = WorkspaceState::new();
    let n = ord.len();
    for t in 0..n
        invariant
            n == ord@.len(),
            o == pick(views(ops@), ord@),
            forall|j: int| 0 <= j < ord@.len() ==> (#[trigger] ord@[j]) < ops@.len(),
            rows@.len() == ord@.len(),
            forall|q: int| 0 <= q < ord@.len() ==> (#[trigger] rows@[q])@ == anc_row(o, q),
            ws@ == fold_ops(o, t as int),
    {
        apply_exec(&mut ws, ops, &ord, &rows, t);
    }
    assert(o.len() == n);
    ws
}


/// Replay converges: two logs holding the same operations, received in any
/// order and with any repetition, project to the same state (given that an id
/// names a single envelope).
pub proof fn law_replay_converges(p: Seq<EnvelopeView>, q: Seq<EnvelopeView>)
    requires
        forall|x: EnvelopeView| p.contains(x) <==> q.contains(x),
        unique_ids(p),
    ensures
        projection(p) == projection(q),
{
    lemma_canonical_set(p, q);
}

/// A removal is a tombstone: every document keeps every block, with its id
/// and text, no block ever comes back from removed, and the named block (when
/// its document holds it) is marked removed.
pub proof fn law_remove_is_tombstone(ws: WsV, o: Seq<EnvelopeView>, i: int)
    requires
        0 <= i < o.len(),
        o[i].core.payload is RemoveBlock,
    ensures
        apply_op(ws, o, i).names == ws.names,
        apply_op(ws, o, i).documents.len() == ws.documents.len(),
        forall|j: int| 0 <= j < ws.documents.len() ==> {
            let (k, d) = ws.documents[j];
            let (k2, d2) = #[trigger] apply_op(ws, o, i).documents[j];
            &&& k2 == k
            &&& d2.title == d.title
            &&& d2.blocks.len() == d.blocks.len()
            &&& forall|p: int| 0 <= p < d.blocks.len() ==> {
                &&& (#[trigger] d2.blocks[p]).id == d.blocks[p].id
                &&& d2.blocks[p].text == d.blocks[p].text
                &&& (d.blocks[p].removed ==> d2.blocks[p].removed)
            }
        },
        ({
            let (document, block) = match o[i].core.payload {
                PayloadView::RemoveBlock { document, block } => (document, block),
                _ => (seq![], seq![]),
            };
            let j = key_find(ws.documents, document);
            let p = if j < ws.documents.len() { block_find(ws.documents[j].1.blocks, block) } else { 0 };
            j < ws.documents.len() && p < ws.documents[j].1.blocks.len()
                ==> apply_op(ws, o, i).documents[j].1.blocks[p].removed
        }),
{
    match o[i].core.payload {
        PayloadView::RemoveBlock { document, block } => {
            let j = key_find(ws.documents, document);
            lemma_key_find_bound(ws.documents, document);
            if j < ws.documents.len() {
                let d = ws.documents[j].1;
                let p = block_find(d.blocks, block);
                lemma_block_find_bound(d.blocks, block);
                if p < d.blocks.len() {
                    let b = d.blocks[p];
                    let nb = BlockV { id: b.id, text: b.text, removed: true, conflicts: b.conflicts, heads: b.heads };
                    let nd = DocV { title: d.title, blocks: d.blocks.update(p, nb) };
                    let after = apply_op(ws, o, i);
                    assert(after == with_doc(ws, j, nd));
                    assert(after.documents == ws.documents.update(j, (ws.documents[j].0, nd)));
                } else {
                    assert(apply_op(ws, o, i) == ws);
                }
            } else {
                assert(apply_op(ws, o, i) == ws);
            }
        },
        _ => {},
    }
}

/// Concurrent edits are kept, never silently overwritten: an edit sets the
/// block's text and keeps, as conflicts, the value of every head it did not
/// causally observe.
pub proof fn law_edit_keeps_concurrent_values(b: BlockV, o: Seq<EnvelopeView>, i: int, text: Seq<char>, k: int)
    requires
        0 <= k < b.heads.len(),
        k < b.conflicts.len() + 1,
        !observed(o, i, b.heads[k]),
    ensures
        edit_block(b, o, i, text).text == text,
        edit_block(b, o, i, text).conflicts.contains(b.conflicts.push(b.text)[k]),
        edit_block(b, o, i, text).heads.last() == o[i].id,
{
    let vals = b.conflicts.push(b.text);
    let n = min(b.heads.len() as int, vals.len() as int);
    lemma_unobserved_keeps(b.heads, vals, o, i, n, k);
}

proof fn lemma_block_find_bound(blocks: Seq<BlockV>, id: Seq<char>)
    ensures
        0 <= block_find(blocks, id) <= blocks.len(),
    decreases blocks.len(),
{
    if blocks.len() > 0 {
        lemma_block_find_bound(blocks.drop_first(), id);
    }
}

proof fn lemma_unobserved_keeps(heads: Seq<Seq<char>>, vals: Seq<Seq<char>>, o: Seq<EnvelopeView>, i: int, n: int, k: int)
    requires
        0 <= k < n,
        n <= heads.len(),
        n <= vals.len(),
        !observed(o, i, heads[k]),
    ensures
        unobserved(heads, vals, o, i, n).1.contains(vals[k]),
    decreases n,
{
    let prev = unobserved(heads, vals, o, i, n - 1);
    if k < n - 1 {
        lemma_unobserved_keeps(heads, vals, o, i, n - 1, k);
        if !observed(o, i, heads[n - 1]) {
            let j = choose|j: int| 0 <= j < prev.1.len() && prev.1[j] == vals[k];
            assert(prev.1.push(vals[n - 1])[j] == vals[k]);
        }
    } else {
        assert(prev.1.push(vals[n - 1])[prev.1.len() as int] == vals[k]);
    }
}

/// Some entry has key `k`.
pub open spec fn named<V>(m: Seq<(Seq<char>, V)>, k: Seq<char>) -> bool {
    exists|j: int| 0 <= j < m.len() && m[j].0 == k
}

proof fn lemma_named_find<V>(m: Seq<(Seq<char>, V)>, k: Seq<char>)
    ensures
        named(m, k) <==> key_find(m, k) < m.len(),
{
    lemma_key_find_bound(m, k);
    if key_find(m, k) >= m.len() {
        lemma_key_find_absent(m, k);
    }
}

proof fn lemma_map_set_names<V>(m: Seq<(Seq<char>, V)>, k: Seq<char>, v: V, w: Seq<char>)
    ensures
        named(map_set(m, k, v), k),
        named(m, w) ==> named(map_set(m, k, v), w),
{
    lemma_key_find_bound(m, k);
    let f = key_find(m, k);
    let r = map_set(m, k, v);
    if f < m.len() {
        assert(r[f].0 == k);
        if named(m, w) {
            let j = choose|j: int| 0 <= j < m.len() && m[j].0 == w;
            assert(r[j].0 == w);
        }
    } else {
        let i = slot(keys_of(m), k);
        lemma_slot_bound(keys_of(m), k);
        assert(r[i].0 == k);
        if named(m, w) {
            let j = choose|j: int| 0 <= j < m.len() && m[j].0 == w;
            if j < i {
                assert(r[j].0 == w);
            } else {
                assert(r[j + 1].0 == w);
            }
        }
    }
}

/// No operation takes a workspace name away.
proof fn lemma_apply_keeps_names(ws: WsV, o: Seq<EnvelopeView>, i: int, w: Seq<char>)
    requires
        0 <= i < o.len(),
        named(ws.names, w),
    ensures
        named(apply_op(ws, o, i).names, w),
{
    match o[i].core.payload {
        PayloadView::CreateWorkspace { workspace, name } => {
            lemma_map_set_names(ws.names, workspace, name, w);
        },
        PayloadView::EditBlock { document, block, text } => {
            let j = key_find(ws.documents, document);
            if j < ws.documents.len() {
                let d = ws.documents[j].1;
                let p = block_find(d.blocks, block);
                if p < d.blocks.len() {
                    let nd = DocV { title: d.title, blocks: d.blocks.update(p, edit_block(d.blocks[p], o, i, text)) };
                    assert(apply_op(ws, o, i) == with_doc(ws, j, nd));
                }
            }
        },
        PayloadView::RemoveBlock { document, block } => {
            let j = key_find(ws.documents, document);
            if j < ws.documents.len() {
                let d = ws.documents[j].1;
                let p = block_find(d.blocks, block);
                if p < d.blocks.len() {
                    let b = d.blocks[p];
                    let nb = BlockV { id: b.id, text: b.text, removed: true, conflicts: b.conflicts, heads: b.heads };
                    assert(apply_op(ws, o, i) == with_doc(ws, j, DocV { title: d.title, blocks: d.blocks.update(p, nb) }));
                }
            }
        },
        _ => {},
    }
}

/// A workspace created anywhere in an order is named once the order is
/// folded past it.
pub proof fn lemma_fold_names(o: Seq<EnvelopeView>, n: int, m: int, w: Seq<char>, name: Seq<char>)
    requires
        0 <= m < n <= o.len(),
        o[m].core.payload == (PayloadView::CreateWorkspace { workspace: w, name }),
    ensures
        named(fold_ops(o, n).names, w),
    decreases n,
{
    if n == m + 1 {
        lemma_map_set_names(fold_ops(o, m).names, w, name, w);
    } else {
        lemma_fold_names(o, n - 1, m, w, name);
        lemma_apply_keeps_names(fold_ops(o, n - 1), o, n - 1, w);
    }
}

/// Every operation of a set is in its causal order.
proof fn lemma_causal_order_has(rem: Seq<EnvelopeView>, x: EnvelopeView)
    requires
        rem.contains(x),
    ensures
        causal_order(rem).contains(x),
    decreases rem.len(),
{
    let i = first_ready_from(rem, 0);
    crate::causal::lemma_first_ready_in_range(rem, 0);
    let c = causal_order(rem);
    assert(c == seq![rem[i]] + causal_order(rem.remove(i)));
    if rem[i] == x {
        assert(c[0] == x);
    } else {
        let j = choose|j: int| 0 <= j < rem.len() && rem[j] == x;
        let r = rem.remove(i);
        if j < i {
            assert(r[j] == x);
        } else {
            assert(r[j - 1] == x);
        }
        lemma_causal_order_has(r, x);
        let k = choose|k: int| 0 <= k < causal_order(r).len() && causal_order(r)[k] == x;
        assert(c[k + 1] == x);
    }
}

/// A workspace created by an operation of a set is named in its projection,
/// when ids name one operation each.
pub proof fn lemma_projection_names(ops: Seq<EnvelopeView>, e: EnvelopeView, w: Seq<char>, name: Seq<char>)
    requires
        ops.contains(e),
        unique_ids(ops),
        e.core.payload == (PayloadView::CreateWorkspace { workspace: w, name }),
    ensures
        key_find(projection(ops).names, w) < projection(ops).names.len(),
{
    let k = choose|k: int| 0 <= k < ops.len() && ops[k] == e;
    crate::causal::lemma_canonical_props(ops);
    let c = canonical(ops);
    assert(crate::causal::has_id(c, ops[k].id));
    let j = choose|j: int| 0 <= j < c.len() && c[j].id == e.id;
    assert(c.contains(c[j]));
    assert(ops.contains(c[j]));
    let m = choose|m: int| 0 <= m < ops.len() && ops[m] == c[j];
    assert(c[j] == e);
    lemma_causal_order_has(c, e);
    let o = replay_order(ops);
    let q = choose|q: int| 0 <= q < o.len() && o[q] == e;
    lemma_fold_names(o, o.len() as int, q, w, name);
    lemma_named_find(projection(ops).names, w);
}

/// The number of operations of `o` that insert a block into document `d`.
pub open spec fn inserts_into(o: Seq<EnvelopeView>, d: Seq<char>) -> nat
    decreases o.len(),
{
    if o.len() == 0 {
        0
    } else {
        inserts_into(o.drop_last(), d) + insert_weight(o.last(), d)
    }
}

/// 1 for an operation that inserts a block into document `d`, else 0.
pub open spec fn insert_weight(e: EnvelopeView, d: Seq<char>) -> nat {
    match e.core.payload {
        PayloadView::InsertBlock { document, .. } => if document == d { 1nat } else { 0nat },
        _ => 0nat,
    }
}

/// Documents whose blocks are exactly the inserts of `o`, one entry per key.
pub open spec fn counted(docs: Seq<(Seq<char>, DocV)>, o: Seq<EnvelopeView>) -> bool {
    &&& forall|i: int, j: int| 0 <= i < j < docs.len() ==> (#[trigger] docs[i]).0 != (#[trigger] docs[j]).0
    &&& forall|j: int| 0 <= j < docs.len() ==> (#[trigger] docs[j]).1.blocks.len() == inserts_into(o, docs[j].0)
    &&& forall|d: Seq<char>| !named(docs, d) ==> #[trigger] inserts_into(o, d) == 0
}

proof fn lemma_doc_touch_counted(docs: Seq<(Seq<char>, DocV)>, o: Seq<EnvelopeView>, d: Seq<char>)
    requires
        counted(docs, o),
    ensures
        counted(doc_touch(docs, d), o),
        key_find(doc_touch(docs, d), d) < doc_touch(docs, d).len(),
        doc_touch(docs, d)[key_find(doc_touch(docs, d), d)].0 == d,
{
    lemma_named_find(docs, d);
    let m = doc_touch(docs, d);
    if key_find(docs, d) >= docs.len() {
        let i = slot(keys_of(docs), d);
        lemma_slot_bound(keys_of(docs), d);
        assert(m[i] == (d, empty_doc()));
        assert forall|a: int, b: int| 0 <= a < b < m.len() implies (#[trigger] m[a]).0 != (#[trigger] m[b]).0 by {
            if a == i {
                assert(m[b] == docs[b - 1]);
            } else if b == i {
                assert(m[a] == docs[a]);
            } else {
                let aa = if a < i { a } else { a - 1 };
                let bb = if b < i { b } else { b - 1 };
                assert(m[a] == docs[aa] && m[b] == docs[bb]);
            }
        }
        assert forall|j: int| 0 <= j < m.len() implies (#[trigger] m[j]).1.blocks.len() == inserts_into(o, m[j].0) by {
            if j < i {
                assert(m[j] == docs[j]);
            } else if j > i {
                assert(m[j] == docs[j - 1]);
            }
        }
        assert forall|x: Seq<char>| !named(m, x) implies #[trigger] inserts_into(o, x) == 0 by {
            if named(docs, x) {
                let k = choose|k: int| 0 <= k < docs.len() && docs[k].0 == x;
                if k < i {
                    assert(m[k] == docs[k]);
                } else {
                    assert(m[k + 1] == docs[k]);
                }
            }
        }
        assert(named(m, d));
        lemma_named_find(m, d);
    }
    lemma_key_find_bound(m, d);
}

/// Replacing the document under key `m[j].0` by one with `n` blocks.
proof fn lemma_update_counted(m: Seq<(Seq<char>, DocV)>, o: Seq<EnvelopeView>, o2: Seq<EnvelopeView>, j: int, dv: DocV)
    requires
        counted(m, o),
        0 <= j < m.len(),
        forall|x: Seq<char>| x != m[j].0 ==> #[trigger] inserts_into(o2, x) == inserts_into(o, x),
        dv.blocks.len() == inserts_into(o2, m[j].0),
    ensures
        counted(m.update(j, (m[j].0, dv)), o2),
{
    let r = m.update(j, (m[j].0, dv));
    assert forall|a: int, b: int| 0 <= a < b < r.len() implies (#[trigger] r[a]).0 != (#[trigger] r[b]).0 by {
        assert(r[a].0 == m[a].0 && r[b].0 == m[b].0);
    }
    assert forall|k: int| 0 <= k < r.len() implies (#[trigger] r[k]).1.blocks.len() == inserts_into(o2, r[k].0) by {
        if k != j {
            assert(r[k] == m[k]);
            assert(m[k].0 != m[j].0);
        }
    }
    assert forall|x: Seq<char>| !named(r, x) implies #[trigger] inserts_into(o2, x) == 0 by {
        if named(m, x) {
            let k = choose|k: int| 0 <= k < m.len() && m[k].0 == x;
            assert(r[k].0 == x);
        }
        assert(x != m[j].0) by {
            assert(r[j].0 == m[j].0);
        }
    }
}

proof fn lemma_insert_block_len(blocks: Seq<BlockV>, after: Option<Seq<char>>, b: BlockV)
    ensures
        insert_block(blocks, after, b).len() == blocks.len() + 1,
{
    if let Some(a) = after {
        lemma_block_find_bound(blocks, a);
    }
}

proof fn lemma_apply_counted(ws: WsV, o: Seq<EnvelopeView>, i: int)
    requires
        0 <= i < o.len(),
        counted(ws.documents, o.take(i)),
    ensures
        counted(apply_op(ws, o, i).documents, o.take(i + 1)),
{
    let p = o.take(i);
    let p1 = o.take(i + 1);
    assert(p1.drop_last() =~= p);
    assert(p1.last() == o[i]);
    let docs = ws.documents;
    match o[i].core.payload {
        PayloadView::InsertBlock { document, block, after, text } => {
            lemma_doc_touch_counted(docs, p, document);
            let m = doc_touch(docs, document);
            let j = key_find(m, document);
            lemma_key_find_bound(m, document);
            let d = m[j].1;
            let b = BlockV { id: block, text, removed: false, conflicts: seq![], heads: seq![o[i].id] };
            lemma_insert_block_len(d.blocks, after, b);
            lemma_update_counted(m, p, p1, j, DocV { title: d.title, blocks: insert_block(d.blocks, after, b) });
        },
        PayloadView::CreateDocument { workspace, document, title } => {
            lemma_doc_touch_counted(docs, p, document);
            let m = doc_touch(docs, document);
            let j = key_find(m, document);
            lemma_key_find_bound(m, document);
            lemma_update_counted(m, p, p1, j, DocV { title, blocks: m[j].1.blocks });
        },
        PayloadView::CreateWorkspace { .. } => {
            assert forall|x: Seq<char>| #[trigger] inserts_into(p1, x) == inserts_into(p, x) by {}
        },
        PayloadView::EditBlock { document, block, text } => {
            let j = key_find(docs, document);
            lemma_key_find_bound(docs, document);
            if j < docs.len() {
                let d = docs[j].1;
                let q = block_find(d.blocks, block);
                lemma_block_find_bound(d.blocks, block);
                assert(d.blocks.len() == inserts_into(p, docs[j].0));
                assert(inserts_into(p1, docs[j].0) == inserts_into(p, docs[j].0));
                if q < d.blocks.len() {
                    let nd = DocV { title: d.title, blocks: d.blocks.update(q, edit_block(d.blocks[q], o, i, text)) };
                    assert(apply_op(ws, o, i) == with_doc(ws, j, nd));
                    lemma_update_counted(docs, p, p1, j, nd);
                } else {
                    assert forall|x: Seq<char>| #[trigger] inserts_into(p1, x) == inserts_into(p, x) by {}
                }
            } else {
                assert forall|x: Seq<char>| #[trigger] inserts_into(p1, x) == inserts_into(p, x) by {}
            }
        },
        PayloadView::RemoveBlock { document, block } => {
            let j = key_find(docs, document);
            lemma_key_find_bound(docs, document);
            if j < docs.len() {
                let d = docs[j].1;
                let q = block_find(d.blocks, block);
                lemma_block_find_bound(d.blocks, block);
                assert(d.blocks.len() == inserts_into(p, docs[j].0));
                assert(inserts_into(p1, docs[j].0) == inserts_into(p, docs[j].0));
                if q < d.blocks.len() {
                    let bb = d.blocks[q];
                    let nb = BlockV { id: bb.id, text: bb.text, removed: true, conflicts: bb.conflicts, heads: bb.heads };
                    let nd = DocV { title: d.title, blocks: d.blocks.update(q, nb) };
                    assert(apply_op(ws, o, i) == with_doc(ws, j, nd));
                    lemma_update_counted(docs, p, p1, j, nd);
                } else {
                    assert forall|x: Seq<char>| #[trigger] inserts_into(p1, x) == inserts_into(p, x) by {}
                }
            } else {
                assert forall|x: Seq<char>| #[trigger] inserts_into(p1, x) == inserts_into(p, x) by {}
            }
        },
    }
}

proof fn lemma_fold_counted(o: Seq<EnvelopeView>, n: int)
    requires
        0 <= n <= o.len(),
    ensures
        counted(fold_ops(o, n).documents, o.take(n)),
    decreases n,
{
    if n == 0 {
        assert(o.take(0).len() == 0);
    } else {
        lemma_fold_counted(o, n - 1);
        lemma_apply_counted(fold_ops(o, n - 1), o, n - 1);
    }
}

/// A block is never dropped: each document of the projection holds exactly
/// as many blocks as the replayed operations insert into it (removals only
/// mark blocks, edits only change them), one document per id.
pub proof fn law_blocks_are_inserts(ops: Seq<EnvelopeView>)
    ensures
        counted(projection(ops).documents, replay_order(ops)),
{
    let o = replay_order(ops);
    lemma_fold_counted(o, o.len() as int);
    assert(o.take(o.len() as int) =~= o);
}

/// No two operations share an id.
pub open spec fn distinct_ids(s: Seq<EnvelopeView>) -> bool {
    forall|i: int, j: int| 0 <= i < j < s.len() ==> (#[trigger] s[i]).id != (#[trigger] s[j]).id
}

proof fn lemma_inserts_remove(b: Seq<EnvelopeView>, k: int, d: Seq<char>)
    requires
        0 <= k < b.len(),
    ensures
        inserts_into(b, d) == inserts_into(b.remove(k), d) + insert_weight(b[k], d),
    decreases b.len(),
{
    if k == b.len() - 1 {
        assert(b.remove(k) =~= b.drop_last());
    } else {
        lemma_inserts_remove(b.drop_last(), k, d);
        assert(b.remove(k).drop_last() =~= b.drop_last().remove(k));
        assert(b.remove(k).last() == b.last());
    }
}

/// Counting inserts does not depend on the order of the operations.
proof fn lemma_inserts_perm(a: Seq<EnvelopeView>, b: Seq<EnvelopeView>, d: Seq<char>)
    requires
        a.to_multiset() == b.to_multiset(),
    ensures
        inserts_into(a, d) == inserts_into(b, d),
    decreases a.len(),
{
    broadcast use vstd::multiset::group_multiset_axioms, vstd::seq_lib::to_multiset_build,
        vstd::seq_lib::to_multiset_remove, vstd::seq_lib::to_multiset_len, vstd::seq_lib::to_multiset_contains;

    if a.len() == 0 {
        assert(b.to_multiset().len() == 0);
        assert(b.len() == 0);
    } else {
        let x = a.last();
        assert(a == a.drop_last().push(x));
        assert(a.to_multiset() == a.drop_last().to_multiset().insert(x));
        assert(a.to_multiset().count(x) > 0);
        assert(b.contains(x));
        let k = choose|k: int| 0 <= k < b.len() && b[k] == x;
        assert(b.remove(k).to_multiset() =~= a.drop_last().to_multiset());
        lemma_inserts_perm(a.drop_last(), b.remove(k), d);
        lemma_inserts_remove(b, k, d);
    }
}

/// The causal order holds the same operations.
proof fn lemma_causal_order_perm(rem: Seq<EnvelopeView>)
    ensures
        causal_order(rem).to_multiset() == rem.to_multiset(),
    decreases rem.len(),
{
    broadcast use vstd::multiset::group_multiset_axioms, vstd::seq_lib::to_multiset_build,
        vstd::seq_lib::to_multiset_remove, vstd::seq_lib::lemma_multiset_commutative,
        vstd::seq_lib::to_multiset_contains;

    if rem.len() == 0 {
        assert(causal_order(rem) =~= rem);
    } else {
        let i = first_ready_from(rem, 0);
        crate::causal::lemma_first_ready_in_range(rem, 0);
        lemma_causal_order_perm(rem.remove(i));
        let c = causal_order(rem);
        assert(c == seq![rem[i]] + causal_order(rem.remove(i)));
        assert(seq![rem[i]].to_multiset() =~= vstd::multiset::Multiset::<EnvelopeView>::empty().insert(rem[i])) by {
            assert(seq![rem[i]] =~= Seq::<EnvelopeView>::empty().push(rem[i]));
            assert(Seq::<EnvelopeView>::empty().to_multiset() =~= vstd::multiset::Multiset::<EnvelopeView>::empty());
        }
        assert(rem.contains(rem[i]));
        assert(c.to_multiset() =~= rem.to_multiset());
    }
}

/// With ids distinct, the canonical form holds the same operations.
proof fn lemma_canonical_perm(s: Seq<EnvelopeView>)
    requires
        distinct_ids(s),
    ensures
        canonical(s).to_multiset() == s.to_multiset(),
    decreases s.len(),
{
    broadcast use vstd::multiset::group_multiset_axioms, vstd::seq_lib::to_multiset_build,
        vstd::seq_lib::to_multiset_insert;

    if s.len() == 0 {
        assert(canonical(s) =~= s);
    } else {
        let prev = s.drop_last();
        let e = s.last();
        assert forall|i: int, j: int| 0 <= i < j < prev.len() implies (#[trigger] prev[i]).id != (#[trigger] prev[j]).id by {
            assert(prev[i] == s[i] && prev[j] == s[j]);
        }
        lemma_canonical_perm(prev);
        crate::causal::lemma_canonical_props(prev);
        let acc = canonical(prev);
        let i = slot(crate::causal::ids_of(acc), e.id);
        crate::causal::lemma_slot_props(crate::causal::ids_of(acc), e.id);
        if i < acc.len() && acc[i].id == e.id {
            assert(acc.contains(acc[i]));
            assert(prev.contains(acc[i]));
            let m = choose|m: int| 0 <= m < prev.len() && prev[m] == acc[i];
            assert(s[m].id == s[s.len() - 1].id);
            assert(false);
        }
        assert(canonical(s) == acc.insert(i, e));
        assert(s == prev.push(e));
    }
}

/// Each document of the projection of operations with distinct ids holds as
/// many blocks as the operations insert into it, and a document no operation
/// names holds none: a tombstone hides a block, never deletes it.
pub proof fn law_blocks_match_inserts(ops: Seq<EnvelopeView>)
    requires
        distinct_ids(ops),
    ensures
        counted(projection(ops).documents, ops),
{
    let o = replay_order(ops);
    law_blocks_are_inserts(ops);
    lemma_canonical_perm(ops);
    lemma_causal_order_perm(canonical(ops));
    let docs = projection(ops).documents;
    assert forall|j: int| 0 <= j < docs.len() implies (#[trigger] docs[j]).1.blocks.len() == inserts_into(ops, docs[j].0) by {
        lemma_inserts_perm(o, ops, docs[j].0);
    }
    assert forall|d: Seq<char>| !named(docs, d) implies #[trigger] inserts_into(ops, d) == 0 by {
        lemma_inserts_perm(o, ops, d);
    }
}

proof fn lemma_row_push(o: Seq<EnvelopeView>, x: EnvelopeView, i: int, m: int)
    requires
        0 <= i < o.len(),
    ensures
        crate::causal::row_upto(o, i, m).len() == o.len(),
        crate::causal::row_upto(o.push(x), i, m) == crate::causal::row_upto(o, i, m).push(false),
    decreases i, m,
{
    let o2 = o.push(x);
    if m <= 0 || m > i {
        assert(crate::causal::unit_row(o2.len(), i) =~= crate::causal::unit_row(o.len(), i).push(false));
    } else {
        lemma_row_push(o, x, i, m - 1);
        assert(o2[i] == o[i] && o2[m - 1] == o[m - 1]);
        assert(crate::causal::is_parent(o2, i, m - 1) == crate::causal::is_parent(o, i, m - 1));
        if crate::causal::is_parent(o, i, m - 1) {
            lemma_row_push(o, x, m - 1, m - 1);
            let a = crate::causal::row_upto(o, i, m - 1);
            let b = crate::causal::anc_row(o, m - 1);
            assert(b == crate::causal::row_upto(o, m - 1, m - 1));
            assert(crate::causal::anc_row(o2, m - 1) == crate::causal::row_upto(o2, m - 1, m - 1));
            assert(crate::causal::or_row(a.push(false), b.push(false)) =~= crate::causal::or_row(a, b).push(false));
            assert(crate::causal::row_upto(o2, i, m) == crate::causal::or_row(a.push(false), b.push(false)));
        } else {
            assert(crate::causal::row_upto(o2, i, m) == crate::causal::row_upto(o2, i, m - 1));
        }
    }
}

proof fn lemma_find_push(o: Seq<EnvelopeView>, x: EnvelopeView, h: Seq<char>)
    ensures
        0 <= crate::causal::find_id(o, h) <= o.len(),
        crate::causal::find_id(o.push(x), h) == (if crate::causal::find_id(o, h) < o.len() {
            crate::causal::find_id(o, h)
        } else if x.id == h {
            o.len() as int
        } else {
            o.len() + 1int
        }),
    decreases o.len(),
{
    if o.len() == 0 {
        assert(o.push(x)[0] == x);
        assert(crate::causal::find_id(o.push(x).drop_first(), h) == 0);
    } else if o[0].id != h {
        assert(o.push(x).drop_first() =~= o.drop_first().push(x));
        lemma_find_push(o.drop_first(), x, h);
    }
}

proof fn lemma_observed_push(o: Seq<EnvelopeView>, x: EnvelopeView, i: int, h: Seq<char>)
    requires
        0 <= i < o.len(),
    ensures
        crate::causal::observed(o.push(x), i, h) == crate::causal::observed(o, i, h),
{
    lemma_row_push(o, x, i, i);
    lemma_find_push(o, x, h);
}

proof fn lemma_unobserved_push(
    heads: Seq<Seq<char>>,
    vals: Seq<Seq<char>>,
    o: Seq<EnvelopeView>,
    x: EnvelopeView,
    i: int,
    n: int,
)
    requires
        0 <= i < o.len(),
    ensures
        unobserved(heads, vals, o.push(x), i, n) == unobserved(heads, vals, o, i, n),
    decreases n,
{
    if n > 0 {
        lemma_unobserved_push(heads, vals, o, x, i, n - 1);
        lemma_observed_push(o, x, i, heads[n - 1]);
    }
}

proof fn lemma_fold_push(o: Seq<EnvelopeView>, x: EnvelopeView, n: int)
    requires
        0 <= n <= o.len(),
    ensures
        fold_ops(o.push(x), n) == fold_ops(o, n),
    decreases n,
{
    if n > 0 {
        lemma_fold_push(o, x, n - 1);
        let ws = fold_ops(o, n - 1);
        let o2 = o.push(x);
        assert(o2[n - 1] == o[n - 1]);
        match o[n - 1].core.payload {
            PayloadView::EditBlock { document, block, text } => {
                let j = key_find(ws.documents, document);
                if j < ws.documents.len() {
                    let d = ws.documents[j].1;
                    let p = block_find(d.blocks, block);
                    if p < d.blocks.len() {
                        let b = d.blocks[p];
                        let vals = b.conflicts.push(b.text);
                        lemma_unobserved_push(b.heads, vals, o, x, n - 1, min(b.heads.len() as int, vals.len() as int));
                        assert(edit_block(b, o2, n - 1, text) == edit_block(b, o, n - 1, text));
                    }
                }
            },
            _ => {},
        }
        assert(apply_op(ws, o2, n - 1) == apply_op(ws, o, n - 1));
    }
}

/// An operation that causally follows every operation of a log (it names
/// every head of the log as a parent, none of them names it, and its id is
/// new) is replayed last: added to a log listed parents first whose ids each
/// name one envelope, it comes at the end of the replay order, and the
/// projection of the log with it is that operation applied to the projection
/// of the log.
pub proof fn law_following_op_applies_last(ops: Seq<EnvelopeView>, x: EnvelopeView)
    requires
        crate::causal::unique_ids(ops),
        crate::causal::parents_first(ops),
        crate::causal::follows_all(ops, x),
    ensures
        replay_order(ops.push(x)) == replay_order(ops).push(x),
        projection(ops.push(x)) == apply_op(projection(ops), replay_order(ops).push(x), replay_order(ops).len() as int),
{
    crate::causal::lemma_replay_order_last(ops, x);
    let o = replay_order(ops);
    let o2 = o.push(x);
    lemma_fold_push(o, x, o.len() as int);
    assert(fold_ops(o2, o2.len() as int) == apply_op(fold_ops(o2, o.len() as int), o2, o.len() as int));
}

/// A block inserted by an operation that follows every operation of the log
/// goes into the log's projection as `insert_block` places it (at the head
/// for no `after`, right after the first block `after` names, at the end
/// when that block is missing), in the document it names (a new document
/// with an empty title when there was none); the names and every other
/// document stay as they were.
pub proof fn law_following_insert_places_block(ops: Seq<EnvelopeView>, x: EnvelopeView)
    requires
        crate::causal::unique_ids(ops),
        crate::causal::parents_first(ops),
        crate::causal::follows_all(ops, x),
        x.core.payload is InsertBlock,
    ensures
        ({
            let ws = projection(ops);
            let after = projection(ops.push(x));
            match x.core.payload {
                PayloadView::InsertBlock { document, block, after: a, text } => {
                    let m = doc_touch(ws.documents, document);
                    let j = key_find(m, document);
                    let nb = BlockV { id: block, text, removed: false, conflicts: seq![], heads: seq![x.id] };
                    &&& after.names == ws.names
                    &&& after.documents == m.update(
                        j,
                        (document, DocV { title: m[j].1.title, blocks: insert_block(m[j].1.blocks, a, nb) }),
                    )
                },
                _ => true,
            }
        }),
{
    law_following_op_applies_last(ops, x);
    let o = replay_order(ops);
    assert(o.push(x)[o.len() as int] == x);
}

/// A removal that follows every operation of the log tombstones the first
/// block of that id in the document it names, keeping the block with its id
/// and text where it stood, and changes nothing else; one that names a
/// document or block the projection does not hold changes nothing.
pub proof fn law_following_remove_tombstones(ops: Seq<EnvelopeView>, x: EnvelopeView)
    requires
        crate::causal::unique_ids(ops),
        crate::causal::parents_first(ops),
        crate::causal::follows_all(ops, x),
        x.core.payload is RemoveBlock,
    ensures
        ({
            let ws = projection(ops);
            let after = projection(ops.push(x));
            match x.core.payload {
                PayloadView::RemoveBlock { document, block } => {
                    let j = key_find(ws.documents, document);
                    if j < ws.documents.len() && block_find(ws.documents[j].1.blocks, block) < ws.documents[j].1.blocks.len() {
                        let d = ws.documents[j].1;
                        let p = block_find(d.blocks, block);
                        let b = d.blocks[p];
                        let nb = BlockV { id: b.id, text: b.text, removed: true, conflicts: b.conflicts, heads: b.heads };
                        after == with_doc(ws, j, DocV { title: d.title, blocks: d.blocks.update(p, nb) })
                    } else {
                        after == ws
                    }
                },
                _ => true,
            }
        }),
{
    law_following_op_applies_last(ops, x);
    let o = replay_order(ops);
    assert(o.push(x)[o.len() as int] == x);
}

/// Position of `o[i]` once `x` is inserted at `t`.
pub open spec fn shifted(i: int, t: int) -> int {
    if i < t { i } else { i + 1 }
}

/// The bound in `o` that a bound `m` in `o.insert(t, x)` stands for.
pub open spec fn unshifted(m: int, t: int) -> int {
    if m <= t { m } else { m - 1 }
}

proof fn lemma_row_insert(o: Seq<EnvelopeView>, x: EnvelopeView, t: int, i: int, m: int)
    requires
        0 <= t <= o.len(),
        0 <= i < o.len(),
        forall|k: int| 0 <= k < o.len() ==> !(#[trigger] o[k]).core.parents.contains(x.id),
    ensures
        crate::causal::row_upto(o.insert(t, x), shifted(i, t), m)
            == crate::causal::row_upto(o, i, unshifted(m, t)).insert(t, false),
    decreases i, m,
{
    let o2 = o.insert(t, x);
    let i2 = shifted(i, t);
    let u = unshifted(m, t);
    lemma_row_push(o, x, i, u);
    assert(o2[i2] == o[i]);
    if m <= 0 || m > i2 {
        assert(u <= 0 || u > i);
        assert(crate::causal::unit_row(o2.len(), i2) =~= crate::causal::unit_row(o.len(), i).insert(t, false));
    } else {
        let k2 = m - 1;
        if k2 == t {
            assert(!crate::causal::is_parent(o2, i2, k2));
            lemma_row_insert(o, x, t, i, t);
            assert(crate::causal::row_upto(o2, i2, m) == crate::causal::row_upto(o2, i2, t));
        } else {
            let k = if k2 < t { k2 } else { k2 - 1 };
            assert(o2[k2] == o[k]);
            assert(u == k + 1);
            assert(0 < u <= i);
            assert(crate::causal::is_parent(o2, i2, k2) == crate::causal::is_parent(o, i, k));
            lemma_row_insert(o, x, t, i, k2);
            assert(unshifted(k2, t) == k);
            if crate::causal::is_parent(o, i, k) {
                assert(shifted(k, t) == k2);
                lemma_row_insert(o, x, t, k, k2);
                lemma_row_push(o, x, k, k);
                let a = crate::causal::row_upto(o, i, k);
                let b = crate::causal::anc_row(o, k);
                assert(b == crate::causal::row_upto(o, k, k));
                assert(crate::causal::anc_row(o2, k2) == crate::causal::row_upto(o2, k2, k2));
                assert(crate::causal::or_row(a.insert(t, false), b.insert(t, false))
                    =~= crate::causal::or_row(a, b).insert(t, false));
            }
        }
    }
}

proof fn lemma_find_insert(o: Seq<EnvelopeView>, x: EnvelopeView, t: int, h: Seq<char>)
    requires
        0 <= t <= o.len(),
        forall|k: int| 0 <= k < o.len() ==> (#[trigger] o[k]).id != x.id,
    ensures
        0 <= crate::causal::find_id(o, h) <= o.len(),
        h != x.id ==> crate::causal::find_id(o.insert(t, x), h) == shifted(crate::causal::find_id(o, h), t),
        h == x.id ==> crate::causal::find_id(o.insert(t, x), h) == t,
    decreases o.len(),
{
    let o2 = o.insert(t, x);
    if t == 0 {
        assert(o2[0] == x);
        assert(o2.drop_first() =~= o);
        lemma_find_push(o, x, h);
    } else {
        assert(o2[0] == o[0]);
        assert(o2.drop_first() =~= o.drop_first().insert(t - 1, x));
        if o[0].id != h {
            lemma_find_insert(o.drop_first(), x, t - 1, h);
        }
    }
}

proof fn lemma_observed_insert(o: Seq<EnvelopeView>, x: EnvelopeView, t: int, i: int, h: Seq<char>)
    requires
        0 <= t <= o.len(),
        0 <= i < o.len(),
        forall|k: int| 0 <= k < o.len() ==> !(#[trigger] o[k]).core.parents.contains(x.id),
        forall|k: int| 0 <= k < o.len() ==> (#[trigger] o[k]).id != x.id,
    ensures
        crate::causal::observed(o.insert(t, x), shifted(i, t), h) == crate::causal::observed(o, i, h),
{
    let i2 = shifted(i, t);
    lemma_row_insert(o, x, t, i, i2);
    assert(unshifted(i2, t) == i);
    assert(crate::causal::anc_row(o.insert(t, x), i2) == crate::causal::row_upto(o.insert(t, x), i2, i2));
    lemma_row_push(o, x, i, i);
    lemma_find_insert(o, x, t, h);
    let r = crate::causal::anc_row(o, i);
    assert(r == crate::causal::row_upto(o, i, i));
    let k = crate::causal::find_id(o, h);
    if h == x.id {
        crate::causal::lemma_find_id_at(o, x.id, o.len() as int);
        assert(r.insert(t, false)[t] == false);
    } else if k < o.len() {
        assert(r.insert(t, false)[shifted(k, t)] == r[k]);
    }
}

proof fn lemma_unobserved_insert(
    heads: Seq<Seq<char>>,
    vals: Seq<Seq<char>>,
    o: Seq<EnvelopeView>,
    x: EnvelopeView,
    t: int,
    i: int,
    n: int,
)
    requires
        0 <= t <= o.len(),
        0 <= i < o.len(),
        forall|k: int| 0 <= k < o.len() ==> !(#[trigger] o[k]).core.parents.contains(x.id),
        forall|k: int| 0 <= k < o.len() ==> (#[trigger] o[k]).id != x.id,
    ensures
        unobserved(heads, vals, o.insert(t, x), shifted(i, t), n) == unobserved(heads, vals, o, i, n),
    decreases n,
{
    if n > 0 {
        lemma_unobserved_insert(heads, vals, o, x, t, i, n - 1);
        lemma_observed_insert(o, x, t, i, heads[n - 1]);
    }
}

proof fn lemma_apply_insert(ws: WsV, o: Seq<EnvelopeView>, x: EnvelopeView, t: int, i: int)
    requires
        0 <= t <= o.len(),
        0 <= i < o.len(),
        forall|k: int| 0 <= k < o.len() ==> !(#[trigger] o[k]).core.parents.contains(x.id),
        forall|k: int| 0 <= k < o.len() ==> (#[trigger] o[k]).id != x.id,
    ensures
        apply_op(ws, o.insert(t, x), shifted(i, t)) == apply_op(ws, o, i),
{
    let o2 = o.insert(t, x);
    let i2 = shifted(i, t);
    assert(o2[i2] == o[i]);
    match o[i].core.payload {
        PayloadView::EditBlock { document, block, text } => {
            let j = key_find(ws.documents, document);
            if j < ws.documents.len() {
                let d = ws.documents[j].1;
                let p = block_find(d.blocks, block);
                if p < d.blocks.len() {
                    let b = d.blocks[p];
                    let vals = b.conflicts.push(b.text);
                    lemma_unobserved_insert(b.heads, vals, o, x, t, i, min(b.heads.len() as int, vals.len() as int));
                    assert(edit_block(b, o2, i2, text) == edit_block(b, o, i, text));
                }
            }
        },
        _ => {},
    }
}

/// Document `d` holds a block with id `b`.
pub open spec fn holds_block(ws: WsV, d: Seq<char>, b: Seq<char>) -> bool {
    exists|j: int, p: int|
        0 <= j < ws.documents.len() && 0 <= p < ws.documents[j].1.blocks.len()
            && #[trigger] ws.documents[j].0 == d && #[trigger] ws.documents[j].1.blocks[p].id == b
}

/// The operation inserts block `b` into document `d`.
pub open spec fn inserts_block(e: EnvelopeView, d: Seq<char>, b: Seq<char>) -> bool {
    e.core.payload matches PayloadView::InsertBlock { document, block, .. } && document == d && block == b
}

proof fn lemma_block_find_hit(blocks: Seq<BlockV>, id: Seq<char>)
    ensures
        0 <= block_find(blocks, id) <= blocks.len(),
        block_find(blocks, id) < blocks.len() ==> blocks[block_find(blocks, id)].id == id,
    decreases blocks.len(),
{
    if blocks.len() > 0 && blocks[0].id != id {
        lemma_block_find_hit(blocks.drop_first(), id);
    }
}

proof fn lemma_insert_block_from(blocks: Seq<BlockV>, after: Option<Seq<char>>, nb: BlockV, q: int)
    requires
        0 <= q < insert_block(blocks, after, nb).len(),
    ensures
        insert_block(blocks, after, nb)[q] == nb || blocks.contains(insert_block(blocks, after, nb)[q]),
{
    lemma_block_find_hit(blocks, match after { Some(a) => a, None => seq![] });
    let r = insert_block(blocks, after, nb);
    let s = match after {
        None => 0,
        Some(a) => if block_find(blocks, a) < blocks.len() { block_find(blocks, a) + 1 } else { blocks.len() as int },
    };
    assert(r == blocks.insert(s, nb));
    if q < s {
        assert(r[q] == blocks[q]);
    } else if q > s {
        assert(r[q] == blocks[q - 1]);
    }
}

proof fn lemma_entry_holds(ws: WsV, e: (Seq<char>, DocV), p: int, d: Seq<char>, b: Seq<char>)
    requires
        ws.documents.contains(e),
        e.0 == d,
        0 <= p < e.1.blocks.len(),
        e.1.blocks[p].id == b,
    ensures
        holds_block(ws, d, b),
{
    let j0 = choose|j0: int| 0 <= j0 < ws.documents.len() && ws.documents[j0] == e;
    assert(ws.documents[j0].0 == d && ws.documents[j0].1.blocks[p].id == b);
}

/// An entry of the touched documents is the fresh empty document or an old one.
proof fn lemma_touch_entries(m: Seq<(Seq<char>, DocV)>, k: Seq<char>)
    ensures
        forall|j: int| 0 <= j < doc_touch(m, k).len() ==> doc_touch(m, k)[j] == (k, empty_doc())
            || m.contains(#[trigger] doc_touch(m, k)[j]),
{
    lemma_key_find_bound(m, k);
    if key_find(m, k) >= m.len() {
        let s = slot(keys_of(m), k);
        lemma_slot_bound(keys_of(m), k);
        let t = m.insert(s, (k, empty_doc()));
        assert forall|j: int| 0 <= j < t.len() implies t[j] == (k, empty_doc()) || m.contains(#[trigger] t[j]) by {
            if j < s {
                assert(m[j] == t[j]);
            } else if j > s {
                assert(m[j - 1] == t[j]);
            }
        }
    } else {
        assert forall|j: int| 0 <= j < m.len() implies m[j] == (k, empty_doc()) || m.contains(#[trigger] m[j]) by {
            assert(m[j] == m[j]);
        }
    }
}

/// `key_find` lands on `k` in the touched documents.
proof fn lemma_touch_key(m: Seq<(Seq<char>, DocV)>, k: Seq<char>)
    ensures
        key_find(doc_touch(m, k), k) < doc_touch(m, k).len(),
        doc_touch(m, k)[key_find(doc_touch(m, k), k)].0 == k,
{
    lemma_key_find_bound(m, k);
    if key_find(m, k) >= m.len() {
        let s = slot(keys_of(m), k);
        lemma_slot_bound(keys_of(m), k);
        lemma_key_find_absent(m, k);
        let t = m.insert(s, (k, empty_doc()));
        assert forall|q: int| 0 <= q < s implies (#[trigger] t[q]).0 != k by {
            assert(t[q] == m[q]);
        }
        lemma_key_find_at(t, k, s);
    }
}

/// A block appears in a document only through an operation that inserts it.
proof fn lemma_apply_holds(ws: WsV, o: Seq<EnvelopeView>, i: int, d: Seq<char>, b: Seq<char>)
    requires
        0 <= i < o.len(),
        !holds_block(ws, d, b),
        !inserts_block(o[i], d, b),
    ensures
        !holds_block(apply_op(ws, o, i), d, b),
{
    let after = apply_op(ws, o, i);
    if holds_block(after, d, b) {
        let (j, p) = choose|j: int, p: int|
            0 <= j < after.documents.len() && 0 <= p < after.documents[j].1.blocks.len()
                && #[trigger] after.documents[j].0 == d && #[trigger] after.documents[j].1.blocks[p].id == b;
        match o[i].core.payload {
            PayloadView::CreateWorkspace { .. } => {
                assert(ws.documents.contains(ws.documents[j]));
                lemma_entry_holds(ws, ws.documents[j], p, d, b);
            },
            PayloadView::CreateDocument { document, title, .. } => {
                let m = doc_touch(ws.documents, document);
                let j2 = key_find(m, document);
                lemma_touch_entries(ws.documents, document);
                lemma_touch_key(ws.documents, document);
                let v = (document, DocV { title, blocks: m[j2].1.blocks });
                assert(after.documents == m.update(j2, v));
                assert(after.documents[j] == m.update(j2, v)[j]);
                lemma_key_find_bound(m, document);
                assert(m.update(j2, v).len() == m.len());
                assert(j < m.len());
                let e = if j == j2 { m[j2] } else { m[j] };
                if j != j2 {
                    assert(m.update(j2, v)[j] == m[j]);
                }
                assert(e.0 == d && e.1.blocks[p].id == b);
                if e == (document, empty_doc()) {
                    assert(e.1.blocks.len() == 0);
                }
                assert(ws.documents.contains(e));
                lemma_entry_holds(ws, e, p, d, b);
            },
            PayloadView::InsertBlock { document, block, after: a, text } => {
                let m = doc_touch(ws.documents, document);
                let j2 = key_find(m, document);
                lemma_touch_entries(ws.documents, document);
                lemma_touch_key(ws.documents, document);
                let nb = BlockV { id: block, text, removed: false, conflicts: seq![], heads: seq![o[i].id] };
                let v = (document, DocV { title: m[j2].1.title, blocks: insert_block(m[j2].1.blocks, a, nb) });
                assert(after.documents == m.update(j2, v));
                assert(after.documents[j] == m.update(j2, v)[j]);
                lemma_key_find_bound(m, document);
                assert(m.update(j2, v).len() == m.len());
                assert(j < m.len());
                if j != j2 {
                    assert(m.update(j2, v)[j] == m[j]);
                }
                if j == j2 {
                    lemma_insert_block_from(m[j2].1.blocks, a, nb, p);
                    let y = insert_block(m[j2].1.blocks, a, nb)[p];
                    if y == nb {
                        assert(document == d && block == b);
                        assert(false);
                    } else {
                        let q = choose|q: int| 0 <= q < m[j2].1.blocks.len() && m[j2].1.blocks[q] == y;
                        if m[j2] == (document, empty_doc()) {
                            assert(m[j2].1.blocks.len() == 0);
                        }
                        assert(ws.documents.contains(m[j2]));
                        lemma_entry_holds(ws, m[j2], q, d, b);
                    }
                } else {
                    assert(m[j].1.blocks[p].id == b);
                    if m[j] == (document, empty_doc()) {
                        assert(m[j].1.blocks.len() == 0);
                    }
                    assert(ws.documents.contains(m[j]));
                    lemma_entry_holds(ws, m[j], p, d, b);
                }
            },
            PayloadView::EditBlock { document, block, text } => {
                let j0 = key_find(ws.documents, document);
                lemma_key_find_bound(ws.documents, document);
                if j0 < ws.documents.len() && block_find(ws.documents[j0].1.blocks, block) < ws.documents[j0].1.blocks.len() {
                    let dv = ws.documents[j0].1;
                    let p0 = block_find(dv.blocks, block);
                    lemma_block_find_hit(dv.blocks, block);
                    assert(after.documents.len() == ws.documents.len());
                    let e = ws.documents[j];
                    assert(after.documents[j].0 == e.0);
                    assert(after.documents[j].1.blocks.len() == e.1.blocks.len());
                    assert(after.documents[j].1.blocks[p].id == e.1.blocks[p].id);
                    assert(ws.documents.contains(e));
                    lemma_entry_holds(ws, e, p, d, b);
                } else {
                    assert(after == ws);
                    assert(ws.documents.contains(ws.documents[j]));
                    lemma_entry_holds(ws, ws.documents[j], p, d, b);
                }
            },
            PayloadView::RemoveBlock { document, block } => {
                let j0 = key_find(ws.documents, document);
                lemma_key_find_bound(ws.documents, document);
                if j0 < ws.documents.len() && block_find(ws.documents[j0].1.blocks, block) < ws.documents[j0].1.blocks.len() {
                    let dv = ws.documents[j0].1;
                    let p0 = block_find(dv.blocks, block);
                    lemma_block_find_hit(dv.blocks, block);
                    assert(after.documents.len() == ws.documents.len());
                    let e = ws.documents[j];
                    assert(after.documents[j].0 == e.0);
                    assert(after.documents[j].1.blocks.len() == e.1.blocks.len());
                    assert(after.documents[j].1.blocks[p].id == e.1.blocks[p].id);
                    assert(ws.documents.contains(e));
                    lemma_entry_holds(ws, e, p, d, b);
                } else {
                    assert(after == ws);
                    assert(ws.documents.contains(ws.documents[j]));
                    lemma_entry_holds(ws, ws.documents[j], p, d, b);
                }
            },
        }
    }
}

proof fn lemma_fold_holds(o: Seq<EnvelopeView>, n: int, d: Seq<char>, b: Seq<char>)
    requires
        0 <= n <= o.len(),
        forall|k: int| 0 <= k < n ==> !inserts_block(#[trigger] o[k], d, b),
    ensures
        !holds_block(fold_ops(o, n), d, b),
    decreases n,
{
    if n > 0 {
        lemma_fold_holds(o, n - 1, d, b);
        lemma_apply_holds(fold_ops(o, n - 1), o, n - 1, d, b);
    }
}

/// The document and block an edit or a removal names.
pub open spec fn block_target(p: PayloadView) -> (Seq<char>, Seq<char>) {
    match p {
        PayloadView::EditBlock { document, block, .. } => (document, block),
        PayloadView::RemoveBlock { document, block } => (document, block),
        _ => (seq![], seq![]),
    }
}

proof fn lemma_fold_insert_prefix(o: Seq<EnvelopeView>, x: EnvelopeView, t: int, n: int)
    requires
        0 <= n <= t <= o.len(),
        forall|k: int| 0 <= k < o.len() ==> !(#[trigger] o[k]).core.parents.contains(x.id),
        forall|k: int| 0 <= k < o.len() ==> (#[trigger] o[k]).id != x.id,
    ensures
        fold_ops(o.insert(t, x), n) == fold_ops(o, n),
    decreases n,
{
    if n > 0 {
        lemma_fold_insert_prefix(o, x, t, n - 1);
        lemma_apply_insert(fold_ops(o, n - 1), o, x, t, n - 1);
    }
}

proof fn lemma_fold_insert_suffix(o: Seq<EnvelopeView>, x: EnvelopeView, t: int, n: int)
    requires
        0 <= t <= o.len(),
        t + 1 <= n <= o.len() + 1,
        forall|k: int| 0 <= k < o.len() ==> !(#[trigger] o[k]).core.parents.contains(x.id),
        forall|k: int| 0 <= k < o.len() ==> (#[trigger] o[k]).id != x.id,
        x.core.payload is EditBlock || x.core.payload is RemoveBlock,
        !holds_block(fold_ops(o, t), block_target(x.core.payload).0, block_target(x.core.payload).1),
    ensures
        fold_ops(o.insert(t, x), n) == fold_ops(o, n - 1),
    decreases n,
{
    let o2 = o.insert(t, x);
    if n == t + 1 {
        lemma_fold_insert_prefix(o, x, t, t);
        let ws = fold_ops(o, t);
        assert(o2[t] == x);
        let (d, b) = block_target(x.core.payload);
        let j = key_find(ws.documents, d);
        lemma_key_find_bound(ws.documents, d);
        if j < ws.documents.len() {
            lemma_block_find_hit(ws.documents[j].1.blocks, b);
            let p = block_find(ws.documents[j].1.blocks, b);
            if p < ws.documents[j].1.blocks.len() {
                assert(ws.documents[j].0 == d && ws.documents[j].1.blocks[p].id == b);
                assert(false);
            }
        }
        assert(apply_op(ws, o2, t) == ws);
    } else {
        lemma_fold_insert_suffix(o, x, t, n - 1);
        assert(shifted(n - 2, t) == n - 1);
        lemma_apply_insert(fold_ops(o, n - 2), o, x, t, n - 2);
    }
}

/// The replay order holds operations of the log.
proof fn lemma_replay_order_from(ops: Seq<EnvelopeView>)
    ensures
        forall|k: int| 0 <= k < replay_order(ops).len() ==> ops.contains(#[trigger] replay_order(ops)[k]),
{
    broadcast use vstd::seq_lib::to_multiset_contains;

    let c = canonical(ops);
    crate::causal::lemma_canonical_props(ops);
    lemma_causal_order_perm(c);
    let o = replay_order(ops);
    assert forall|k: int| 0 <= k < o.len() implies ops.contains(#[trigger] o[k]) by {
        assert(o.contains(o[k]));
        assert(o.to_multiset().count(o[k]) > 0);
        assert(c.contains(o[k]));
    }
}

/// Editing or removing a block that no operation of the log inserts changes
/// nothing: added to the log, such an operation (one that no operation of
/// the log names as a parent) leaves the projection as it was and creates no
/// document.
pub proof fn law_unknown_block_op_changes_nothing(ops: Seq<EnvelopeView>, x: EnvelopeView)
    requires
        x.core.payload is EditBlock || x.core.payload is RemoveBlock,
        forall|k: int|
            0 <= k < ops.len() ==> !inserts_block(
                #[trigger] ops[k],
                block_target(x.core.payload).0,
                block_target(x.core.payload).1,
            ),
        forall|k: int| 0 <= k < ops.len() ==> !(#[trigger] ops[k]).core.parents.contains(x.id),
    ensures
        projection(ops.push(x)) == projection(ops),
{
    let t = crate::causal::lemma_replay_order_sink(ops, x);
    if !crate::causal::has_id(ops, x.id) {
        let o = replay_order(ops);
        let (d, b) = block_target(x.core.payload);
        lemma_replay_order_from(ops);
        assert forall|k: int| 0 <= k < o.len() implies !(#[trigger] o[k]).core.parents.contains(x.id) && o[k].id != x.id
            && !inserts_block(o[k], d, b) by {
            assert(ops.contains(o[k]));
            let j = choose|j: int| 0 <= j < ops.len() && ops[j] == o[k];
            assert(!ops[j].core.parents.contains(x.id));
            assert(!inserts_block(ops[j], d, b));
            if o[k].id == x.id {
                assert(crate::causal::has_id(ops, x.id));
            }
        }
        lemma_fold_holds(o, t, d, b);
        lemma_fold_insert_suffix(o, x, t, o.len() + 1int);
    }
}

/// A row holds the op itself, whatever prefix of the parents it has taken in.
proof fn lemma_row_self(o: Seq<EnvelopeView>, i: int, m: int)
    requires
        0 <= i < o.len(),
    ensures
        crate::causal::row_upto(o, i, m)[i],
    decreases m,
{
    lemma_row_push(o, o[i], i, m);
    if !(m <= 0 || m > i) {
        lemma_row_self(o, i, m - 1);
        lemma_row_push(o, o[i], i, m - 1);
        if crate::causal::is_parent(o, i, m - 1) {
            lemma_row_push(o, o[i], m - 1, m - 1);
        }
    }
}

/// A row that has taken in the parent `o[j]` holds everything `o[j]`'s row holds.
proof fn lemma_row_covers(o: Seq<EnvelopeView>, i: int, m: int, j: int, k: int)
    requires
        0 <= j < m <= i < o.len(),
        0 <= k < o.len(),
        crate::causal::is_parent(o, i, j),
        anc_row(o, j)[k],
    ensures
        crate::causal::row_upto(o, i, m)[k],
    decreases m,
{
    lemma_row_push(o, o[i], i, m - 1);
    lemma_row_push(o, o[i], j, j);
    assert(anc_row(o, j) == crate::causal::row_upto(o, j, j));
    if m - 1 > j {
        lemma_row_covers(o, i, m - 1, j, k);
    }
    if crate::causal::is_parent(o, i, m - 1) {
        lemma_row_push(o, o[i], m - 1, m - 1);
        assert(anc_row(o, m - 1) == crate::causal::row_upto(o, m - 1, m - 1));
    }
}

/// A row holds only the op itself and what the rows of its parents before
/// `m` hold.
proof fn lemma_row_only(o: Seq<EnvelopeView>, i: int, m: int, k: int)
    requires
        0 <= i < o.len(),
        0 <= k < o.len(),
        crate::causal::row_upto(o, i, m)[k],
    ensures
        k == i || exists|j: int| 0 <= j < m && j < i && crate::causal::is_parent(o, i, j) && #[trigger] anc_row(o, j)[k],
    decreases m,
{
    lemma_row_push(o, o[i], i, m);
    if !(m <= 0 || m > i) {
        lemma_row_push(o, o[i], i, m - 1);
        if crate::causal::is_parent(o, i, m - 1) {
            lemma_row_push(o, o[i], m - 1, m - 1);
            assert(anc_row(o, m - 1) == crate::causal::row_upto(o, m - 1, m - 1));
            if !crate::causal::row_upto(o, i, m - 1)[k] {
                assert(anc_row(o, m - 1)[k]);
            } else {
                lemma_row_only(o, i, m - 1, k);
            }
        } else {
            lemma_row_only(o, i, m - 1, k);
        }
    }
}

/// An operation observes itself, when no operation before it shares its id.
pub proof fn law_observed_self(o: Seq<EnvelopeView>, i: int)
    requires
        0 <= i < o.len(),
        forall|k: int| 0 <= k < i ==> (#[trigger] o[k]).id != o[i].id,
    ensures
        observed(o, i, o[i].id),
{
    crate::causal::lemma_find_id_at(o, o[i].id, i);
    lemma_row_self(o, i, i);
    lemma_row_push(o, o[i], i, i);
}

/// Observation is passed on through parents: an operation observes whatever
/// any of its parents listed before it observes, so it observes every
/// operation it reaches through a chain of parent links.
pub proof fn law_observed_through_parents(o: Seq<EnvelopeView>, i: int, j: int, h: Seq<char>)
    requires
        0 <= j < i < o.len(),
        o[i].core.parents.contains(o[j].id),
        observed(o, j, h),
    ensures
        observed(o, i, h),
{
    let k = crate::causal::find_id(o, h);
    lemma_row_covers(o, i, i, j, k);
    lemma_row_push(o, o[i], i, i);
}

/// An operation observes nothing else: what it observes is itself (the first
/// operation with its id) or something one of its parents listed before it
/// observes.
pub proof fn law_observed_only_ancestors(o: Seq<EnvelopeView>, i: int, h: Seq<char>)
    requires
        0 <= i < o.len(),
        observed(o, i, h),
    ensures
        crate::causal::find_id(o, h) == i
            || exists|j: int| 0 <= j < i && o[i].core.parents.contains(o[j].id) && #[trigger] observed(o, j, h),
{
    let k = crate::causal::find_id(o, h);
    lemma_row_push(o, o[i], i, i);
    lemma_row_only(o, i, i, k);
    if k != i {
        let j = choose|j: int| 0 <= j < i && j < i && crate::causal::is_parent(o, i, j) && #[trigger] anc_row(o, j)[k];
        assert(observed(o, j, h));
    }
}

/// All entries of `m` under key `w` hold `n`.
spec fn all_named(m: Seq<(Seq<char>, Seq<char>)>, w: Seq<char>, n: Seq<char>) -> bool {
    forall|j: int| 0 <= j < m.len() && (#[trigger] m[j]).0 == w ==> m[j].1 == n
}

proof fn lemma_map_set_all_named(m: Seq<(Seq<char>, Seq<char>)>, k: Seq<char>, v: Seq<char>, w: Seq<char>, n: Seq<char>)
    requires
        all_named(m, w, n),
        k == w ==> v == n,
    ensures
        all_named(map_set(m, k, v), w, n),
{
    lemma_key_find_bound(m, k);
    let f = key_find(m, k);
    let r = map_set(m, k, v);
    if f < m.len() {
        assert forall|j: int| 0 <= j < r.len() && (#[trigger] r[j]).0 == w implies r[j].1 == n by {
            if j != f {
                assert(r[j] == m[j]);
            }
        }
    } else {
        let s = slot(keys_of(m), k);
        lemma_slot_bound(keys_of(m), k);
        assert forall|j: int| 0 <= j < r.len() && (#[trigger] r[j]).0 == w implies r[j].1 == n by {
            if j < s {
                assert(r[j] == m[j]);
            } else if j > s {
                assert(r[j] == m[j - 1]);
            }
        }
    }
}

proof fn lemma_fold_all_named(o: Seq<EnvelopeView>, n: int, w: Seq<char>, name: Seq<char>)
    requires
        0 <= n <= o.len(),
        forall|k: int| 0 <= k < o.len() ==> match (#[trigger] o[k]).core.payload {
            PayloadView::CreateWorkspace { workspace, name: nm } => workspace == w ==> nm == name,
            _ => true,
        },
    ensures
        all_named(fold_ops(o, n).names, w, name),
    decreases n,
{
    if n > 0 {
        lemma_fold_all_named(o, n - 1, w, name);
        let ws = fold_ops(o, n - 1);
        match o[n - 1].core.payload {
            PayloadView::CreateWorkspace { workspace, name: nm } => {
                lemma_map_set_all_named(ws.names, workspace, nm, w, name);
            },
            _ => {
                assert(apply_op(ws, o, n - 1).names == ws.names) by {
                    lemma_apply_keeps_names_exactly(ws, o, n - 1);
                }
            },
        }
    }
}

/// Only a workspace creation changes the names.
proof fn lemma_apply_keeps_names_exactly(ws: WsV, o: Seq<EnvelopeView>, i: int)
    requires
        0 <= i < o.len(),
        !(o[i].core.payload is CreateWorkspace),
    ensures
        apply_op(ws, o, i).names == ws.names,
{
    match o[i].core.payload {
        PayloadView::EditBlock { document, block, text } => {
            let j = key_find(ws.documents, document);
            if j < ws.documents.len() {
                let d = ws.documents[j].1;
                let p = block_find(d.blocks, block);
                if p < d.blocks.len() {
                    let nd = DocV { title: d.title, blocks: d.blocks.update(p, edit_block(d.blocks[p], o, i, text)) };
                    assert(apply_op(ws, o, i) == with_doc(ws, j, nd));
                }
            }
        },
        PayloadView::RemoveBlock { document, block } => {
            let j = key_find(ws.documents, document);
            if j < ws.documents.len() {
                let d = ws.documents[j].1;
                let p = block_find(d.blocks, block);
                if p < d.blocks.len() {
                    let b = d.blocks[p];
                    let nb = BlockV { id: b.id, text: b.text, removed: true, conflicts: b.conflicts, heads: b.heads };
                    assert(apply_op(ws, o, i) == with_doc(ws, j, DocV { title: d.title, blocks: d.blocks.update(p, nb) }));
                }
            }
        },
        _ => {},
    }
}

/// A workspace keeps the name it was created with: when an operation of the
/// log creates workspace `w` with `name`, and no operation of the log gives
/// `w` another name, the projection names `w` with `name` (given that an id
/// names one operation).
pub proof fn law_workspace_has_its_name(ops: Seq<EnvelopeView>, e: EnvelopeView, w: Seq<char>, name: Seq<char>)
    requires
        ops.contains(e),
        unique_ids(ops),
        e.core.payload == (PayloadView::CreateWorkspace { workspace: w, name }),
        forall|k: int| 0 <= k < ops.len() ==> match (#[trigger] ops[k]).core.payload {
            PayloadView::CreateWorkspace { workspace, name: nm } => workspace == w ==> nm == name,
            _ => true,
        },
    ensures
        key_find(projection(ops).names, w) < projection(ops).names.len(),
        projection(ops).names[key_find(projection(ops).names, w)].1 == name,
{
    lemma_projection_names(ops, e, w, name);
    let o = replay_order(ops);
    lemma_replay_order_from(ops);
    assert forall|k: int| 0 <= k < o.len() implies match (#[trigger] o[k]).core.payload {
        PayloadView::CreateWorkspace { workspace, name: nm } => workspace == w ==> nm == name,
        _ => true,
    } by {
        assert(ops.contains(o[k]));
        let j = choose|j: int| 0 <= j < ops.len() && ops[j] == o[k];
        assert(ops[j] == o[k]);
    }
    lemma_fold_all_named(o, o.len() as int, w, name);
    lemma_key_find_bound(projection(ops).names, w);
}

} // verus!
