//! Operation envelopes: every durable change travels as a content-addressed
//! envelope. The id of an envelope is the hex SHA-256 of the canonical JSON
//! bytes of its core, which detects corruption and accidental modification
//! (not forgery: anyone who can rewrite the log can re-seal an operation).

use vstd::prelude::*;
use sha2::{Digest, Sha256};
use crate::hex::{hex_text, to_hex};
use crate::id::{BlockId, DeviceId, DocumentId, OpId, WorkspaceId};
use crate::json::{decimal, json_int, json_string, push_bytes, push_decimal, push_json_int, push_json_string, COMMA, LBRACKET, RBRACE, RBRACKET};

verus! {

/// Current envelope schema version.
pub const ENVELOPE_VERSION: u32 = 1;

/// The mutations the text slice understands.
#[derive(PartialEq, Eq, Debug)]
pub enum Payload {
    CreateWorkspace { workspace: WorkspaceId, name: String },
    CreateDocument { workspace: WorkspaceId, document: DocumentId, title: String },
    /// Insert a block after `after` (`None` = at the document head).
    InsertBlock { document: DocumentId, block: BlockId, after: Option<BlockId>, text: String },
    EditBlock { document: DocumentId, block: BlockId, text: String },
    /// Tombstone a block: history is retained, the projection hides it.
    RemoveBlock { document: DocumentId, block: BlockId },
}

/// The hashed portion of an envelope.
#[derive(PartialEq, Eq, Debug)]
pub struct EnvelopeCore {
    pub v: u32,
    /// Device that authored the operation.
    pub actor: DeviceId,
    /// Causal parents: op ids this operation observed.
    pub parents: Vec<OpId>,
    /// Authored wall-clock millis: provenance only, never ordering truth.
    pub authored_ms: i64,
    pub payload: Payload,
}

#[derive(PartialEq, Eq, Debug)]
pub struct OperationEnvelope {
    pub id: OpId,
    pub core: EnvelopeCore,
}

/// A payload as text values.
pub enum PayloadView {
    CreateWorkspace { workspace: Seq<char>, name: Seq<char> },
    CreateDocument { workspace: Seq<char>, document: Seq<char>, title: Seq<char> },
    InsertBlock { document: Seq<char>, block: Seq<char>, after: Option<Seq<char>>, text: Seq<char> },
    EditBlock { document: Seq<char>, block: Seq<char>, text: Seq<char> },
    RemoveBlock { document: Seq<char>, block: Seq<char> },
}

pub struct CoreView {
    pub v: u32,
    pub actor: Seq<char>,
    pub parents: Seq<Seq<char>>,
    pub authored_ms: i64,
    pub payload: PayloadView,
}

pub struct EnvelopeView {
    pub id: Seq<char>,
    pub core: CoreView,
}

pub open spec fn opt_id_view(o: Option<BlockId>) -> Option<Seq<char>> {
    match o {
        Some(b) => Some(b@),
        None => None,
    }
}

impl View for Payload {
    type V = PayloadView;

    open spec fn view(&self) -> PayloadView {
        match self {
            Payload::CreateWorkspace { workspace, name } =>
                PayloadView::CreateWorkspace { workspace: workspace@, name: name@ },
            Payload::CreateDocument { workspace, document, title } =>
                PayloadView::CreateDocument { workspace: workspace@, document: document@, title: title@ },
            Payload::InsertBlock { document, block, after, text } =>
                PayloadView::InsertBlock { document: document@, block: block@, after: opt_id_view(*after), text: text@ },
            Payload::EditBlock { document, block, text } =>
                PayloadView::EditBlock { document: document@, block: block@, text: text@ },
            Payload::RemoveBlock { document, block } =>
                PayloadView::RemoveBlock { document: document@, block: block@ },
        }
    }
}

pub open spec fn ids_view(ids: Seq<OpId>) -> Seq<Seq<char>> {
    ids.map_values(|p: OpId| p@)
}

impl View for EnvelopeCore {
    type V = CoreView;

    open spec fn view(&self) -> CoreView {
        CoreView {
            v: self.v,
            actor: self.actor@,
            parents: ids_view(self.parents@),
            authored_ms: self.authored_ms,
            payload: self.payload@,
        }
    }
}

impl View for OperationEnvelope {
    type V = EnvelopeView;

    open spec fn view(&self) -> EnvelopeView {
        EnvelopeView { id: self.id@, core: self.core@ }
    }
}

fn clone_opt_block(o: &Option<BlockId>) -> (r: Option<BlockId>)
    ensures
        r == *o,
{
    match o {
        Some(b) => Some(b.clone()),
        None => None,
    }
}

impl Clone for Payload {
    fn clone(&self) -> (r: Self)
        ensures
            r == *self,
    {
        match self {
            Payload::CreateWorkspace { workspace, name } =>
                Payload::CreateWorkspace { workspace: workspace.clone(), name: name.clone() },
            Payload::CreateDocument { workspace, document, title } =>
                Payload::CreateDocument { workspace: workspace.clone(), document: document.clone(), title: title.clone() },
            Payload::InsertBlock { document, block, after, text } =>
                Payload::InsertBlock { document: document.clone(), block: block.clone(), after: clone_opt_block(after), text: text.clone() },
            Payload::EditBlock { document, block, text } =>
                Payload::EditBlock { document: document.clone(), block: block.clone(), text: text.clone() },
            Payload::RemoveBlock { document, block } =>
                Payload::RemoveBlock { document: document.clone(), block: block.clone() },
        }
    }
}

pub fn clone_ids(ids: &Vec<OpId>) -> (r: Vec<OpId>)
    ensures
        r@ == ids@,
{
    let mut out: Vec<OpId> = Vec::new();
    let n = ids.len();
    for i in 0..n
        invariant
            n == ids@.len(),
            out@ == ids@.subrange(0, i as int),
    {
        out.push(ids[i].clone());
        assert(out@ =~= ids@.subrange(0, i + 1));
    }
    assert(ids@.subrange(0, n as int) =~= ids@);
    out
}

impl Clone for EnvelopeCore {
    fn clone(&self) -> (r: Self)
        ensures
            r@ == self@,
            r.v == self.v,
            r.actor == self.actor,
            r.parents@ == self.parents@,
            r.authored_ms == self.authored_ms,
            r.payload == self.payload,
    {
        EnvelopeCore {
            v: self.v,
            actor: self.actor.clone(),
            parents: clone_ids(&self.parents),
            authored_ms: self.authored_ms,
            payload: self.payload.clone(),
        }
    }
}

impl Clone for OperationEnvelope {
    fn clone(&self) -> (r: Self)
        ensures
            r@ == self@,
            r.id == self.id,
    {
        OperationEnvelope { id: self.id.clone(), core: self.core.clone() }
    }
}

/// `{"v":`
pub open spec fn k_v() -> Seq<u8> {
    seq![123u8, 34, 118, 34, 58]
}

/// `,"actor":`
pub open spec fn k_actor() -> Seq<u8> {
    seq![44u8, 34, 97, 99, 116, 111, 114, 34, 58]
}

/// `,"parents":`
pub open spec fn k_parents() -> Seq<u8> {
    seq![44u8, 34, 112, 97, 114, 101, 110, 116, 115, 34, 58]
}

/// `,"authored_ms":`
pub open spec fn k_authored() -> Seq<u8> {
    seq![44u8, 34, 97, 117, 116, 104, 111, 114, 101, 100, 95, 109, 115, 34, 58]
}

/// `,"payload":`
pub open spec fn k_payload() -> Seq<u8> {
    seq![44u8, 34, 112, 97, 121, 108, 111, 97, 100, 34, 58]
}

/// `{"id":`
pub open spec fn k_id() -> Seq<u8> {
    seq![123u8, 34, 105, 100, 34, 58]
}

/// `,"core":`
pub open spec fn k_core() -> Seq<u8> {
    seq![44u8, 34, 99, 111, 114, 101, 34, 58]
}

/// `{"CreateWorkspace":{"workspace":`
pub open spec fn t_create_ws() -> Seq<u8> {
    seq![123u8, 34, 67, 114, 101, 97, 116, 101, 87, 111, 114, 107, 115, 112, 97, 99, 101, 34, 58, 123, 34, 119, 111, 114, 107, 115, 112, 97, 99, 101, 34, 58]
}

/// `,"name":`
pub open spec fn k_name() -> Seq<u8> {
    seq![44u8, 34, 110, 97, 109, 101, 34, 58]
}

/// `{"CreateDocument":{"workspace":`
pub open spec fn t_create_doc() -> Seq<u8> {
    seq![123u8, 34, 67, 114, 101, 97, 116, 101, 68, 111, 99, 117, 109, 101, 110, 116, 34, 58, 123, 34, 119, 111, 114, 107, 115, 112, 97, 99, 101, 34, 58]
}

/// `,"document":`
pub open spec fn k_document() -> Seq<u8> {
    seq![44u8, 34, 100, 111, 99, 117, 109, 101, 110, 116, 34, 58]
}

/// `,"title":`
pub open spec fn k_title() -> Seq<u8> {
    seq![44u8, 34, 116, 105, 116, 108, 101, 34, 58]
}

/// `{"InsertBlock":{"document":`
pub open spec fn t_insert() -> Seq<u8> {
    seq![123u8, 34, 73, 110, 115, 101, 114, 116, 66, 108, 111, 99, 107, 34, 58, 123, 34, 100, 111, 99, 117, 109, 101, 110, 116, 34, 58]
}

/// `,"block":`
pub open spec fn k_block() -> Seq<u8> {
    seq![44u8, 34, 98, 108, 111, 99, 107, 34, 58]
}

/// `,"after":`
pub open spec fn k_after() -> Seq<u8> {
    seq![44u8, 34, 97, 102, 116, 101, 114, 34, 58]
}

/// `,"text":`
pub open spec fn k_text() -> Seq<u8> {
    seq![44u8, 34, 116, 101, 120, 116, 34, 58]
}

/// `{"EditBlock":{"document":`
pub open spec fn t_edit() -> Seq<u8> {
    seq![123u8, 34, 69, 100, 105, 116, 66, 108, 111, 99, 107, 34, 58, 123, 34, 100, 111, 99, 117, 109, 101, 110, 116, 34, 58]
}

/// `{"RemoveBlock":{"document":`
pub open spec fn t_remove() -> Seq<u8> {
    seq![123u8, 34, 82, 101, 109, 111, 118, 101, 66, 108, 111, 99, 107, 34, 58, 123, 34, 100, 111, 99, 117, 109, 101, 110, 116, 34, 58]
}

/// `null`
pub open spec fn null() -> Seq<u8> {
    seq![110u8, 117, 108, 108]
}

/// `}}`
pub open spec fn close2() -> Seq<u8> {
    seq![125u8, 125]
}

/// The JSON string, or `null`, for an optional id.
pub open spec fn json_opt_string(o: Option<Seq<char>>) -> Seq<u8> {
    match o {
        Some(s) => json_string(s),
        None => null(),
    }
}

/// The items of a JSON array of strings, comma separated.
pub open spec fn json_list_items(items: Seq<Seq<char>>) -> Seq<u8>
    decreases items.len(),
{
    if items.len() == 0 {
        seq![]
    } else if items.len() == 1 {
        json_string(items[0])
    } else {
        json_string(items[0]) + seq![COMMA] + json_list_items(items.drop_first())
    }
}

pub proof fn lemma_list_items_push(items: Seq<Seq<char>>, s: Seq<char>)
    requires
        items.len() >= 1,
    ensures
        json_list_items(items.push(s)) == json_list_items(items) + seq![COMMA] + json_string(s),
    decreases items.len(),
{
    let p = items.push(s);
    if items.len() == 1 {
        assert(p.drop_first() =~= seq![s]);
        assert(json_list_items(seq![s]) == json_string(s));
    } else {
        assert(p.drop_first() =~= items.drop_first().push(s));
        lemma_list_items_push(items.drop_first(), s);
        assert(json_list_items(p) =~= json_list_items(items) + seq![COMMA] + json_string(s));
    }
}

/// A JSON array of strings.
pub open spec fn json_list(items: Seq<Seq<char>>) -> Seq<u8> {
    seq![LBRACKET] + json_list_items(items) + seq![RBRACKET]
}

/// Canonical JSON of a payload: externally tagged, fields in order.
pub open spec fn encode_payload(p: PayloadView) -> Seq<u8> {
    match p {
        PayloadView::CreateWorkspace { workspace, name } =>
            (t_create_ws() + json_string(workspace)) + (k_name() + json_string(name)) + close2(),
        PayloadView::CreateDocument { workspace, document, title } =>
            (t_create_doc() + json_string(workspace)) + (k_document() + json_string(document)) + (k_title()
                + json_string(title)) + close2(),
        PayloadView::InsertBlock { document, block, after, text } =>
            (t_insert() + json_string(document)) + (k_block() + json_string(block)) + (k_after()
                + json_opt_string(after)) + (k_text() + json_string(text)) + close2(),
        PayloadView::EditBlock { document, block, text } =>
            (t_edit() + json_string(document)) + (k_block() + json_string(block)) + (k_text() + json_string(text))
                + close2(),
        PayloadView::RemoveBlock { document, block } =>
            (t_remove() + json_string(document)) + (k_block() + json_string(block)) + close2(),
    }
}

/// Canonical JSON bytes of an envelope core (the hashed portion).
pub open spec fn encode_core(c: CoreView) -> Seq<u8> {
    (k_v() + decimal(c.v as nat)) + (k_actor() + json_string(c.actor)) + (k_parents() + json_list(c.parents))
        + (k_authored() + json_int(c.authored_ms as int)) + (k_payload() + encode_payload(c.payload)) + seq![RBRACE]
}

/// Canonical JSON bytes of a whole envelope.
pub open spec fn encode_envelope(e: EnvelopeView) -> Seq<u8> {
    (k_id() + json_string(e.id)) + (k_core() + encode_core(e.core)) + seq![RBRACE]
}

/// SHA-256 of a byte string (32 bytes).
pub uninterp spec fn sha256(data: Seq<u8>) -> Seq<u8>;

/// The content id of a core: hex SHA-256 of its canonical bytes.
pub open spec fn content_id_of(c: CoreView) -> Seq<char> {
    hex_text(sha256(encode_core(c)))
}

/// The stored id matches a fresh hash of the core.
pub open spec fn intact(e: EnvelopeView) -> bool {
    e.id == content_id_of(e.core)
}

/// `Sha256::digest`: the 32-byte SHA-256 digest of `data`.
#[verifier::external_body]
fn sha256_digest(data: &[u8]) -> (d: [u8; 32])
    ensures
        d@ == sha256(data@),
{
    Sha256::digest(data).into()
}

fn push_opt_string(out: &mut Vec<u8>, o: &Option<BlockId>)
    ensures
        final(out)@ == old(out)@ + json_opt_string(opt_id_view(*o)),
{
    match o {
        Some(b) => push_json_string(out, b.as_str()),
        None => push_bytes(out, &[110u8, 117, 108, 108]),
    }
}

fn push_list(out: &mut Vec<u8>, ids: &Vec<OpId>)
    ensures
        final(out)@ == old(out)@ + json_list(ids_view(ids@)),
{
    let ghost start = out@;
    let ghost items = ids_view(ids@);
    out.push(LBRACKET);
    let n = ids.len();
    for i in 0..n
        invariant
            n == ids@.len(),
            items == ids_view(ids@),
            out@ == start + seq![LBRACKET] + json_list_items(items.subrange(0, i as int)),
    {
        let ghost pre = items.subrange(0, i as int);
        let ghost next = items.subrange(0, i + 1);
        assert(pre.push(ids@[i as int]@) =~= next);
        if i > 0 {
            out.push(COMMA);
        }
        push_json_string(out, ids[i].as_str());
        proof {
            if i == 0 {
                assert(pre.len() == 0);
                assert(json_list_items(pre) =~= Seq::<u8>::empty());
                assert(json_list_items(next) == json_string(next[0]));
            } else {
                lemma_list_items_push(pre, ids@[i as int]@);
            }
        }
        assert(out@ =~= start + seq![LBRACKET] + json_list_items(next));
    }
    assert(items.subrange(0, n as int) =~= items);
    out.push(RBRACKET);
    assert(out@ =~= start + json_list(items));
}

fn push_payload(out: &mut Vec<u8>, p: &Payload)
    ensures
        final(out)@ == old(out)@ + encode_payload(p@),
{
    let ghost start = out@;
    match p {
        Payload::CreateWorkspace { workspace, name } => {
            push_bytes(out, &[123u8, 34, 67, 114, 101, 97, 116, 101, 87, 111, 114, 107, 115, 112, 97, 99, 101, 34, 58, 123, 34, 119, 111, 114, 107, 115, 112, 97, 99, 101, 34, 58]);
            push_json_string(out, workspace.as_str());
            push_bytes(out, &[44u8, 34, 110, 97, 109, 101, 34, 58]);
            push_json_string(out, name.as_str());
            push_bytes(out, &[125u8, 125]);
        },
        Payload::CreateDocument { workspace, document, title } => {
            push_bytes(out, &[123u8, 34, 67, 114, 101, 97, 116, 101, 68, 111, 99, 117, 109, 101, 110, 116, 34, 58, 123, 34, 119, 111, 114, 107, 115, 112, 97, 99, 101, 34, 58]);
            push_json_string(out, workspace.as_str());
            push_bytes(out, &[44u8, 34, 100, 111, 99, 117, 109, 101, 110, 116, 34, 58]);
            push_json_string(out, document.as_str());
            push_bytes(out, &[44u8, 34, 116, 105, 116, 108, 101, 34, 58]);
            push_json_string(out, title.as_str());
            push_bytes(out, &[125u8, 125]);
        },
        Payload::InsertBlock { document, block, after, text } => {
            push_bytes(out, &[123u8, 34, 73, 110, 115, 101, 114, 116, 66, 108, 111, 99, 107, 34, 58, 123, 34, 100, 111, 99, 117, 109, 101, 110, 116, 34, 58]);
            push_json_string(out, document.as_str());
            push_bytes(out, &[44u8, 34, 98, 108, 111, 99, 107, 34, 58]);
            push_json_string(out, block.as_str());
            push_bytes(out, &[44u8, 34, 97, 102, 116, 101, 114, 34, 58]);
            push_opt_string(out, after);
            push_bytes(out, &[44u8, 34, 116, 101, 120, 116, 34, 58]);
            push_json_string(out, text.as_str());
            push_bytes(out, &[125u8, 125]);
        },
        Payload::EditBlock { document, block, text } => {
            push_bytes(out, &[123u8, 34, 69, 100, 105, 116, 66, 108, 111, 99, 107, 34, 58, 123, 34, 100, 111, 99, 117, 109, 101, 110, 116, 34, 58]);
            push_json_string(out, document.as_str());
            push_bytes(out, &[44u8, 34, 98, 108, 111, 99, 107, 34, 58]);
            push_json_string(out, block.as_str());
            push_bytes(out, &[44u8, 34, 116, 101, 120, 116, 34, 58]);
            push_json_string(out, text.as_str());
            push_bytes(out, &[125u8, 125]);
        },
        Payload::RemoveBlock { document, block } => {
            push_bytes(out, &[123u8, 34, 82, 101, 109, 111, 118, 101, 66, 108, 111, 99, 107, 34, 58, 123, 34, 100, 111, 99, 117, 109, 101, 110, 116, 34, 58]);
            push_json_string(out, document.as_str());
            push_bytes(out, &[44u8, 34, 98, 108, 111, 99, 107, 34, 58]);
            push_json_string(out, block.as_str());
            push_bytes(out, &[125u8, 125]);
        },
    }
    assert(out@ =~= start + encode_payload(p@));
}

fn push_core(out: &mut Vec<u8>, c: &EnvelopeCore)
    ensures
        final(out)@ == old(out)@ + encode_core(c@),
{
    let ghost start = out@;
    push_bytes(out, &[123u8, 34, 118, 34, 58]);
    push_decimal(out, c.v as u64);
    push_bytes(out, &[44u8, 34, 97, 99, 116, 111, 114, 34, 58]);
    push_json_string(out, c.actor.as_str());
    push_bytes(out, &[44u8, 34, 112, 97, 114, 101, 110, 116, 115, 34, 58]);
    push_list(out, &c.parents);
    push_bytes(out, &[44u8, 34, 97, 117, 116, 104, 111, 114, 101, 100, 95, 109, 115, 34, 58]);
    push_json_int(out, c.authored_ms);
    push_bytes(out, &[44u8, 34, 112, 97, 121, 108, 111, 97, 100, 34, 58]);
    push_payload(out, &c.payload);
    out.push(RBRACE);
    assert(out@ =~= start + encode_core(c@));
}

impl EnvelopeCore {
    /// Deterministic canonical bytes of the hashed portion.
    pub fn canonical_bytes(&self) -> (b: Vec<u8>)
        ensures
            b@ == encode_core(self@),
    {
        let mut out: Vec<u8> = Vec::new();
        push_core(&mut out, self);
        assert(out@ =~= encode_core(self@));
        out
    }

    /// Content id = hex SHA-256 over the canonical bytes.
    pub fn content_id(&self) -> (id: OpId)
        ensures
            id@ == content_id_of(self@),
            id@.len() == 64,
    {
        let bytes = self.canonical_bytes();
        let digest = sha256_digest(bytes.as_slice());
        let id = OpId(to_hex(&digest));
        assert(hex_text(digest@).len() == 2 * digest@.len());
        id
    }
}

impl OperationEnvelope {
    /// Seal a core into an envelope, deriving its content id.
    pub fn seal(core: EnvelopeCore) -> (e: OperationEnvelope)
        ensures
            e.core == core,
            e@ == (EnvelopeView { id: content_id_of(core@), core: core@ }),
            intact(e@),
    {
        let id = core.content_id();
        OperationEnvelope { id, core }
    }

    /// True iff the stored id matches a fresh hash of the core.
    pub fn verify_integrity(&self) -> (ok: bool)
        ensures
            ok == intact(self@),
    {
        let fresh = self.core.content_id();
        fresh.0 == self.id.0
    }

    /// Canonical JSON bytes of the full envelope, for sync transport.
    pub fn to_bytes(&self) -> (b: Vec<u8>)
        ensures
            b@ == encode_envelope(self@),
    {
        let mut out: Vec<u8> = Vec::new();
        let ghost start = out@;
        push_bytes(&mut out, &[123u8, 34, 105, 100, 34, 58]);
        push_json_string(&mut out, self.id.as_str());
        push_bytes(&mut out, &[44u8, 34, 99, 111, 114, 101, 34, 58]);
        push_core(&mut out, &self.core);
        out.push(RBRACE);
        assert(out@ =~= encode_envelope(self@));
        out
    }
}

} // verus!
