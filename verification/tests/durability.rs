use securenote::crypto::SymKey;
use securenote::document::replay;
use securenote::envelope::{EnvelopeCore, OperationEnvelope, Payload, ENVELOPE_VERSION};
use securenote::id::{BlockId, DeviceId, DocumentId, OpId, WorkspaceId};
use securenote::store::{LocalStore, StoreError};

/// Fixed key so reopening the same store in a test uses the same key.
fn test_key() -> SymKey {
    SymKey::from_bytes([7u8; 32])
}

fn empty_store(key: SymKey) -> LocalStore {
    match LocalStore::open(key, vec![], vec![]) {
        Ok(s) => s,
        Err(_) => panic!("an empty store opens"),
    }
}

/// Reopen a store from the lines of its two logs, as they would stand on disk.
fn reopen(s: &LocalStore, key: SymKey) -> Result<LocalStore, StoreError> {
    LocalStore::open(key, s.op_log_lines().to_vec(), s.ack_log_lines().to_vec())
}

fn open_ok(r: Result<LocalStore, StoreError>) -> LocalStore {
    match r {
        Ok(s) => s,
        Err(e) => panic!("store did not open: {}", e.message()),
    }
}

fn open_err(r: Result<LocalStore, StoreError>) -> StoreError {
    match r {
        Ok(_) => panic!("store opened"),
        Err(e) => e,
    }
}

/// A single parentless op (for cases where causality is irrelevant).
fn op(payload: Payload) -> OperationEnvelope {
    OperationEnvelope::seal(EnvelopeCore {
        v: ENVELOPE_VERSION,
        actor: DeviceId::new("dev-a"),
        parents: vec![],
        authored_ms: 0,
        payload,
    })
}

/// Build a causal chain (each op's parent is the previous op).
fn chain(payloads: Vec<Payload>) -> Vec<OperationEnvelope> {
    let mut out: Vec<OperationEnvelope> = Vec::new();
    let mut parents: Vec<OpId> = vec![];
    for (i, payload) in payloads.into_iter().enumerate() {
        let e = OperationEnvelope::seal(EnvelopeCore {
            v: ENVELOPE_VERSION,
            actor: DeviceId::new("dev-a"),
            parents: parents.clone(),
            authored_ms: i as i64,
            payload,
        });
        parents = vec![e.id.clone()];
        out.push(e);
    }
    out
}

fn sample_ops() -> Vec<OperationEnvelope> {
    let ws = WorkspaceId::new("ws1");
    let doc = DocumentId::new("doc1");
    let b1 = BlockId::new("b1");
    let b2 = BlockId::new("b2");
    chain(vec![
        Payload::CreateWorkspace { workspace: ws.clone(), name: "Home".into() },
        Payload::CreateDocument { workspace: ws, document: doc.clone(), title: "Note".into() },
        Payload::InsertBlock { document: doc.clone(), block: b1.clone(), after: None, text: "hello".into() },
        Payload::InsertBlock { document: doc.clone(), block: b2, after: Some(b1.clone()), text: "world".into() },
        Payload::EditBlock { document: doc, block: b1, text: "HELLO".into() },
    ])
}

#[test]
fn local_save_survives_reopen() {
    let ops = sample_ops();
    let mut s = empty_store(test_key());
    for o in &ops {
        assert!(s.commit(o).unwrap());
    }
    let s2 = open_ok(reopen(&s, test_key()));
    assert_eq!(s2.ops().len(), ops.len());

    let state = replay(s2.ops());
    let doc = state.documents.get(&DocumentId::new("doc1")).unwrap();
    assert_eq!(doc.title, "Note");
    let visible: Vec<&str> = doc.blocks.iter().filter(|b| !b.removed).map(|b| b.text.as_str()).collect();
    assert_eq!(visible, vec!["HELLO", "world"]);
}

#[test]
fn replay_is_convergent_regardless_of_order() {
    let ops = sample_ops();
    let mut shuffled: Vec<OperationEnvelope> = ops.clone();
    shuffled.reverse();
    assert_eq!(replay(&ops), replay(&shuffled));
}

#[test]
fn concurrent_edits_preserved_as_conflict() {
    let doc = DocumentId::new("d");
    let b = BlockId::new("b");
    let base = chain(vec![
        Payload::CreateDocument { workspace: WorkspaceId::new("w"), document: doc.clone(), title: "t".into() },
        Payload::InsertBlock { document: doc.clone(), block: b.clone(), after: None, text: "base".into() },
    ]);
    let insert_id = base[1].id.clone();
    let edit = |actor: &str, ms: i64, text: &str| {
        OperationEnvelope::seal(EnvelopeCore {
            v: ENVELOPE_VERSION,
            actor: DeviceId::new(actor),
            parents: vec![insert_id.clone()],
            authored_ms: ms,
            payload: Payload::EditBlock { document: doc.clone(), block: b.clone(), text: text.into() },
        })
    };
    let mut ops = base.clone();
    ops.push(edit("dev-a", 10, "from-A"));
    ops.push(edit("dev-b", 11, "from-B"));

    let state = replay(&ops);
    let blk = &state.documents.get(&doc).unwrap().blocks[0];
    let mut values = vec![blk.text.clone()];
    values.extend(blk.conflicts.clone());
    values.sort();
    assert_eq!(values, vec!["from-A".to_string(), "from-B".to_string()]);
    assert!(!blk.removed, "a surviving edit keeps the block visible");
}

#[test]
fn outbox_is_distinct_from_durability() {
    let ops = sample_ops();
    let mut s = empty_store(test_key());
    for o in &ops {
        s.commit(o).unwrap();
    }
    assert_eq!(s.outbox_len(), ops.len());

    s.mark_acked(&ops[0].id).unwrap();
    assert_eq!(s.outbox_len(), ops.len() - 1);
    assert_eq!(s.ops().len(), ops.len(), "ack must not touch durable history");

    let s2 = open_ok(reopen(&s, test_key()));
    assert_eq!(s2.outbox_len(), ops.len() - 1, "ack must persist");
}

#[test]
fn commit_is_idempotent() {
    let o = op(Payload::CreateWorkspace { workspace: WorkspaceId::new("w"), name: "x".into() });
    let mut s = empty_store(test_key());
    assert!(s.commit(&o).unwrap());
    assert!(!s.commit(&o).unwrap());
    assert_eq!(s.ops().len(), 1);
}

#[test]
fn no_plaintext_at_rest() {
    let mut s = empty_store(test_key());
    for o in &sample_ops() {
        s.commit(o).unwrap();
    }
    let raw = s.op_log_lines().join("\n").into_bytes();
    for needle in [&b"Home"[..], b"hello", b"HELLO", b"world", b"Note"] {
        assert!(!raw.windows(needle.len()).any(|w| w == needle), "plaintext leaked at rest");
    }
}

#[test]
fn wrong_key_cannot_open_store() {
    let mut s = empty_store(SymKey::from_bytes([1u8; 32]));
    for o in &sample_ops() {
        s.commit(o).unwrap();
    }
    let err = open_err(reopen(&s, SymKey::from_bytes([2u8; 32])));
    assert!(matches!(err, StoreError::Corruption(_)));
}

#[test]
fn tamper_is_detected_on_reopen() {
    let ops = sample_ops();
    let mut s = empty_store(test_key());
    for o in &ops {
        s.commit(o).unwrap();
    }
    let mut lines: Vec<String> = s.op_log_lines().to_vec();
    let mut chars: Vec<char> = lines[0].chars().collect();
    let pos = chars.len() / 2;
    chars[pos] = if chars[pos] == 'a' { 'b' } else { 'a' };
    lines[0] = chars.into_iter().collect();

    let err = open_err(LocalStore::open(test_key(), lines, vec![]));
    assert!(matches!(err, StoreError::Corruption(_)));
}

#[test]
fn torn_final_write_is_tolerated() {
    let ops = sample_ops();
    let mut s = empty_store(test_key());
    for o in &ops {
        s.commit(o).unwrap();
    }
    let mut lines: Vec<String> = s.op_log_lines().to_vec();
    lines.push("deadbeef".to_string()); // truncated final line

    let s2 = open_ok(LocalStore::open(test_key(), lines, vec![]));
    assert_eq!(s2.ops().len(), ops.len());
}

#[test]
fn tombstone_retains_history() {
    let doc = DocumentId::new("d");
    let b = BlockId::new("b");
    let ops = chain(vec![
        Payload::CreateDocument { workspace: WorkspaceId::new("w"), document: doc.clone(), title: "t".into() },
        Payload::InsertBlock { document: doc.clone(), block: b.clone(), after: None, text: "keep-me".into() },
        Payload::RemoveBlock { document: doc.clone(), block: b },
    ]);
    let state = replay(&ops);
    let d = state.documents.get(&doc).unwrap();
    assert_eq!(d.blocks.len(), 1, "history retained");
    assert!(d.blocks[0].removed, "but hidden from the live projection");
}

// ---------------------------------------------------------------------------

#[test]
fn torn_line_is_dropped_and_later_commits_survive() {
    let ops = sample_ops();
    let mut s = empty_store(test_key());
    s.commit(&ops[0]).unwrap();
    let mut lines: Vec<String> = s.op_log_lines().to_vec();
    lines.push("deadbeef".to_string());
    let mut s2 = open_ok(LocalStore::open(test_key(), lines, vec![]));
    assert_eq!(s2.op_log_lines().len(), 1, "the torn line is not kept");
    s2.commit(&ops[1]).unwrap();
    let s3 = open_ok(reopen(&s2, test_key()));
    assert_eq!(s3.ops().len(), 2);
}

#[test]
fn a_bad_line_before_the_end_is_corruption() {
    let ops = sample_ops();
    let mut s = empty_store(test_key());
    for o in &ops[..2] {
        s.commit(o).unwrap();
    }
    let mut lines: Vec<String> = s.op_log_lines().to_vec();
    lines.insert(1, "deadbeef".to_string());
    let err = open_err(LocalStore::open(test_key(), lines, vec![]));
    match err {
        StoreError::Corruption(m) => assert_eq!(m, "parse error at line 2"),
        StoreError::Io(_) => panic!("not an io error"),
    }
}

#[test]
fn a_forged_envelope_line_is_an_integrity_error() {
    let key = test_key();
    let mut forged = op(Payload::CreateWorkspace { workspace: WorkspaceId::new("w"), name: "x".into() });
    forged.id = OpId::new("00");
    let line = key.seal_line(&forged.to_bytes());
    let err = open_err(LocalStore::open(key, vec![line], vec![]));
    match err {
        StoreError::Corruption(m) => assert_eq!(m, "integrity mismatch at line 1"),
        StoreError::Io(_) => panic!("not an io error"),
    }
    assert_eq!(
        StoreError::Corruption("integrity mismatch at line 1".into()).message(),
        "store corruption: integrity mismatch at line 1"
    );
    assert_eq!(StoreError::Io("disk full".into()).message(), "io error: disk full");
}

#[test]
fn blank_and_duplicate_lines_are_skipped() {
    let ops = sample_ops();
    let key = test_key();
    let line0 = key.seal_line(&ops[0].to_bytes());
    let line0_again = key.seal_line(&ops[0].to_bytes());
    assert_ne!(line0, line0_again, "a fresh nonce each time");
    let line1 = key.seal_line(&ops[1].to_bytes());
    let s = open_ok(LocalStore::open(key, vec![line0, "   ".into(), line0_again, line1], vec![]));
    assert_eq!(s.ops().len(), 2);
    assert_eq!(s.ops()[0], ops[0]);
    assert_eq!(s.ops()[1], ops[1]);
}

#[test]
fn refusing_a_bad_envelope_changes_nothing() {
    let mut s = empty_store(test_key());
    let mut bad = op(Payload::CreateWorkspace { workspace: WorkspaceId::new("w"), name: "x".into() });
    bad.core.authored_ms = 1;
    assert!(matches!(s.commit(&bad), Err(StoreError::Corruption(_))));
    assert_eq!(s.ops().len(), 0);
    assert!(s.op_log_lines().is_empty());
}

#[test]
fn acks_are_read_trimmed_and_once() {
    let ops = sample_ops();
    let mut s = empty_store(test_key());
    for o in &ops {
        s.commit(o).unwrap();
    }
    let acks = vec![
        format!("  {}  ", ops[0].id.as_str()),
        String::new(),
        ops[0].id.as_str().to_string(),
        ops[2].id.as_str().to_string(),
    ];
    let s2 = open_ok(LocalStore::open(test_key(), s.op_log_lines().to_vec(), acks));
    assert_eq!(s2.outbox_len(), ops.len() - 2);
    let out: Vec<&OpId> = s2.outbox().iter().map(|e| &e.id).collect();
    assert_eq!(out, vec![&ops[1].id, &ops[3].id, &ops[4].id]);
}

#[test]
fn marking_twice_writes_one_ack_line() {
    let ops = sample_ops();
    let mut s = empty_store(test_key());
    s.commit(&ops[0]).unwrap();
    s.mark_acked(&ops[0].id).unwrap();
    s.mark_acked(&ops[0].id).unwrap();
    assert_eq!(s.ack_log_lines().len(), 1);
    assert_eq!(s.ack_log_lines()[0], ops[0].id.as_str());
    assert_eq!(s.outbox_len(), 0);
    assert!(s.outbox().is_empty());
}

#[test]
fn a_single_unreadable_line_reads_as_a_torn_write() {
    let mut s = empty_store(SymKey::from_bytes([1u8; 32]));
    s.commit(&op(Payload::CreateWorkspace { workspace: WorkspaceId::new("w"), name: "n".into() })).unwrap();
    let other = open_ok(reopen(&s, SymKey::from_bytes([2u8; 32])));
    assert_eq!(other.ops().len(), 0);
    assert_eq!(other.op_log_lines().len(), 0);
}

/// An op that names the head of a chain as its parent.
fn following(ops: &[OperationEnvelope], payload: Payload) -> OperationEnvelope {
    OperationEnvelope::seal(EnvelopeCore {
        v: ENVELOPE_VERSION,
        actor: DeviceId::new("dev-b"),
        parents: vec![ops[ops.len() - 1].id.clone()],
        authored_ms: 99,
        payload,
    })
}

#[test]
fn a_following_insert_lands_where_its_anchor_says() {
    let doc = DocumentId::new("d");
    let base = chain(vec![
        Payload::CreateDocument { workspace: WorkspaceId::new("w"), document: doc.clone(), title: "t".into() },
        Payload::InsertBlock { document: doc.clone(), block: BlockId::new("a"), after: None, text: "A".into() },
        Payload::InsertBlock { document: doc.clone(), block: BlockId::new("c"), after: Some(BlockId::new("a")), text: "C".into() },
    ]);
    let ids = |ops: &[OperationEnvelope]| -> Vec<String> {
        replay(ops).documents.get(&doc).unwrap().blocks.iter().map(|b| b.id.as_str().to_string()).collect()
    };
    assert_eq!(ids(&base), vec!["a", "c"]);
    let cases = [
        (None, vec!["h", "a", "c"]),
        (Some(BlockId::new("a")), vec!["a", "h", "c"]),
        (Some(BlockId::new("zz")), vec!["a", "c", "h"]),
    ];
    for (after, want) in cases {
        let x = following(&base, Payload::InsertBlock { document: doc.clone(), block: BlockId::new("h"), after, text: "H".into() });
        let mut ops = base.clone();
        ops.push(x);
        assert_eq!(ids(&ops), want);
    }
    let fresh = following(&base, Payload::InsertBlock { document: DocumentId::new("n"), block: BlockId::new("b"), after: None, text: "B".into() });
    let mut ops = base.clone();
    ops.push(fresh);
    let state = replay(&ops);
    assert_eq!(state.documents.get(&DocumentId::new("n")).unwrap().title, "");
    assert_eq!(state.documents.get(&doc), replay(&base).documents.get(&doc));
}

#[test]
fn a_following_removal_only_tombstones() {
    let doc = DocumentId::new("d");
    let base = chain(vec![
        Payload::CreateDocument { workspace: WorkspaceId::new("w"), document: doc.clone(), title: "t".into() },
        Payload::InsertBlock { document: doc.clone(), block: BlockId::new("a"), after: None, text: "A".into() },
    ]);
    let x = following(&base, Payload::RemoveBlock { document: doc.clone(), block: BlockId::new("a") });
    let mut ops = base.clone();
    ops.push(x);
    let state = replay(&ops);
    let blocks = &state.documents.get(&doc).unwrap().blocks;
    assert_eq!(blocks.len(), 1);
    assert_eq!(blocks[0].text, "A");
    assert!(blocks[0].removed);
    let unknown = following(&base, Payload::RemoveBlock { document: doc.clone(), block: BlockId::new("zz") });
    let mut ops = base.clone();
    ops.push(unknown);
    assert_eq!(replay(&ops), replay(&base));
}

#[test]
fn editing_or_removing_an_unknown_block_changes_nothing() {
    let base = sample_ops();
    let strays = [
        Payload::EditBlock { document: DocumentId::new("doc1"), block: BlockId::new("nope"), text: "x".into() },
        Payload::RemoveBlock { document: DocumentId::new("doc1"), block: BlockId::new("nope") },
        Payload::EditBlock { document: DocumentId::new("ghost"), block: BlockId::new("b"), text: "x".into() },
        Payload::RemoveBlock { document: DocumentId::new("ghost"), block: BlockId::new("b") },
    ];
    for p in strays {
        let mut ops = base.clone();
        ops.insert(0, op(p));
        let state = replay(&ops);
        assert_eq!(state, replay(&base));
        assert!(state.documents.get(&DocumentId::new("ghost")).is_none());
    }
}
