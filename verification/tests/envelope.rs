use securenote::envelope::{EnvelopeCore, OperationEnvelope, Payload, ENVELOPE_VERSION};
use securenote::id::{BlockId, DeviceId, DocumentId, OpId, WorkspaceId};
use sha2::{Digest, Sha256};

fn sample_core() -> EnvelopeCore {
    EnvelopeCore {
        v: ENVELOPE_VERSION,
        actor: DeviceId::new("d"),
        parents: vec![],
        authored_ms: 7,
        payload: Payload::CreateWorkspace { workspace: WorkspaceId::new("w"), name: "n".into() },
    }
}

fn hex(bytes: &[u8]) -> String {
    bytes.iter().map(|b| format!("{b:02x}")).collect()
}

#[test]
fn content_id_is_stable() {
    assert_eq!(sample_core().content_id(), sample_core().content_id());
}

#[test]
fn sealed_envelope_verifies() {
    assert!(OperationEnvelope::seal(sample_core()).verify_integrity());
}

#[test]
fn any_mutation_changes_the_id() {
    let id1 = sample_core().content_id();
    let mut c = sample_core();
    c.authored_ms = 8;
    assert_ne!(id1, c.content_id());
}

#[test]
fn bytes_roundtrip() {
    let e = OperationEnvelope::seal(sample_core());
    assert_eq!(OperationEnvelope::from_bytes(&e.to_bytes()), Some(e));
}

#[test]
fn canonical_bytes_are_the_json_of_the_core() {
    let b = sample_core().canonical_bytes();
    assert_eq!(
        String::from_utf8(b).unwrap(),
        r#"{"v":1,"actor":"d","parents":[],"authored_ms":7,"payload":{"CreateWorkspace":{"workspace":"w","name":"n"}}}"#
    );
}

#[test]
fn canonical_bytes_of_every_payload() {
    let mut c = sample_core();
    c.parents = vec![OpId::new("p1"), OpId::new("p2")];
    c.authored_ms = -5;
    c.payload = Payload::InsertBlock {
        document: DocumentId::new("doc"),
        block: BlockId::new("b"),
        after: None,
        text: "a\"b\\c\nd\u{1}é".into(),
    };
    assert_eq!(
        String::from_utf8(c.canonical_bytes()).unwrap(),
        "{\"v\":1,\"actor\":\"d\",\"parents\":[\"p1\",\"p2\"],\"authored_ms\":-5,\"payload\":{\"InsertBlock\":{\"document\":\"doc\",\"block\":\"b\",\"after\":null,\"text\":\"a\\\"b\\\\c\\nd\\u0001é\"}}}"
    );
    c.payload = Payload::InsertBlock {
        document: DocumentId::new("doc"),
        block: BlockId::new("b"),
        after: Some(BlockId::new("a")),
        text: "t".into(),
    };
    assert!(String::from_utf8(c.canonical_bytes()).unwrap().contains("\"after\":\"a\""));
    c.payload = Payload::CreateDocument {
        workspace: WorkspaceId::new("w"),
        document: DocumentId::new("doc"),
        title: "T".into(),
    };
    assert!(String::from_utf8(c.canonical_bytes())
        .unwrap()
        .ends_with("\"payload\":{\"CreateDocument\":{\"workspace\":\"w\",\"document\":\"doc\",\"title\":\"T\"}}}"));
    c.payload = Payload::EditBlock { document: DocumentId::new("doc"), block: BlockId::new("b"), text: "x".into() };
    assert!(String::from_utf8(c.canonical_bytes())
        .unwrap()
        .ends_with("\"payload\":{\"EditBlock\":{\"document\":\"doc\",\"block\":\"b\",\"text\":\"x\"}}}"));
    c.payload = Payload::RemoveBlock { document: DocumentId::new("doc"), block: BlockId::new("b") };
    assert!(String::from_utf8(c.canonical_bytes())
        .unwrap()
        .ends_with("\"payload\":{\"RemoveBlock\":{\"document\":\"doc\",\"block\":\"b\"}}}"));
}

#[test]
fn content_id_is_hex_sha256_of_canonical_bytes() {
    let c = sample_core();
    let expected = hex(&Sha256::digest(c.canonical_bytes()));
    assert_eq!(c.content_id().as_str(), expected);
    assert_eq!(expected.len(), 64);
}

#[test]
fn tampered_envelope_fails_integrity() {
    let mut e = OperationEnvelope::seal(sample_core());
    e.core.authored_ms = 9;
    assert!(!e.verify_integrity());
    let mut f = OperationEnvelope::seal(sample_core());
    f.id = OpId::new("00");
    assert!(!f.verify_integrity());
}

#[test]
fn to_bytes_is_id_then_core() {
    let e = OperationEnvelope::seal(sample_core());
    let text = String::from_utf8(e.to_bytes()).unwrap();
    let core_json = String::from_utf8(sample_core().canonical_bytes()).unwrap();
    assert_eq!(text, format!("{{\"id\":\"{}\",\"core\":{}}}", e.id.as_str(), core_json));
}

#[test]
fn from_bytes_refuses_what_is_not_an_envelope() {
    assert_eq!(OperationEnvelope::from_bytes(b""), None);
    assert_eq!(OperationEnvelope::from_bytes(b"{}"), None);
    assert_eq!(OperationEnvelope::from_bytes(b"not json"), None);
    let e = OperationEnvelope::seal(sample_core());
    let mut b = e.to_bytes();
    b.pop();
    assert_eq!(OperationEnvelope::from_bytes(&b), None);
}

#[test]
fn every_payload_roundtrips_through_bytes() {
    let payloads = vec![
        Payload::CreateDocument { workspace: WorkspaceId::new("w"), document: DocumentId::new("d"), title: "Tï\t".into() },
        Payload::InsertBlock {
            document: DocumentId::new("d"),
            block: BlockId::new("b"),
            after: Some(BlockId::new("a")),
            text: "x\"y".into(),
        },
        Payload::InsertBlock { document: DocumentId::new("d"), block: BlockId::new("b"), after: None, text: "".into() },
        Payload::EditBlock { document: DocumentId::new("d"), block: BlockId::new("b"), text: "\u{7f}\u{1f}".into() },
        Payload::RemoveBlock { document: DocumentId::new("d"), block: BlockId::new("b") },
    ];
    for p in payloads {
        let mut c = sample_core();
        c.payload = p;
        c.authored_ms = i64::MIN;
        c.parents = vec![OpId::new("x")];
        let e = OperationEnvelope::seal(c);
        assert_eq!(OperationEnvelope::from_bytes(&e.to_bytes()), Some(e));
    }
}

#[test]
fn from_bytes_reads_other_json_spellings() {
    let text = "{ \"core\" : { \"payload\": {\"InsertBlock\": {\"text\": \"h\\u00e9\", \"block\": \"b\", \"document\": \"d\"}}, \"extra\": [1, 2], \"authored_ms\": -3, \"parents\": [\"p\"], \"actor\": \"dev\", \"v\": 1 },\n  \"id\": \"abc\" }\n";
    let e = OperationEnvelope::from_bytes(text.as_bytes()).unwrap();
    assert_eq!(e.id, OpId::new("abc"));
    assert_eq!(e.core.v, 1);
    assert_eq!(e.core.actor, DeviceId::new("dev"));
    assert_eq!(e.core.parents, vec![OpId::new("p")]);
    assert_eq!(e.core.authored_ms, -3);
    assert_eq!(
        e.core.payload,
        Payload::InsertBlock { document: DocumentId::new("d"), block: BlockId::new("b"), after: None, text: "hé".into() }
    );
}

#[test]
fn from_bytes_reads_structs_written_as_arrays() {
    let text = r#"["i", [2, "a", [], 0, {"RemoveBlock": ["d", "b"]}]]"#;
    let e = OperationEnvelope::from_bytes(text.as_bytes()).unwrap();
    assert_eq!(e.id, OpId::new("i"));
    assert_eq!(e.core.v, 2);
    assert_eq!(e.core.payload, Payload::RemoveBlock { document: DocumentId::new("d"), block: BlockId::new("b") });
    let short = r#"["i", [2, "a", [], 0]]"#;
    assert_eq!(OperationEnvelope::from_bytes(short.as_bytes()), None);
}

#[test]
fn from_bytes_refuses_wrong_types_and_ranges() {
    let ok = r#"{"id":"i","core":{"v":1,"actor":"a","parents":[],"authored_ms":0,"payload":{"RemoveBlock":{"document":"d","block":"b"}}}}"#;
    assert!(OperationEnvelope::from_bytes(ok.as_bytes()).is_some());
    let cases = [
        r#"{"id":"i","core":{"v":-1,"actor":"a","parents":[],"authored_ms":0,"payload":{"RemoveBlock":{"document":"d","block":"b"}}}}"#,
        r#"{"id":"i","core":{"v":4294967296,"actor":"a","parents":[],"authored_ms":0,"payload":{"RemoveBlock":{"document":"d","block":"b"}}}}"#,
        r#"{"id":"i","core":{"v":1.0,"actor":"a","parents":[],"authored_ms":0,"payload":{"RemoveBlock":{"document":"d","block":"b"}}}}"#,
        r#"{"id":"i","core":{"v":1,"actor":"a","parents":[7],"authored_ms":0,"payload":{"RemoveBlock":{"document":"d","block":"b"}}}}"#,
        r#"{"id":"i","core":{"v":1,"actor":"a","parents":[],"authored_ms":9223372036854775808,"payload":{"RemoveBlock":{"document":"d","block":"b"}}}}"#,
        r#"{"id":"i","core":{"v":1,"actor":"a","parents":[],"authored_ms":0,"payload":{"Remove":{"document":"d","block":"b"}}}}"#,
        r#"{"id":"i","core":{"v":1,"actor":"a","parents":[],"authored_ms":0,"payload":{"RemoveBlock":{"document":"d"}}}}"#,
        r#"{"id":"i","core":{"v":1,"actor":"a","parents":[],"authored_ms":0,"payload":"RemoveBlock"}}"#,
        r#"{"id":7,"core":{"v":1,"actor":"a","parents":[],"authored_ms":0,"payload":{"RemoveBlock":{"document":"d","block":"b"}}}}"#,
    ];
    for c in cases {
        assert_eq!(OperationEnvelope::from_bytes(c.as_bytes()), None, "{c}");
    }
    let min = r#"{"id":"i","core":{"v":4294967295,"actor":"a","parents":[],"authored_ms":-9223372036854775808,"payload":{"RemoveBlock":{"document":"d","block":"b"}}}}"#;
    let e = OperationEnvelope::from_bytes(min.as_bytes()).unwrap();
    assert_eq!(e.core.v, u32::MAX);
    assert_eq!(e.core.authored_ms, i64::MIN);
    assert_eq!(OperationEnvelope::from_bytes(&[0xff, 0xfe]), None);
}
