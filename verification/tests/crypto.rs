use securenote::crypto::SymKey;
use securenote::hex::{from_hex, to_hex};

#[test]
fn seal_open_roundtrip() {
    let k = SymKey::generate();
    let pt = b"secret note text";
    assert_eq!(k.open(&k.seal(pt)).as_deref(), Some(&pt[..]));
}

#[test]
fn wrong_key_fails() {
    let sealed = SymKey::from_bytes([1u8; 32]).seal(b"x");
    assert!(SymKey::from_bytes([2u8; 32]).open(&sealed).is_none());
}

#[test]
fn tamper_fails_auth() {
    let k = SymKey::from_bytes([3u8; 32]);
    let mut sealed = k.seal(b"payload");
    let last = sealed.len() - 1;
    sealed[last] ^= 0x01;
    assert!(k.open(&sealed).is_none());
}

#[test]
fn derive_is_deterministic_and_separated() {
    let root = SymKey::from_bytes([9u8; 32]);
    assert_eq!(root.derive(b"a").as_bytes(), root.derive(b"a").as_bytes());
    assert_ne!(root.derive(b"a").as_bytes(), root.derive(b"b").as_bytes());
    assert_ne!(root.derive(b"a").as_bytes(), root.as_bytes());
}

#[test]
fn nonce_is_fresh_each_seal() {
    let k = SymKey::from_bytes([4u8; 32]);
    assert_ne!(k.seal(b"same"), k.seal(b"same"));
}

#[test]
fn hex_line_roundtrip() {
    let k = SymKey::from_bytes([5u8; 32]);
    assert_eq!(k.open_line(&k.seal_line(b"hello")).as_deref(), Some(&b"hello"[..]));
    assert!(from_hex("xyz").is_none());
    assert!(k.open_line("zz").is_none());
}

#[test]
fn sealed_layout_is_nonce_then_ciphertext_and_tag() {
    let k = SymKey::from_bytes([6u8; 32]);
    let nonce = [7u8; 24];
    let out = k.seal_with_nonce(&nonce, b"abc");
    assert_eq!(out.len(), 24 + 3 + 16);
    assert_eq!(&out[..24], &nonce[..]);
    // the ciphertext is not the plaintext
    assert_ne!(&out[24..27], b"abc");
    // the same key and nonce seal the same bytes
    assert_eq!(out, k.seal_with_nonce(&nonce, b"abc"));
    assert_eq!(k.open(&out).as_deref(), Some(&b"abc"[..]));
}

#[test]
fn open_refuses_short_input() {
    let k = SymKey::from_bytes([6u8; 32]);
    assert!(k.open(&[0u8; 23]).is_none());
    assert!(k.open(&[]).is_none());
}

#[test]
fn generated_keys_differ() {
    assert_ne!(SymKey::generate().as_bytes(), SymKey::generate().as_bytes());
}

#[test]
fn from_bytes_keeps_the_bytes() {
    let k = SymKey::from_bytes([8u8; 32]);
    assert_eq!(k.as_bytes(), [8u8; 32]);
    let c = k.clone();
    assert_eq!(c.as_bytes(), [8u8; 32]);
}

#[test]
fn hex_text_is_lowercase_pairs() {
    assert_eq!(to_hex(&[0x00, 0x0f, 0xab, 0xff]), "000fabff");
    assert_eq!(to_hex(&[]), "");
}

#[test]
fn from_hex_is_tolerant_as_documented() {
    assert_eq!(from_hex("  0fAB \n"), Some(vec![0x0f, 0xab]));
    assert_eq!(from_hex(""), Some(vec![]));
    assert_eq!(from_hex("abc"), None);
    assert_eq!(from_hex("+f"), Some(vec![0x0f]));
    assert_eq!(from_hex("g0"), None);
    assert_eq!(from_hex("é1"), None);
}

#[test]
fn hex_roundtrip_on_all_bytes() {
    let all: Vec<u8> = (0..=255u8).collect();
    assert_eq!(from_hex(&to_hex(&all)), Some(all));
}

#[test]
fn seal_line_is_hex_and_opens_only_under_its_key() {
    let k = SymKey::from_bytes([5u8; 32]);
    let line = k.seal_line(b"hello");
    assert!(line.chars().all(|c| c.is_ascii_hexdigit() && !c.is_ascii_uppercase()));
    assert_eq!(line.len(), 2 * (24 + 5 + 16));
    assert!(SymKey::from_bytes([6u8; 32]).open_line(&line).is_none());
    // surrounding white space is tolerated
    let padded = format!("  {line}\n");
    assert_eq!(k.open_line(&padded).as_deref(), Some(&b"hello"[..]));
}

#[test]
fn redacted_text_hides_the_key() {
    let k = SymKey::from_bytes([0xabu8; 32]);
    assert_eq!(k.redacted(), "SymKey(redacted)");
    assert!(!k.redacted().contains("ab"));
}
