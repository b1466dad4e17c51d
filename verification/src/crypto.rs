//! Symmetric key hierarchy and authenticated encryption.
//!
//! Content is sealed with XChaCha20-Poly1305 under a fresh random 192-bit
//! nonce; a root key derives child keys with HKDF-SHA256. The AEAD, the KDF
//! and the OS random source are called through the trusted items below; the
//! framing around them (`nonce || ciphertext`, hex lines) is verified.

use vstd::prelude::*;
use chacha20poly1305::aead::{Aead, KeyInit};
use chacha20poly1305::{XChaCha20Poly1305, XNonce};
use hkdf::Hkdf;
use sha2::Sha256;
use crate::hex::{from_hex, hex_decode, hex_text, lemma_hex_roundtrip, to_hex};

verus! {

/// Length of the random nonce that prefixes every sealed message.
pub const NONCE_LEN: usize = 24;

/// Length of the Poly1305 tag that the AEAD appends.
pub const TAG_LEN: usize = 16;

/// XChaCha20-Poly1305 refuses messages of `64 * u32::MAX` bytes or more.
pub const MAX_SEALED_LEN: u64 = 274877906880;

pub open spec fn max_message_len() -> int {
    MAX_SEALED_LEN as int
}

/// The 32-byte output of HKDF-SHA256 (no salt) with input key `ikm` and
/// context `info`.
pub uninterp spec fn hkdf_sha256_okm32(ikm: Seq<u8>, info: Seq<u8>) -> Seq<u8>;

/// XChaCha20-Poly1305 encryption (no associated data): ciphertext followed by
/// the 16-byte tag.
pub uninterp spec fn xchacha_encrypt(key: Seq<u8>, nonce: Seq<u8>, plaintext: Seq<u8>) -> Seq<u8>;

/// XChaCha20-Poly1305 decryption (no associated data); `None` when the tag does
/// not authenticate the ciphertext under this key and nonce.
pub uninterp spec fn xchacha_decrypt(key: Seq<u8>, nonce: Seq<u8>, ciphertext: Seq<u8>) -> Option<Seq<u8>>;

/// `getrandom::getrandom`: fills the buffer from the OS CSPRNG. Nothing is
/// promised of the bytes; the call panics only when the OS source fails.
#[verifier::external_body]
pub(crate) fn fill_random(buf: &mut [u8])
    ensures
        final(buf)@.len() == old(buf)@.len(),
{
    getrandom::getrandom(buf).expect("OS CSPRNG unavailable")
}

/// `Hkdf::<Sha256>::new(None, ikm)` then `expand(info, 32 bytes)`; 32 bytes is
/// within HKDF-SHA256's output limit, so the expansion cannot fail.
#[verifier::external_body]
fn hkdf_expand32(ikm: &[u8; 32], info: &[u8]) -> (okm: [u8; 32])
    ensures
        okm@ == hkdf_sha256_okm32(ikm@, info@),
{
    let hk = Hkdf::<Sha256>::new(None, ikm);
    let mut okm = [0u8; 32];
    hk.expand(info, &mut okm).expect("32 bytes is a valid HKDF-SHA256 output length");
    okm
}

/// `XChaCha20Poly1305::encrypt`: the ciphertext is as long as the plaintext and
/// carries the 16-byte tag at its end, and decrypting it under the same key and
/// nonce gives the plaintext back (the AEAD correctness property). It fails
/// only for messages of `64 * u32::MAX` bytes or more, which `requires` leaves
/// out.
#[verifier::external_body]
fn aead_encrypt(key: &[u8; 32], nonce: &[u8], plaintext: &[u8]) -> (ct: Vec<u8>)
    requires
        nonce@.len() == NONCE_LEN,
        plaintext@.len() < max_message_len(),
    ensures
        ct@ == xchacha_encrypt(key@, nonce@, plaintext@),
        ct@.len() == plaintext@.len() + TAG_LEN,
        xchacha_decrypt(key@, nonce@, ct@) == Some(plaintext@),
{
    XChaCha20Poly1305::new(key.into())
        .encrypt(XNonce::from_slice(nonce), plaintext)
        .expect("XChaCha20-Poly1305 encryption does not fail below the length limit")
}

/// `XChaCha20Poly1305::decrypt`: authenticates and decrypts. Decryption undoes
/// encryption under the same key and nonce (the AEAD correctness property).
#[verifier::external_body]
fn aead_decrypt(key: &[u8; 32], nonce: &[u8], ciphertext: &[u8]) -> (pt: Option<Vec<u8>>)
    requires
        nonce@.len() == NONCE_LEN,
    ensures
        opt_bytes(pt) == xchacha_decrypt(key@, nonce@, ciphertext@),
        forall|m: Seq<u8>|
            m.len() < max_message_len() && ciphertext@ == #[trigger] xchacha_encrypt(key@, nonce@, m)
                ==> opt_bytes(pt) == Some(m),
{
    XChaCha20Poly1305::new(key.into()).decrypt(XNonce::from_slice(nonce), ciphertext).ok()
}

/// The byte sequence inside an optional byte vector.
pub open spec fn opt_bytes(o: Option<Vec<u8>>) -> Option<Seq<u8>> {
    match o {
        Some(v) => Some(v@),
        None => None,
    }
}

/// The sealed form of `plaintext`: the nonce followed by the AEAD output.
pub open spec fn sealed_with(key: Seq<u8>, nonce: Seq<u8>, plaintext: Seq<u8>) -> Seq<u8> {
    nonce + xchacha_encrypt(key, nonce, plaintext)
}

/// What opening `sealed` gives: too short for a nonce, or the AEAD's verdict
/// on the rest under the leading nonce.
pub open spec fn opened(key: Seq<u8>, sealed: Seq<u8>) -> Option<Seq<u8>> {
    if sealed.len() < NONCE_LEN {
        None
    } else {
        xchacha_decrypt(key, sealed.take(NONCE_LEN as int), sealed.skip(NONCE_LEN as int))
    }
}

/// What opening a hex line gives: `None` when the text is not hex.
pub open spec fn opened_line(key: Seq<u8>, line: Seq<char>) -> Option<Seq<u8>> {
    match hex_decode(line) {
        Some(b) => opened(key, b),
        None => None,
    }
}

/// A 256-bit symmetric key.
pub struct SymKey([u8; 32]);

impl Clone for SymKey {
    fn clone(&self) -> (k: Self)
        ensures
            k@ == self@,
    {
        SymKey(self.0)
    }
}

impl View for SymKey {
    type V = Seq<u8>;

    closed spec fn view(&self) -> Seq<u8> {
        self.0@
    }
}

fn copy_into(dst: &mut Vec<u8>, src: &[u8])
    ensures
        final(dst)@ == old(dst)@ + src@,
{
    let n = src.len();
    let ghost start = dst@;
    for i in 0..n
        invariant
            n == src@.len(),
            dst@ == start + src@.subrange(0, i as int),
    {
        dst.push(src[i]);
        assert(dst@ =~= start + src@.subrange(0, i + 1));
    }
    assert(src@.subrange(0, n as int) =~= src@);
}

fn split_nonce(sealed: &[u8]) -> (r: (Vec<u8>, Vec<u8>))
    requires
        sealed@.len() >= NONCE_LEN,
    ensures
        r.0@ == sealed@.take(NONCE_LEN as int),
        r.1@ == sealed@.skip(NONCE_LEN as int),
{
    let mut nonce: Vec<u8> = Vec::new();
    let mut rest: Vec<u8> = Vec::new();
    let n = sealed.len();
    for i in 0..n
        invariant
            n == sealed@.len(),
            n >= NONCE_LEN,
            i <= NONCE_LEN ==> nonce@ == sealed@.subrange(0, i as int) && rest@.len() == 0,
            i > NONCE_LEN ==> nonce@ == sealed@.take(NONCE_LEN as int)
                && rest@ == sealed@.subrange(NONCE_LEN as int, i as int),
    {
        if i < NONCE_LEN {
            nonce.push(sealed[i]);
        } else {
            rest.push(sealed[i]);
        }
        proof {
            if i < NONCE_LEN {
                assert(nonce@ =~= sealed@.subrange(0, i + 1));
            } else {
                assert(rest@ =~= sealed@.subrange(NONCE_LEN as int, i + 1));
            }
        }
    }
    assert(sealed@.subrange(NONCE_LEN as int, n as int) =~= sealed@.skip(NONCE_LEN as int));
    (nonce, rest)
}

impl SymKey {
    /// Generate a fresh key from the OS CSPRNG.
    pub fn generate() -> (k: SymKey) {
        let mut bytes = [0u8; 32];
        fill_random(&mut bytes);
        SymKey(bytes)
    }

    /// The key's text form, which never shows the key bytes.
    pub fn redacted(&self) -> (s: String)
        ensures
            s@ == "SymKey(redacted)"@,
    {
        "SymKey(redacted)".to_owned()
    }

    pub fn from_bytes(bytes: [u8; 32]) -> (k: SymKey)
        ensures
            k@ == bytes@,
    {
        SymKey(bytes)
    }

    /// The raw key material.
    pub fn as_bytes(&self) -> (b: [u8; 32])
        ensures
            b@ == self@,
    {
        self.0
    }

    /// Derive a child key for a labelled purpose (HKDF-SHA256). The child is a
    /// function of the parent and `info` alone.
    pub fn derive(&self, info: &[u8]) -> (child: SymKey)
        ensures
            child@ == hkdf_sha256_okm32(self@, info@),
    {
        SymKey(hkdf_expand32(&self.0, info))
    }

    /// Seal under a given nonce: `nonce || ciphertext+tag`.
    pub fn seal_with_nonce(&self, nonce: &[u8; 24], plaintext: &[u8]) -> (out: Vec<u8>)
        requires
            plaintext@.len() < max_message_len(),
        ensures
            out@ == sealed_with(self@, nonce@, plaintext@),
            out@.len() == NONCE_LEN + plaintext@.len() + TAG_LEN,
            opened(self@, out@) == Some(plaintext@),
    {
        let ct = aead_encrypt(&self.0, nonce, plaintext);
        let mut out: Vec<u8> = Vec::new();
        copy_into(&mut out, nonce);
        copy_into(&mut out, ct.as_slice());
        assert(out@ =~= sealed_with(self@, nonce@, plaintext@));
        assert(out@.take(NONCE_LEN as int) =~= nonce@);
        assert(out@.skip(NONCE_LEN as int) =~= ct@);
        out
    }

    /// Seal plaintext, returning `nonce || ciphertext+tag` with a fresh random
    /// nonce (the leading 24 bytes of the result). The nonce is read from the
    /// operating system's random source; that no two seals share a nonce
    /// rests on that source alone, and the contract below does not state it.
    pub fn seal(&self, plaintext: &[u8]) -> (out: Vec<u8>)
        requires
            plaintext@.len() < max_message_len(),
        ensures
            out@ == sealed_with(self@, out@.take(NONCE_LEN as int), plaintext@),
            out@.len() == NONCE_LEN + plaintext@.len() + TAG_LEN,
            opened(self@, out@) == Some(plaintext@),
    {
        let mut nonce = [0u8; 24];
        fill_random(&mut nonce);
        let out = self.seal_with_nonce(&nonce, plaintext);
        assert(out@.take(NONCE_LEN as int) =~= nonce@);
        out
    }

    /// Open `nonce || ciphertext`. `None` if too short, or if authentication
    /// fails (wrong key, corruption, or tampering). Opening what this key
    /// sealed gives the plaintext back.
    pub fn open(&self, sealed: &[u8]) -> (r: Option<Vec<u8>>)
        ensures
            opt_bytes(r) == opened(self@, sealed@),
            forall|n: Seq<u8>, p: Seq<u8>|
                n.len() == NONCE_LEN && p.len() < max_message_len()
                    && sealed@ == #[trigger] sealed_with(self@, n, p) ==> opt_bytes(r) == Some(p),
    {
        if sealed.len() < NONCE_LEN {
            return None;
        }
        let (nonce, ct) = split_nonce(sealed);
        let r = aead_decrypt(&self.0, nonce.as_slice(), ct.as_slice());
        proof {
            assert forall|n: Seq<u8>, p: Seq<u8>|
                n.len() == NONCE_LEN && p.len() < max_message_len()
                    && sealed@ == #[trigger] sealed_with(self@, n, p) implies opt_bytes(r) == Some(p) by {
                assert(nonce@ =~= n);
                assert(ct@ =~= xchacha_encrypt(self@, n, p));
            }
        }
        r
    }

    /// Seal to a hex line — text-safe for a line-oriented log.
    pub fn seal_line(&self, plaintext: &[u8]) -> (line: String)
        requires
            plaintext@.len() < max_message_len(),
        ensures
            exists|n: Seq<u8>| n.len() == NONCE_LEN && line@ == hex_text(#[trigger] sealed_with(self@, n, plaintext@)),
            opened_line(self@, line@) == Some(plaintext@),
            line@.len() == 2 * (NONCE_LEN + plaintext@.len() + TAG_LEN),
    {
        let sealed = self.seal(plaintext);
        let line = to_hex(sealed.as_slice());
        assert(sealed@.take(NONCE_LEN as int).len() == NONCE_LEN);
        proof {
            lemma_hex_roundtrip(sealed@);
        }
        line
    }

    /// Open a hex line produced by `seal_line`: `None` if the text is not hex
    /// or the bytes do not open under this key.
    pub fn open_line(&self, line: &str) -> (r: Option<Vec<u8>>)
        ensures
            opt_bytes(r) == opened_line(self@, line@),
            forall|n: Seq<u8>, p: Seq<u8>|
                n.len() == NONCE_LEN && p.len() < max_message_len()
                    && line@ == hex_text(#[trigger] sealed_with(self@, n, p)) ==> opt_bytes(r) == Some(p),
    {
        proof {
            assert forall|n: Seq<u8>, p: Seq<u8>|
                n.len() == NONCE_LEN && p.len() < max_message_len()
                    && line@ == hex_text(#[trigger] sealed_with(self@, n, p)) implies
                    hex_decode(line@) == Some(sealed_with(self@, n, p)) by {
                lemma_hex_roundtrip(sealed_with(self@, n, p));
            }
        }
        match from_hex(line) {
            Some(bytes) => self.open(bytes.as_slice()),
            None => None,
        }
    }
}

} // verus!
