//! SecureSourceNote core: content-addressed operation envelopes, deterministic
//! replay into document state, an encrypted append-only local store, and the
//! request logic of the zero-knowledge sync relay.

pub mod text;
pub mod hex;
pub mod crypto;
pub mod id;
pub mod json;
pub mod json_value;
pub mod envelope_json;
pub mod envelope;
pub mod order;
pub mod causal;
pub mod document;
pub mod wire;
pub mod store;
pub mod server;
pub mod cli;

use vstd::prelude::*;

verus! {
}
