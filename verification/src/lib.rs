//! A document store whose field values are encrypted at rest yet remain
//! searchable by exact value, without decrypting on the read path.
//!
//! Each field is sealed under XChaCha20-Poly1305 with a fresh random
//! nonce and carries a deterministic keyed search token; the store keeps
//! a token index and a field-name index that exactly reflect the current
//! document set.

pub mod crypto;
pub mod db;
pub mod document;
pub mod maps;
pub mod materialize;
pub mod token;
