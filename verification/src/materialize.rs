//! Field materialization.
//!
//! Combines the crypto engine's output for one plaintext value into a
//! `FieldMaterialized`: the authenticated ciphertext, its nonce, the
//! deterministic search token, and a masked preview that shows at most
//! the first plaintext character.

use crate::crypto;
use crate::document::FieldMaterialized;
use crate::token;
use vstd::prelude::*;
use vstd::string::*;

verus! {

/// The masked preview of a value with a token: first character, ellipsis
/// and the first six token characters where value and token are long
/// enough; first character and ellipsis for a short nonempty value; the
/// ellipsis alone for an empty one.
pub open spec fn masked_of(value: Seq<char>, tok: Seq<char>) -> Seq<char> {
    if value.len() >= 2 && tok.len() >= 6 {
        seq![value[0], '…'] + tok.take(6)
    } else if value.len() >= 1 {
        seq![value[0], '…']
    } else {
        seq!['…']
    }
}

/// Builds the masked preview of a value under its token.
pub fn mask_value(value: &str, tok: &str) -> (r: String)
    ensures
        r@ == masked_of(value@, tok@),
{
    let vlen = value.unicode_len();
    let tlen = tok.unicode_len();
    let mut r = String::new();
    if vlen >= 2 && tlen >= 6 {
        r.append(value.substring_char(0, 1));
        r.append("…");
        r.append(tok.substring_char(0, 6));
        proof {
            reveal_strlit("…");
            assert(r@ =~= masked_of(value@, tok@));
        }
    } else if vlen >= 1 {
        r.append(value.substring_char(0, 1));
        r.append("…");
        proof {
            reveal_strlit("…");
            assert(r@ =~= masked_of(value@, tok@));
        }
    } else {
        r.append("…");
        proof {
            reveal_strlit("…");
            assert(r@ =~= masked_of(value@, tok@));
        }
    }
    r
}

/// Materializes one field from a plaintext value and the secret key:
/// seals the value under a fresh nonce, derives its search token, and
/// masks the preview. Pure but for the nonce drawn inside `encrypt`.
pub fn materialize_field(value: &str, key: &[u8; 32]) -> (r: FieldMaterialized)
    requires
        value.spec_bytes().len() < crypto::XCHACHA_MAX_MESSAGE_LEN,
    ensures
        r@.nonce.len() == 24,
        r@.token.len() == 16,
        r@.cipher == crypto::xchacha_seal(key@, r@.nonce, value.spec_bytes()),
        crypto::xchacha_open(key@, r@.nonce, r@.cipher) == Some(value.spec_bytes()),
        r@.token == token::hex_of(token::hmac_sha256_of(key@, value@).take(8)),
        r@.masked == masked_of(value@, r@.token),
{
    let (nonce, cipher) = crypto::encrypt(value.as_bytes(), key);
    let tok = token::tokenize(key, value);
    let masked = mask_value(value, tok.as_str());
    FieldMaterialized { cipher, nonce, token: tok, masked }
}

} // verus!
