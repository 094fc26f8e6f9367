//! Deterministic search tokens.
//!
//! A token is the first 8 bytes of the HMAC-SHA-256 tag of a value under
//! the secret key, written as 16 lower-case hex digits. The same key and
//! value always give the same token, which is what makes equality search
//! over ciphertext possible: the token index never sees a plaintext.

use hmac::digest::KeyInit;
use hmac::Mac;
use vstd::prelude::*;

verus! {

/// The 32-byte HMAC-SHA-256 tag of the value's UTF-8 bytes under the key;
/// a deterministic function of the two.
pub uninterp spec fn hmac_sha256_of(key: Seq<u8>, value: Seq<char>) -> Seq<u8>;

/// The nibble written as a lower-case hex digit.
pub open spec fn hex_digit(n: u8) -> char
    recommends
        n < 16,
{
    if n < 10 {
        (n + 48) as char
    } else {
        (n + 87) as char
    }
}

/// The bytes written as lower-case hex, high nibble first.
pub open spec fn hex_of(bytes: Seq<u8>) -> Seq<char>
    decreases bytes.len(),
{
    if bytes.len() == 0 {
        Seq::empty()
    } else {
        seq![hex_digit(bytes[0] / 16), hex_digit(bytes[0] % 16)] + hex_of(bytes.drop_first())
    }
}

/// Hex doubles the length.
pub proof fn lemma_hex_of_len(bytes: Seq<u8>)
    ensures
        hex_of(bytes).len() == 2 * bytes.len(),
    decreases bytes.len(),
{
    if bytes.len() > 0 {
        lemma_hex_of_len(bytes.drop_first());
    }
}

/// Relies on hmac's `Hmac<Sha256>`: the tag is 32 bytes, a deterministic
/// function of the key and the message bytes alone, and the key may have
/// any length.
#[verifier::external_body]
fn hmac_sha256_tag(key: &[u8; 32], value: &str) -> (r: Vec<u8>)
    ensures
        r@ == hmac_sha256_of(key@, value@),
        r@.len() == 32,
{
    let mut mac = <hmac::Hmac<sha2::Sha256> as KeyInit>::new_from_slice(key)
        .expect("HMAC can take key of any size");
    mac.update(value.as_bytes());
    mac.finalize().into_bytes().to_vec()
}

/// Relies on hex's `encode`: lower-case hex, two digits per byte, high
/// nibble first.
#[verifier::external_body]
fn hex_encode(bytes: &[u8]) -> (r: String)
    ensures
        r@ == hex_of(bytes@),
{
    hex::encode(bytes)
}

/// Derives the search token of a value under a key: 16 lower-case hex
/// digits of the first 8 HMAC-SHA-256 tag bytes. Deterministic: the result
/// is a function of key and value alone.
pub fn tokenize(key: &[u8; 32], value: &str) -> (r: String)
    ensures
        r@ == hex_of(hmac_sha256_of(key@, value@).take(8)),
        r@.len() == 16,
{
    let tag = hmac_sha256_tag(key, value);
    let head = vstd::slice::slice_subrange(tag.as_slice(), 0, 8);
    let r = hex_encode(head);
    proof {
        assert(head@ == hmac_sha256_of(key@, value@).take(8));
        lemma_hex_of_len(head@);
    }
    r
}

/// Law: the token is stable: two derivations from the same key and value
/// are equal.
pub fn tokenize_deterministic(key: &[u8; 32], value: &str) -> (r: bool)
    ensures
        r,
{
    let t1 = tokenize(key, value);
    let t2 = tokenize(key, value);
    t1 == t2
}

} // verus!
