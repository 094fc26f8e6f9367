//! Authenticated encryption of field values.
//!
//! Sealing draws a fresh random 192-bit nonce per call and encrypts the
//! plaintext under XChaCha20-Poly1305; opening verifies the Poly1305 tag
//! and fails closed: no unauthenticated bytes are ever returned.

use chacha20poly1305::aead::Aead;
use chacha20poly1305::KeyInit;
use rand::RngCore;
use vstd::prelude::*;

verus! {

/// Why a decryption was refused.
#[derive(Debug, Clone, Copy, PartialEq, Eq, Structural)]
pub enum CryptoError {
    /// The integrity tag did not verify, or the nonce had a wrong length.
    AuthenticationFailure,
}

/// The longest message XChaCha20 can seal: 64 bytes for each of the
/// 2^32 - 1 values of its 32-bit block counter; on longer input the
/// cipher refuses to encrypt.
pub const XCHACHA_MAX_MESSAGE_LEN: u64 = 0x3F_FFFF_FFC0;

/// The ciphertext that XChaCha20-Poly1305 produces for a key, a nonce and a
/// plaintext; sealing is a deterministic function of the three.
pub uninterp spec fn xchacha_seal(key: Seq<u8>, nonce: Seq<u8>, plaintext: Seq<u8>) -> Seq<u8>;

/// What opening a ciphertext under a key and a nonce yields: the sealed
/// plaintext where the tag verifies, nothing otherwise.
pub uninterp spec fn xchacha_open(key: Seq<u8>, nonce: Seq<u8>, ciphertext: Seq<u8>) -> Option<
    Seq<u8>,
>;

/// Relies on rand's `OsRng::fill_bytes`: draws bytes from the operating
/// system's entropy source. Nothing is promised of the bytes beyond their
/// number: the nonce is random.
#[verifier::external_body]
fn random_nonce_bytes() -> (r: Vec<u8>)
    ensures
        r@.len() == 24,
{
    let mut nonce = [0u8; 24];
    rand::rngs::OsRng.fill_bytes(&mut nonce);
    nonce.to_vec()
}

/// Relies on chacha20poly1305's `Aead::encrypt` for `XChaCha20Poly1305`:
/// sealing is deterministic in key, nonce and plaintext, appends the 16-byte
/// Poly1305 tag after the ciphertext, and what it seals, `Aead::decrypt`
/// opens again under the same key and nonce.
#[verifier::external_body]
fn seal(key_bytes: &[u8; 32], nonce: &[u8], plaintext: &[u8]) -> (r: Vec<u8>)
    requires
        nonce@.len() == 24,
        plaintext@.len() < XCHACHA_MAX_MESSAGE_LEN,
    ensures
        r@ == xchacha_seal(key_bytes@, nonce@, plaintext@),
        r@.len() == plaintext@.len() + 16,
        xchacha_open(key_bytes@, nonce@, r@) == Some(plaintext@),
{
    let key = chacha20poly1305::Key::from(*key_bytes);
    let cipher = chacha20poly1305::XChaCha20Poly1305::new(&key);
    let nonce_array: [u8; 24] = nonce.try_into().expect("nonce length");
    cipher
        .encrypt(&chacha20poly1305::XNonce::from(nonce_array), plaintext)
        .expect("encryption failed")
}

/// Relies on chacha20poly1305's `Aead::decrypt` for `XChaCha20Poly1305`:
/// opening is deterministic in key, nonce and ciphertext; it returns a
/// plaintext exactly when the Poly1305 tag verifies.
#[verifier::external_body]
fn open_sealed(key_bytes: &[u8; 32], nonce: &[u8], ciphertext: &[u8]) -> (r: Option<Vec<u8>>)
    requires
        nonce@.len() == 24,
    ensures
        match r {
            Some(pt) => xchacha_open(key_bytes@, nonce@, ciphertext@) == Some(pt@),
            None => xchacha_open(key_bytes@, nonce@, ciphertext@) is None,
        },
{
    let key = chacha20poly1305::Key::from(*key_bytes);
    let cipher = chacha20poly1305::XChaCha20Poly1305::new(&key);
    let nonce_array: [u8; 24] = match nonce.try_into() {
        Ok(a) => a,
        Err(_) => return None,
    };
    cipher.decrypt(&chacha20poly1305::XNonce::from(nonce_array), ciphertext).ok()
}

/// Seals a plaintext under the key and a fresh random 192-bit nonce, and
/// returns the nonce and the authenticated ciphertext.
pub fn encrypt(plaintext: &[u8], key_bytes: &[u8; 32]) -> (r: (Vec<u8>, Vec<u8>))
    requires
        plaintext@.len() < XCHACHA_MAX_MESSAGE_LEN,
    ensures
        r.0@.len() == 24,
        r.1@ == xchacha_seal(key_bytes@, r.0@, plaintext@),
        r.1@.len() == plaintext@.len() + 16,
        xchacha_open(key_bytes@, r.0@, r.1@) == Some(plaintext@),
{
    let nonce = random_nonce_bytes();
    let ciphertext = seal(key_bytes, nonce.as_slice(), plaintext);
    (nonce, ciphertext)
}

/// Opens an authenticated ciphertext. Fails with `AuthenticationFailure`
/// when the nonce has a wrong length or the tag does not verify; succeeds
/// with the sealed plaintext exactly when the tag verifies.
pub fn decrypt(ciphertext: &[u8], nonce: &[u8], key_bytes: &[u8; 32]) -> (r: Result<
    Vec<u8>,
    CryptoError,
>)
    ensures
        nonce@.len() != 24 ==> (r matches Err(e) && e == CryptoError::AuthenticationFailure),
        nonce@.len() == 24 ==> match r {
            Ok(pt) => xchacha_open(key_bytes@, nonce@, ciphertext@) == Some(pt@),
            Err(e) => xchacha_open(key_bytes@, nonce@, ciphertext@) is None && e
                == CryptoError::AuthenticationFailure,
        },
{
    if nonce.len() != 24 {
        return Err(CryptoError::AuthenticationFailure);
    }
    match open_sealed(key_bytes, nonce, ciphertext) {
        Some(pt) => Ok(pt),
        None => Err(CryptoError::AuthenticationFailure),
    }
}

/// Law: decrypting what `encrypt` sealed, under the same key and the nonce
/// it drew, gives back the original plaintext.
pub fn encrypt_then_decrypt(plaintext: &[u8], key_bytes: &[u8; 32]) -> (r: Vec<u8>)
    requires
        plaintext@.len() < XCHACHA_MAX_MESSAGE_LEN,
    ensures
        r@ == plaintext@,
{
    let (nonce, ciphertext) = encrypt(plaintext, key_bytes);
    match decrypt(ciphertext.as_slice(), nonce.as_slice(), key_bytes) {
        Ok(pt) => pt,
        Err(_) => {
            proof {
                assert(false);
            }
            vstd::pervasive::unreached()
        },
    }
}

} // verus!
