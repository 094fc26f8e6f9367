use chacha20poly1305::aead::Aead;
use hmac::digest::KeyInit;
use hmac::Mac;
use magentadb::crypto::{decrypt, encrypt, encrypt_then_decrypt, CryptoError};
use magentadb::materialize::{mask_value, materialize_field};
use magentadb::token::{tokenize, tokenize_deterministic};

const KEY: [u8; 32] = [7u8; 32];
const OTHER_KEY: [u8; 32] = [8u8; 32];

#[test]
fn round_trip_returns_plaintext() {
    let plaintext = b"top secret value";
    let (nonce, ciphertext) = encrypt(plaintext, &KEY);
    let opened = decrypt(&ciphertext, &nonce, &KEY).expect("round trip must succeed");
    assert_eq!(opened, plaintext.to_vec());
}

#[test]
fn round_trip_law_function() {
    let plaintext = b"another payload";
    assert_eq!(encrypt_then_decrypt(plaintext, &KEY), plaintext.to_vec());
}

#[test]
fn ciphertext_shape() {
    let plaintext = b"abc";
    let (nonce, ciphertext) = encrypt(plaintext, &KEY);
    assert_eq!(nonce.len(), 24);
    assert_eq!(ciphertext.len(), plaintext.len() + 16);
}

#[test]
fn nonce_is_fresh_per_call() {
    let (n1, c1) = encrypt(b"same value", &KEY);
    let (n2, c2) = encrypt(b"same value", &KEY);
    assert_ne!(n1, n2);
    assert_ne!(c1, c2);
}

#[test]
fn tamper_flipped_ciphertext_byte_fails() {
    let (nonce, mut ciphertext) = encrypt(b"integrity matters", &KEY);
    ciphertext[0] ^= 0x01;
    let r = decrypt(&ciphertext, &nonce, &KEY);
    assert_eq!(r, Err(CryptoError::AuthenticationFailure));
}

#[test]
fn tamper_wrong_key_fails() {
    let (nonce, ciphertext) = encrypt(b"integrity matters", &KEY);
    let r = decrypt(&ciphertext, &nonce, &OTHER_KEY);
    assert_eq!(r, Err(CryptoError::AuthenticationFailure));
}

#[test]
fn tamper_wrong_length_nonce_fails() {
    let (_nonce, ciphertext) = encrypt(b"integrity matters", &KEY);
    let short_nonce = vec![0u8; 12];
    let r = decrypt(&ciphertext, &short_nonce, &KEY);
    assert_eq!(r, Err(CryptoError::AuthenticationFailure));
}

#[test]
fn decrypt_with_crate_directly_agrees() {
    let plaintext = b"cross checked";
    let (nonce, ciphertext) = encrypt(plaintext, &KEY);
    let cipher = chacha20poly1305::XChaCha20Poly1305::new(&chacha20poly1305::Key::from(KEY));
    let nonce_arr: [u8; 24] = nonce.as_slice().try_into().unwrap();
    let opened = cipher
        .decrypt(&chacha20poly1305::XNonce::from(nonce_arr), ciphertext.as_slice())
        .expect("direct decryption must succeed");
    assert_eq!(opened, plaintext.to_vec());
}

#[test]
fn tokenize_is_stable() {
    let t1 = tokenize(&KEY, "alice@example.com");
    let t2 = tokenize(&KEY, "alice@example.com");
    assert_eq!(t1, t2);
    assert!(tokenize_deterministic(&KEY, "alice@example.com"));
}

#[test]
fn tokenize_distinct_values_differ() {
    assert_ne!(tokenize(&KEY, "alice"), tokenize(&KEY, "bob"));
    assert_ne!(tokenize(&KEY, "x"), tokenize(&KEY, "x2"));
}

#[test]
fn tokenize_distinct_keys_differ() {
    assert_ne!(tokenize(&KEY, "alice"), tokenize(&OTHER_KEY, "alice"));
}

#[test]
fn tokenize_matches_hmac_sha256() {
    let value = "check me";
    let mut mac =
        <hmac::Hmac<sha2::Sha256> as KeyInit>::new_from_slice(&KEY).expect("key size accepted");
    mac.update(value.as_bytes());
    let tag = mac.finalize().into_bytes();
    let expected = hex::encode(&tag[0..8]);
    assert_eq!(tokenize(&KEY, value), expected);
}

#[test]
fn tokenize_length_and_charset() {
    let t = tokenize(&KEY, "whatever");
    assert_eq!(t.len(), 16);
    assert!(t.chars().all(|c| c.is_ascii_hexdigit() && !c.is_ascii_uppercase()));
}

#[test]
fn masked_long_value() {
    let tok = tokenize(&KEY, "hello");
    let masked = mask_value("hello", &tok);
    assert_eq!(masked, format!("h…{}", &tok[0..6]));
}

#[test]
fn masked_short_value() {
    let masked = mask_value("x", &tokenize(&KEY, "x"));
    assert_eq!(masked, "x…");
}

#[test]
fn masked_empty_value() {
    let masked = mask_value("", &tokenize(&KEY, ""));
    assert_eq!(masked, "…");
}

#[test]
fn mask_value_concrete() {
    assert_eq!(mask_value("ab", "0123456789abcdef"), "a…012345");
}

#[test]
fn materialize_field_is_consistent() {
    let record = materialize_field("secret phrase", &KEY);
    assert_eq!(record.nonce.len(), 24);
    assert_eq!(record.cipher.len(), "secret phrase".len() + 16);
    assert_eq!(record.token, tokenize(&KEY, "secret phrase"));
    assert_eq!(record.masked, format!("s…{}", &record.token[0..6]));
    let opened = decrypt(&record.cipher, &record.nonce, &KEY).expect("must decrypt");
    assert_eq!(opened, b"secret phrase".to_vec());
}
