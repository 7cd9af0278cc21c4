use base64::Engine as _;
use rvault::crypto::{
    lanes_bounded,
    decrypt_with_key, derive_key, encrypt_data, encrypt_with_key, generate_key, generate_password,
    generate_raw_key, hash_data, verify_password, CryptoError,
};

const SYMBOLS: &str = "!@#$%^&*()_+-=[]{}|;:'\",.<>/?";

#[test]
fn hash_then_verify() {
    let h = hash_data(b"correct-horse").unwrap();
    assert!(h.hash.starts_with("$argon2id$"));
    assert!(verify_password(b"correct-horse", &h.hash));
    assert!(!verify_password(b"wrong-horse", &h.hash));
}

#[test]
fn hashes_are_salted() {
    let a = hash_data(b"pw").unwrap();
    let b = hash_data(b"pw").unwrap();
    assert_ne!(a.hash, b.hash);
}

#[test]
fn malformed_hash_never_verifies() {
    assert!(!verify_password(b"pw", ""));
    assert!(!verify_password(b"pw", "not-a-hash"));
    assert!(!verify_password(b"pw", "$argon2id$v=19$broken"));
}

#[test]
fn encrypt_then_decrypt_with_key() {
    let key = [42u8; 32];
    let (ct, nonce) = encrypt_with_key(&key, "hello \u{1F512}".as_bytes()).unwrap();
    let raw_nonce = base64::engine::general_purpose::STANDARD.decode(&nonce).unwrap();
    assert_eq!(raw_nonce.len(), 12);
    let raw_ct = base64::engine::general_purpose::STANDARD.decode(&ct).unwrap();
    assert_eq!(raw_ct.len(), "hello \u{1F512}".len() + 16);
    assert_eq!(decrypt_with_key(&key, &ct, &nonce).unwrap(), "hello \u{1F512}");
    assert_eq!(decrypt_with_key(&[43u8; 32], &ct, &nonce), Err(CryptoError::Decryption));
}

#[test]
fn key_and_nonce_lengths_are_checked() {
    assert_eq!(encrypt_with_key(&[1u8; 16], b"x"), Err(CryptoError::InvalidKey));
    let (ct, nonce) = encrypt_with_key(&[1u8; 32], b"x").unwrap();
    assert_eq!(decrypt_with_key(&[1u8; 31], &ct, &nonce), Err(CryptoError::InvalidKey));
    assert_eq!(decrypt_with_key(&[1u8; 32], &ct, "AAAA"), Err(CryptoError::InvalidNonce));
    assert_eq!(decrypt_with_key(&[1u8; 32], "!!", &nonce), Err(CryptoError::Encoding));
}

#[test]
fn non_utf8_plaintext_is_an_encoding_error() {
    let key = [9u8; 32];
    let (ct, nonce) = encrypt_with_key(&key, &[0xff, 0xfe]).unwrap();
    assert_eq!(decrypt_with_key(&key, &ct, &nonce), Err(CryptoError::Encoding));
}

#[test]
fn encrypt_data_uses_a_fresh_key() {
    let d = encrypt_data(b"payload").unwrap();
    let key = base64::engine::general_purpose::STANDARD.decode(&d.key).unwrap();
    assert_eq!(key.len(), 32);
    assert_eq!(decrypt_with_key(&key, &d.ciphertext, &d.nonce).unwrap(), "payload");
}

#[test]
fn generated_keys() {
    let k = generate_raw_key();
    assert_eq!(k.len(), 32);
    assert_ne!(k, generate_raw_key());
    let text = generate_key();
    assert_eq!(text.len(), 44);
    assert_eq!(base64::engine::general_purpose::STANDARD.decode(&text).unwrap().len(), 32);
}

#[test]
fn derived_key_depends_on_salt() {
    let a = derive_key(b"mek", b"saltsalt").unwrap();
    let b = derive_key(b"mek", b"saltsalt").unwrap();
    let c = derive_key(b"mek", b"saltsalu").unwrap();
    assert_eq!(a.len(), 32);
    assert_eq!(a, b);
    assert_ne!(a, c);
    assert_eq!(derive_key(b"mek", b"short"), Err(CryptoError::KeyDerivation));
}

#[test]
fn generated_password_has_every_class() {
    for len in [3u8, 4, 12, 32] {
        let p = generate_password(len, false);
        assert_eq!(p.chars().count(), len as usize);
        assert!(p.chars().any(|c| c.is_ascii_lowercase()));
        assert!(p.chars().any(|c| c.is_ascii_uppercase()));
        assert!(p.chars().any(|c| c.is_ascii_digit()));
        assert!(p.chars().all(|c| c.is_ascii_alphanumeric()));
    }
    for len in [4u8, 16] {
        let p = generate_password(len, true);
        assert_eq!(p.chars().count(), len as usize);
        assert!(p.chars().any(|c| SYMBOLS.contains(c)));
        assert!(p.chars().all(|c| c.is_ascii_alphanumeric() || SYMBOLS.contains(c)));
    }
}

#[test]
fn oversized_lane_count_is_rejected_without_panicking() {
    let huge = "$argon2id$v=19$m=19456,t=2,p=536870912$c2FsdHNhbHQ$aGFzaGhhc2hoYXNoaGFzaA";
    assert!(!lanes_bounded(huge));
    assert!(!verify_password(b"pw", huge));
    let above = "$argon2id$v=19$m=19456,t=2,p=16777216$c2FsdHNhbHQ$aGFzaGhhc2hoYXNoaGFzaA";
    assert!(!lanes_bounded(above));
    assert!(!verify_password(b"pw", above));
    assert!(lanes_bounded("$argon2id$v=19$m=19456,t=2,p=16777215$c2FsdHNhbHQ$aGFzaA"));
    let h = hash_data(b"pw").unwrap();
    assert!(lanes_bounded(&h.hash));
}
