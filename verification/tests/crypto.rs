//! Symbol encryption.
use argon2::Argon2;
use chacha20poly1305::aead::{Aead, KeyInit, Payload};
use chacha20poly1305::{ChaCha20Poly1305, Key, Nonce};
use orbit_transfer::crypto::{CryptoError, SessionCipher};

#[test]
fn seal_open_roundtrip() {
    let cipher = SessionCipher::new("hunter2");
    let data = vec![0xAB; 4096];
    let sealed = cipher.seal_symbol(42, 7, &data);
    assert_ne!(sealed, data);
    assert_eq!(sealed.len(), data.len() + 16);
    let opened = cipher.open_symbol(42, 7, &sealed).unwrap();
    assert_eq!(opened, data);
}

#[test]
fn wrong_key_fails() {
    let a = SessionCipher::new("correct horse");
    let b = SessionCipher::new("battery staple");
    let sealed = a.seal_symbol(1, 2, b"secret");
    assert!(b.open_symbol(1, 2, &sealed).is_err());
}

#[test]
fn wrong_esi_fails() {
    let cipher = SessionCipher::new("x");
    let sealed = cipher.seal_symbol(9, 3, b"data");
    assert!(cipher.open_symbol(9, 4, &sealed).is_err());
    assert!(cipher.open_symbol(8, 3, &sealed).is_err());
}

#[test]
fn tampering_and_short_data_fail() {
    let cipher = SessionCipher::new("x");
    let mut sealed = cipher.seal_symbol(1, 1, b"");
    assert_eq!(sealed.len(), 16);
    assert_eq!(cipher.open_symbol(1, 1, &sealed), Ok(Vec::new()));
    sealed[3] ^= 0x80;
    assert_eq!(
        cipher.open_symbol(1, 1, &sealed),
        Err(CryptoError::Decrypt("aead::Error".to_string()))
    );
    assert_eq!(
        cipher.open_symbol(1, 1, &[0; 15]),
        Err(CryptoError::Decrypt("aead::Error".to_string()))
    );
}

#[test]
fn sealing_matches_the_construction() {
    let mut key = [0u8; 32];
    Argon2::default()
        .hash_password_into(b"pass", b"orbit-transfer-v1-salt", &mut key)
        .unwrap();
    let mut nonce = Vec::new();
    nonce.extend_from_slice(&77u64.to_le_bytes());
    nonce.extend_from_slice(&5u32.to_le_bytes());
    let expected = ChaCha20Poly1305::new(Key::from_slice(&key))
        .encrypt(Nonce::from_slice(&nonce), Payload { msg: b"payload", aad: &nonce })
        .unwrap();
    let cipher = SessionCipher::new("pass");
    assert_eq!(cipher.seal_symbol(77, 5, b"payload"), expected);
    assert_eq!(cipher.clone().open_symbol(77, 5, &expected), Ok(b"payload".to_vec()));
}

#[test]
fn symbols_are_sealed_apart() {
    let cipher = SessionCipher::new("k");
    let a = cipher.seal_symbol(1, 2, b"same");
    assert_ne!(a, cipher.seal_symbol(1, 3, b"same"));
    assert_ne!(a, cipher.seal_symbol(2, 2, b"same"));
}
