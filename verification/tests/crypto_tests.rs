use sha2::Digest;
use sonic_share::crypto::{
    decrypt, decrypt_with_nonce, derive_session_key, encrypt, encrypt_with_nonce,
    encrypt_with_prefix, generate_key, generate_keypair, generate_nonce, session_key_from_shared,
    CryptoError, KEY_LEN, NONCE_LEN, OVERHEAD, TAG_LEN,
};

#[test]
fn high_level_roundtrip() {
    let key = generate_key();
    let plaintext = b"Hello, Sonic Share!";
    let ciphertext = encrypt(plaintext, &key).unwrap();
    let decrypted = decrypt(&ciphertext, &key).unwrap();
    assert_eq!(decrypted, plaintext);
}

#[test]
fn high_level_overhead_is_correct() {
    let key = generate_key();
    let plaintext = b"abcdefghij";
    let ciphertext = encrypt(plaintext, &key).unwrap();
    assert_eq!(ciphertext.len(), plaintext.len() + OVERHEAD);
}

#[test]
fn high_level_empty_input() {
    let key = generate_key();
    let ciphertext = encrypt(b"", &key).unwrap();
    assert_eq!(ciphertext.len(), OVERHEAD);
    let decrypted = decrypt(&ciphertext, &key).unwrap();
    assert!(decrypted.is_empty());
}

#[test]
fn low_level_roundtrip() {
    let key = generate_key();
    let nonce = generate_nonce();
    let plaintext = b"low-level API";
    let ct = encrypt_with_nonce(plaintext, &key, &nonce).unwrap();
    assert_eq!(ct.len(), plaintext.len() + TAG_LEN);
    let pt = decrypt_with_nonce(&ct, &key, &nonce).unwrap();
    assert_eq!(&pt, plaintext);
}

#[test]
fn decryption_fails_with_wrong_key() {
    let key1 = generate_key();
    let key2 = generate_key();
    let plaintext = b"secret data";
    let ciphertext = encrypt(plaintext, &key1).unwrap();
    assert!(decrypt(&ciphertext, &key2).is_err());
}

#[test]
fn decryption_fails_with_wrong_nonce() {
    let key = generate_key();
    let nonce1 = generate_nonce();
    let nonce2 = generate_nonce();
    let plaintext = b"secret data";
    let ct = encrypt_with_nonce(plaintext, &key, &nonce1).unwrap();
    assert!(decrypt_with_nonce(&ct, &key, &nonce2).is_err());
}

#[test]
fn decryption_fails_on_tampered_ciphertext() {
    let key = generate_key();
    let mut ciphertext = encrypt(b"tamper me", &key).unwrap();
    ciphertext[NONCE_LEN + 1] ^= 0xFF; // flip a bit in the ciphertext
    assert!(decrypt(&ciphertext, &key).is_err());
}

#[test]
fn decryption_fails_on_truncated_input() {
    let key = generate_key();
    assert!(decrypt(b"", &key).is_err());
    assert!(decrypt(&[0u8; OVERHEAD - 1], &key).is_err());
}

#[test]
fn key_generation_produces_32_bytes() {
    let key = generate_key();
    assert_eq!(key.len(), KEY_LEN);
}

#[test]
fn nonce_generation_produces_12_bytes() {
    let nonce = generate_nonce();
    assert_eq!(nonce.len(), NONCE_LEN);
}

#[test]
fn different_keys_are_different() {
    let key1 = generate_key();
    let key2 = generate_key();
    assert_ne!(key1, key2);
}

#[test]
fn encrypt_produces_different_ciphertexts_each_time() {
    let key = generate_key();
    let plaintext = b"same data";
    let c1 = encrypt(plaintext, &key).unwrap();
    let c2 = encrypt(plaintext, &key).unwrap();
    // Different nonces -> different outputs
    assert_ne!(c1, c2);
    // Both should decrypt correctly
    assert_eq!(decrypt(&c1, &key).unwrap(), plaintext);
    assert_eq!(decrypt(&c2, &key).unwrap(), plaintext);
}

#[test]
fn large_data_roundtrip() {
    let key = generate_key();
    let plaintext = vec![0xABu8; 100_000];
    let ciphertext = encrypt(&plaintext, &key).unwrap();
    assert_eq!(ciphertext.len(), plaintext.len() + OVERHEAD);
    let decrypted = decrypt(&ciphertext, &key).unwrap();
    assert_eq!(decrypted, plaintext);
}

#[test]
fn x25519_keypair_public_is_32_bytes() {
    let kp = generate_keypair();
    assert_eq!(kp.public.len(), KEY_LEN);
}

#[test]
fn x25519_shared_secret_matches_on_both_sides() {
    let alice = generate_keypair();
    let bob = generate_keypair();
    let alice_pk = alice.public;
    let bob_pk = bob.public;
    let alice_key = derive_session_key(alice, &bob_pk);
    let bob_key = derive_session_key(bob, &alice_pk);
    assert_eq!(alice_key, bob_key);
}

#[test]
fn x25519_different_keys_produce_different_secrets() {
    let alice = generate_keypair();
    let bob = generate_keypair();
    let eve = generate_keypair();
    let _alice_pk = alice.public;
    let bob_pk = bob.public;
    let eve_pk = eve.public;
    let alice_bob = derive_session_key(alice, &bob_pk);
    let alice_eve = derive_session_key(bob, &eve_pk);
    assert_ne!(alice_bob, alice_eve);
}

#[test]
fn x25519_derived_key_works_with_aes_gcm() {
    let alice = generate_keypair();
    let bob = generate_keypair();
    let alice_pk = alice.public;
    let bob_pk = bob.public;
    let alice_key = derive_session_key(alice, &bob_pk);
    let bob_key = derive_session_key(bob, &alice_pk);
    assert_eq!(alice_key, bob_key);
    let plaintext = b"encrypted after DH key exchange!";
    let ct = encrypt(plaintext, &alice_key).unwrap();
    let pt = decrypt(&ct, &bob_key).unwrap();
    assert_eq!(&pt, plaintext);
}

#[test]
fn prefixed_form_starts_with_its_nonce() {
    let key = [7u8; 32];
    let nonce = [9u8; 12];
    let framed = encrypt_with_prefix(b"abc", &key, &nonce).unwrap();
    assert_eq!(&framed[..12], &nonce);
    assert_eq!(&framed[12..], &encrypt_with_nonce(b"abc", &key, &nonce).unwrap()[..]);
    assert_eq!(decrypt(&framed, &key).unwrap(), b"abc");
}

#[test]
fn decrypt_errors_name_their_cause() {
    let key = [1u8; 32];
    assert_eq!(decrypt(&[0u8; 27], &key), Err(CryptoError::TruncatedCiphertext));
    assert_eq!(decrypt(&[0u8; 28], &key), Err(CryptoError::DecryptionFailed));
}

#[test]
fn session_key_is_sha256_of_secret_and_label() {
    // SHA-256 of 32 zero bytes followed by "sonic-share-session-key-v1".
    let key = session_key_from_shared(&[0u8; 32]);
    let mut input = vec![0u8; 32];
    input.extend_from_slice(b"sonic-share-session-key-v1");
    let expected: [u8; 32] = sha2::Sha256::digest(&input).into();
    assert_eq!(key, expected);
    assert_ne!(key, session_key_from_shared(&[1u8; 32]));
}
