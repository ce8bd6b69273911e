//! AES-256-GCM encryption for the acoustic link, in two forms: with the
//! nonce prepended to the ciphertext, or with the nonce kept by the caller;
//! and X25519 key agreement for a session key.

use vstd::prelude::*;
use crate::bytes::{append_bytes, copy_range};
use crate::transfer::digest::{sha256, sha256_spec};

verus! {

/// AES-256 key length in bytes.
pub const KEY_LEN: usize = 32;
/// AES-256-GCM nonce length in bytes.
pub const NONCE_LEN: usize = 12;
/// AES-256-GCM authentication tag length in bytes.
pub const TAG_LEN: usize = 16;
/// Overhead of the nonce-prefixed form: nonce and tag.
pub const OVERHEAD: usize = NONCE_LEN + TAG_LEN;
/// Longest plaintext that AES-GCM encrypts (2^36 bytes).
pub const MAX_PLAINTEXT: u64 = 0x10_0000_0000;

/// Why an encryption or decryption failed.
#[derive(Debug, Clone, Copy, PartialEq, Eq, Structural)]
pub enum CryptoError {
    EncryptionFailed,
    DecryptionFailed,
    InvalidKeyLength,
    InvalidNonceLength,
    TruncatedCiphertext,
}

impl CryptoError {
    /// Human-readable description of the error.
    pub fn message(&self) -> (res: &'static str)
        ensures
            res@ == match self {
                CryptoError::EncryptionFailed => "AES-256-GCM encryption failed"@,
                CryptoError::DecryptionFailed => "AES-256-GCM decryption failed"@,
                CryptoError::InvalidKeyLength => "key must be exactly 32 bytes"@,
                CryptoError::InvalidNonceLength => "nonce must be exactly 12 bytes"@,
                CryptoError::TruncatedCiphertext => "ciphertext is too short (missing nonce or tag)"@,
            },
    {
        proof {
            reveal_strlit("AES-256-GCM encryption failed");
            reveal_strlit("AES-256-GCM decryption failed");
            reveal_strlit("key must be exactly 32 bytes");
            reveal_strlit("nonce must be exactly 12 bytes");
            reveal_strlit("ciphertext is too short (missing nonce or tag)");
        }
        match self {
            CryptoError::EncryptionFailed => "AES-256-GCM encryption failed",
            CryptoError::DecryptionFailed => "AES-256-GCM decryption failed",
            CryptoError::InvalidKeyLength => "key must be exactly 32 bytes",
            CryptoError::InvalidNonceLength => "nonce must be exactly 12 bytes",
            CryptoError::TruncatedCiphertext => "ciphertext is too short (missing nonce or tag)",
        }
    }
}

#[verifier::external_type_specification]
#[verifier::external_body]
pub struct ExAeadError(aes_gcm::Error);

#[verifier::external_type_specification]
#[verifier::external_body]
pub struct ExEphemeralSecret(x25519_dalek::EphemeralSecret);

/// The ciphertext and tag that `aes_gcm::Aes256Gcm` computes for
/// `plaintext` under `key` and `nonce` (no associated data).
pub uninterp spec fn aes_gcm_seal_spec(key: Seq<u8>, nonce: Seq<u8>, plaintext: Seq<u8>) -> Seq<u8>;

/// What `aes_gcm::Aes256Gcm` decrypts from `data` under `key` and `nonce`,
/// or `None` when the tag does not authenticate it.
pub uninterp spec fn aes_gcm_open_spec(key: Seq<u8>, nonce: Seq<u8>, data: Seq<u8>) -> Option<Seq<u8>>;

/// `Aes256Gcm::new_from_slice(key)` then `encrypt(nonce, plaintext)`.
/// Claimed, from the crate's source: a 32-byte key is always accepted; the
/// encryption succeeds exactly for plaintexts of at most 2^36 bytes; the
/// result is `aes_gcm_seal_spec` of the inputs, 16 bytes longer than the
/// plaintext, and decrypts under the same key and nonce to the plaintext.
#[verifier::external_body]
fn aes_seal(key: &[u8; 32], nonce: &[u8; 12], plaintext: &[u8]) -> (res: Result<Vec<u8>, aes_gcm::Error>)
    ensures
        res is Ok <==> plaintext@.len() <= MAX_PLAINTEXT,
        res matches Ok(sealed) ==> {
            &&& sealed@ == aes_gcm_seal_spec(key@, nonce@, plaintext@)
            &&& sealed@.len() == plaintext@.len() + TAG_LEN
            &&& aes_gcm_open_spec(key@, nonce@, sealed@) == Some(plaintext@)
        },
{
    let cipher = <aes_gcm::Aes256Gcm as aes_gcm::aead::KeyInit>::new_from_slice(key).map_err(
        |_| aes_gcm::Error,
    )?;
    aes_gcm::aead::Aead::encrypt(&cipher, aes_gcm::Nonce::from_slice(nonce), plaintext)
}

/// `Aes256Gcm::new_from_slice(key)` then `decrypt(nonce, data)`. Claimed:
/// the outcome is `aes_gcm_open_spec` of the inputs.
#[verifier::external_body]
fn aes_open(key: &[u8; 32], nonce: &[u8; 12], data: &[u8]) -> (res: Result<Vec<u8>, aes_gcm::Error>)
    ensures
        match res {
            Ok(plain) => aes_gcm_open_spec(key@, nonce@, data@) == Some(plain@),
            Err(_) => aes_gcm_open_spec(key@, nonce@, data@) is None,
        },
{
    let cipher = <aes_gcm::Aes256Gcm as aes_gcm::aead::KeyInit>::new_from_slice(key).map_err(
        |_| aes_gcm::Error,
    )?;
    aes_gcm::aead::Aead::decrypt(&cipher, aes_gcm::Nonce::from_slice(nonce), data)
}

/// A random 256-bit key from the operating system (`OsRng`). Nothing is
/// claimed of its bytes.
#[verifier::external_body]
pub fn generate_key() -> [u8; 32] {
    let mut key = [0u8; 32];
    rand::RngCore::fill_bytes(&mut rand::rngs::OsRng, &mut key);
    key
}

/// A random 12-byte nonce from the operating system (`OsRng`). Nothing is
/// claimed of its bytes.
#[verifier::external_body]
pub fn generate_nonce() -> [u8; 12] {
    let mut nonce = [0u8; 12];
    rand::RngCore::fill_bytes(&mut rand::rngs::OsRng, &mut nonce);
    nonce
}

/// Encrypts `plaintext` under `key` and `nonce`: the ciphertext and its tag,
/// without the nonce.
pub fn encrypt_with_nonce(plaintext: &[u8], key: &[u8; 32], nonce: &[u8; 12]) -> (res: Result<Vec<u8>, CryptoError>)
    ensures
        res is Ok <==> plaintext@.len() <= MAX_PLAINTEXT,
        match res {
            Ok(sealed) => {
                &&& sealed@ == aes_gcm_seal_spec(key@, nonce@, plaintext@)
                &&& sealed@.len() == plaintext@.len() + TAG_LEN
                &&& aes_gcm_open_spec(key@, nonce@, sealed@) == Some(plaintext@)
            },
            Err(e) => e == CryptoError::EncryptionFailed,
        },
{
    match aes_seal(key, nonce, plaintext) {
        Ok(sealed) => Ok(sealed),
        Err(_) => Err(CryptoError::EncryptionFailed),
    }
}

/// Decrypts a ciphertext and tag made under `key` and `nonce`.
pub fn decrypt_with_nonce(data: &[u8], key: &[u8; 32], nonce: &[u8; 12]) -> (res: Result<Vec<u8>, CryptoError>)
    ensures
        match res {
            Ok(plain) => aes_gcm_open_spec(key@, nonce@, data@) == Some(plain@),
            Err(e) => aes_gcm_open_spec(key@, nonce@, data@) is None && e
                == CryptoError::DecryptionFailed,
        },
{
    match aes_open(key, nonce, data) {
        Ok(plain) => Ok(plain),
        Err(_) => Err(CryptoError::DecryptionFailed),
    }
}

/// What `decrypt` makes of `data` under `key`: too short for a nonce and a
/// tag, or the opening of the rest under the leading nonce.
pub open spec fn decrypt_spec(data: Seq<u8>, key: Seq<u8>) -> Result<Seq<u8>, CryptoError> {
    if data.len() < OVERHEAD {
        Err(CryptoError::TruncatedCiphertext)
    } else {
        match aes_gcm_open_spec(key, data.subrange(0, NONCE_LEN as int), data.subrange(NONCE_LEN as int, data.len() as int)) {
            Some(plain) => Ok(plain),
            None => Err(CryptoError::DecryptionFailed),
        }
    }
}

/// Encrypts `plaintext` under `key` with the given nonce, which leads the
/// result. Decrypting the result under `key` gives the plaintext back.
pub fn encrypt_with_prefix(plaintext: &[u8], key: &[u8; 32], nonce: &[u8; 12]) -> (res: Result<Vec<u8>, CryptoError>)
    ensures
        res is Ok <==> plaintext@.len() <= MAX_PLAINTEXT,
        match res {
            Ok(framed) => {
                &&& framed@ == nonce@ + aes_gcm_seal_spec(key@, nonce@, plaintext@)
                &&& framed@.len() == plaintext@.len() + OVERHEAD
                &&& decrypt_spec(framed@, key@) == Ok::<Seq<u8>, CryptoError>(plaintext@)
            },
            Err(e) => e == CryptoError::EncryptionFailed,
        },
{
    let sealed = match encrypt_with_nonce(plaintext, key, nonce) {
        Ok(sealed) => sealed,
        Err(e) => {
            return Err(e);
        },
    };
    let mut framed: Vec<u8> = Vec::new();
    append_bytes(&mut framed, nonce);
    append_bytes(&mut framed, sealed.as_slice());
    proof {
        assert(framed@.subrange(0, NONCE_LEN as int) =~= nonce@);
        assert(framed@.subrange(NONCE_LEN as int, framed@.len() as int) =~= sealed@);
    }
    Ok(framed)
}

/// Encrypts `plaintext` under `key` with a fresh random nonce, which leads
/// the result. Decrypting the result under `key` gives the plaintext back.
pub fn encrypt(plaintext: &[u8], key: &[u8; 32]) -> (res: Result<Vec<u8>, CryptoError>)
    ensures
        res is Ok <==> plaintext@.len() <= MAX_PLAINTEXT,
        match res {
            Ok(framed) => {
                &&& framed@.len() == plaintext@.len() + OVERHEAD
                &&& decrypt_spec(framed@, key@) == Ok::<Seq<u8>, CryptoError>(plaintext@)
                &&& exists|nonce: Seq<u8>|
                    nonce.len() == NONCE_LEN && framed@ == nonce + aes_gcm_seal_spec(
                        key@,
                        nonce,
                        plaintext@,
                    )
            },
            Err(e) => e == CryptoError::EncryptionFailed,
        },
{
    let nonce = generate_nonce();
    encrypt_with_prefix(plaintext, key, &nonce)
}

/// Decrypts data made by `encrypt` under `key`.
pub fn decrypt(data: &[u8], key: &[u8; 32]) -> (res: Result<Vec<u8>, CryptoError>)
    ensures
        match res {
            Ok(plain) => decrypt_spec(data@, key@) == Ok::<Seq<u8>, CryptoError>(plain@),
            Err(e) => decrypt_spec(data@, key@) == Err::<Seq<u8>, CryptoError>(e),
        },
{
    if data.len() < OVERHEAD {
        return Err(CryptoError::TruncatedCiphertext);
    }
    let nonce: [u8; 12] = [
        data[0],
        data[1],
        data[2],
        data[3],
        data[4],
        data[5],
        data[6],
        data[7],
        data[8],
        data[9],
        data[10],
        data[11],
    ];
    let rest = copy_range(data, NONCE_LEN, data.len());
    proof {
        assert(nonce@ =~= data@.subrange(0, NONCE_LEN as int));
    }
    decrypt_with_nonce(rest.as_slice(), key, &nonce)
}

/// An X25519 ephemeral keypair for Diffie-Hellman key exchange.
pub struct Keypair {
    /// The 32-byte X25519 public key.
    pub public: [u8; 32],
    secret: x25519_dalek::EphemeralSecret,
}

/// A fresh keypair from the operating system's randomness
/// (`EphemeralSecret::random_from_rng(OsRng)` and its `PublicKey`). Nothing
/// is claimed of the keys.
#[verifier::external_body]
pub fn generate_keypair() -> Keypair {
    let secret = x25519_dalek::EphemeralSecret::random_from_rng(rand::rngs::OsRng);
    let public = x25519_dalek::PublicKey::from(&secret).to_bytes();
    Keypair { public, secret }
}

/// The X25519 shared secret of `secret` and `peer_public`
/// (`secret.diffie_hellman(&PublicKey::from(peer_public)).to_bytes()`).
/// Nothing is claimed of it: it depends on a secret that has no value here.
#[verifier::external_body]
fn x25519_shared(secret: x25519_dalek::EphemeralSecret, peer_public: &[u8; 32]) -> [u8; 32] {
    secret.diffie_hellman(&x25519_dalek::PublicKey::from(*peer_public)).to_bytes()
}

/// The label hashed after the shared secret.
pub open spec fn session_label() -> Seq<u8> {
    "sonic-share-session-key-v1"@.map_values(|c: char| c as u8)
}

/// The session key of a shared secret: SHA-256 of the secret and the label.
pub fn session_key_from_shared(shared: &[u8; 32]) -> (res: [u8; 32])
    ensures
        res@ == sha256_spec(shared@ + session_label()),
{
    let label: [u8; 26] = [
        0x73, 0x6f, 0x6e, 0x69, 0x63, 0x2d, 0x73, 0x68, 0x61, 0x72, 0x65, 0x2d, 0x73, 0x65, 0x73,
        0x73, 0x69, 0x6f, 0x6e, 0x2d, 0x6b, 0x65, 0x79, 0x2d, 0x76, 0x31,
    ];
    proof {
        reveal_strlit("sonic-share-session-key-v1");
        assert(label@ =~= session_label());
    }
    let mut input: Vec<u8> = Vec::new();
    append_bytes(&mut input, shared);
    append_bytes(&mut input, &label);
    sha256(input.as_slice())
}

/// Performs X25519 with `keypair` and `peer_public` and derives the 32-byte
/// AES-256-GCM session key from the shared secret.
pub fn derive_session_key(keypair: Keypair, peer_public: &[u8; 32]) -> (res: [u8; 32])
    ensures
        exists|shared: Seq<u8>| shared.len() == 32 && res@ == sha256_spec(shared + session_label()),
{
    let shared = x25519_shared(keypair.secret, peer_public);
    session_key_from_shared(&shared)
}

} // verus!
