//! AEAD encryption of symbols.
//!
//! Each symbol is sealed under a nonce derived from its session id and ESI, so
//! a relay can route symbols but never read them.
use crate::endian::{le_bytes, lemma_le_len, lemma_le_roundtrip, lemma_pow256, push_le};
use argon2::Argon2;
use chacha20poly1305::aead::{Aead, KeyInit, Payload};
use chacha20poly1305::{ChaCha20Poly1305, Key, Nonce};
use vstd::prelude::*;
use vstd::utf8::encode_utf8;

verus! {

/// The longest symbol that can be sealed: what the cipher's block counter
/// covers.
pub const MAX_SEALED_DATA: u64 = 274877906816;

/// The number of bytes that sealing adds.
pub const TAG_LEN: usize = 16;

/// Why a symbol could not be opened.
#[derive(Debug, PartialEq, Eq)]
pub enum CryptoError {
    /// Tampering, a wrong key, or a symbol that was sealed for another place;
    /// with the cipher's own words.
    Decrypt(String),
}

/// `aead::Error`, the cipher's only error.
#[verifier::external_type_specification]
#[verifier::external_body]
pub struct ExAeadError(chacha20poly1305::aead::Error);

/// The 256-bit key that Argon2id with default parameters derives from a
/// password and a salt.
pub uninterp spec fn argon2id_key(password: Seq<u8>, salt: Seq<u8>) -> Seq<u8>;

/// What ChaCha20-Poly1305 makes of a message: ciphertext and tag.
pub uninterp spec fn aead_seal(
    key: Seq<u8>,
    nonce: Seq<u8>,
    aad: Seq<u8>,
    msg: Seq<u8>,
) -> Seq<u8>;

/// What ChaCha20-Poly1305 reads out of ciphertext and tag; `None` if they are
/// not authentic.
pub uninterp spec fn aead_open(
    key: Seq<u8>,
    nonce: Seq<u8>,
    aad: Seq<u8>,
    data: Seq<u8>,
) -> Option<Seq<u8>>;

/// Calls `Argon2::default().hash_password_into` with a 32-byte output: the key
/// is a function of password and salt. A password beyond 2^32 - 1 bytes and a
/// salt that is shorter than 8 bytes or longer than 2^32 - 1 are errors, and
/// are excluded.
#[verifier::external_body]
fn derive_key(password: &[u8], salt: &[u8]) -> (key: [u8; 32])
    requires
        password@.len() <= 0xFFFF_FFFF,
        8 <= salt@.len() <= 0xFFFF_FFFF,
    ensures
        key@ == argon2id_key(password@, salt@),
{
    let mut key = [0u8; 32];
    Argon2::default()
        .hash_password_into(password, salt, &mut key)
        .expect("argon2 key derivation");
    key
}

/// Calls `ChaCha20Poly1305::encrypt`: the sealed message is a function of key,
/// nonce, associated data and message, is 16 bytes longer than the message, and
/// opens to the message. A nonce that has not 12 bytes panics, and so does a
/// message beyond the block counter; both are excluded.
#[verifier::external_body]
fn seal(key: &[u8; 32], nonce: &[u8], aad: &[u8], msg: &[u8]) -> (sealed: Vec<u8>)
    requires
        nonce@.len() == 12,
        msg@.len() <= MAX_SEALED_DATA,
    ensures
        sealed@ == aead_seal(key@, nonce@, aad@, msg@),
        sealed@.len() == msg@.len() + 16,
        aead_open(key@, nonce@, aad@, sealed@) == Some(msg@),
{
    ChaCha20Poly1305::new(Key::from_slice(key))
        .encrypt(Nonce::from_slice(nonce), Payload { msg, aad })
        .expect("chacha20poly1305 encryption")
}

/// Calls `ChaCha20Poly1305::decrypt`: what is opened is a function of key,
/// nonce, associated data and sealed message; only what sealing yields opens.
/// A nonce that has not 12 bytes panics, and so may data beyond the block
/// counter; both are excluded.
#[verifier::external_body]
fn open(key: &[u8; 32], nonce: &[u8], aad: &[u8], data: &[u8]) -> (opened: Result<
    Vec<u8>,
    chacha20poly1305::aead::Error,
>)
    requires
        nonce@.len() == 12,
        data@.len() <= MAX_SEALED_DATA + 16,
    ensures
        match opened {
            Ok(msg) => {
                &&& aead_open(key@, nonce@, aad@, data@) == Some(msg@)
                &&& data@ == aead_seal(key@, nonce@, aad@, msg@)
                &&& data@.len() == msg@.len() + 16
            },
            Err(_) => aead_open(key@, nonce@, aad@, data@) is None,
        },
{
    ChaCha20Poly1305::new(Key::from_slice(key))
        .decrypt(Nonce::from_slice(nonce), Payload { msg: data, aad })
}

/// Calls `ToString::to_string` on `aead::Error`, whose text is fixed.
#[verifier::external_body]
fn error_text(e: &chacha20poly1305::aead::Error) -> (text: String)
    ensures
        text@ == "aead::Error"@,
{
    e.to_string()
}

/// The salt that every key is derived with.
pub open spec fn salt_bytes() -> Seq<u8> {
    encode_utf8("orbit-transfer-v1-salt"@)
}

/// The key that a passphrase stands for.
pub open spec fn session_key(secret: Seq<char>) -> Seq<u8> {
    argon2id_key(encode_utf8(secret), salt_bytes())
}

/// The nonce of symbol `esi` of a session.
pub open spec fn nonce_bytes(session_id: u64, esi: u32) -> Seq<u8> {
    le_bytes(session_id as nat, 8) + le_bytes(esi as nat, 4)
}

/// A sealed symbol.
pub open spec fn sealed_symbol(key: Seq<u8>, session_id: u64, esi: u32, data: Seq<u8>) -> Seq<u8> {
    aead_seal(key, nonce_bytes(session_id, esi), nonce_bytes(session_id, esi), data)
}

/// What a sealed symbol opens to; `None` if it is not authentic or longer than
/// any sealed symbol.
pub open spec fn opened_symbol(
    key: Seq<u8>,
    session_id: u64,
    esi: u32,
    data: Seq<u8>,
) -> Option<Seq<u8>> {
    if data.len() <= MAX_SEALED_DATA + TAG_LEN {
        aead_open(key, nonce_bytes(session_id, esi), nonce_bytes(session_id, esi), data)
    } else {
        None
    }
}

/// AEAD session cipher.
#[derive(Clone)]
pub struct SessionCipher {
    key: [u8; 32],
}

impl SessionCipher {
    /// The 256-bit key.
    pub closed spec fn key(&self) -> Seq<u8> {
        self.key@
    }

    /// Derives a 256-bit key from a passphrase using Argon2id.
    pub fn new(secret: &str) -> (cipher: Self)
        requires
            encode_utf8(secret@).len() <= 0xFFFF_FFFF,
        ensures
            cipher.key() == session_key(secret@),
    {
        let salt: &[u8] = "orbit-transfer-v1-salt".as_bytes();
        proof {
            reveal_strlit("orbit-transfer-v1-salt");
            vstd::utf8::is_ascii_chars_encode_utf8("orbit-transfer-v1-salt"@);
        }
        SessionCipher { key: derive_key(secret.as_bytes(), salt) }
    }

    /// The nonce of symbol `esi` of a session.
    fn nonce(session_id: u64, esi: u32) -> (nonce: Vec<u8>)
        ensures
            nonce@ == nonce_bytes(session_id, esi),
            nonce@.len() == 12,
    {
        let mut n: Vec<u8> = Vec::new();
        push_le(&mut n, session_id, 8);
        push_le(&mut n, esi as u64, 4);
        proof {
            lemma_le_len(session_id as nat, 8);
            lemma_le_len(esi as nat, 4);
            assert(n@ =~= nonce_bytes(session_id, esi));
        }
        n
    }

    /// Seals one encoded symbol. Output = ciphertext || 16-byte tag. It opens to
    /// the symbol under the same session id and ESI.
    pub fn seal_symbol(&self, session_id: u64, esi: u32, data: &[u8]) -> (sealed: Vec<u8>)
        requires
            data@.len() <= MAX_SEALED_DATA,
        ensures
            sealed@ == sealed_symbol(self.key(), session_id, esi, data@),
            sealed@.len() == data@.len() + TAG_LEN,
            opened_symbol(self.key(), session_id, esi, sealed@) == Some(data@),
    {
        let nonce = Self::nonce(session_id, esi);
        seal(&self.key, nonce.as_slice(), nonce.as_slice(), data)
    }

    /// Opens one encoded symbol. Fails on tampering or wrong key.
    pub fn open_symbol(&self, session_id: u64, esi: u32, data: &[u8]) -> (opened: Result<
        Vec<u8>,
        CryptoError,
    >)
        ensures
            match opened {
                Ok(msg) => {
                    &&& opened_symbol(self.key(), session_id, esi, data@) == Some(msg@)
                    &&& data@ == sealed_symbol(self.key(), session_id, esi, msg@)
                    &&& data@.len() == msg@.len() + TAG_LEN
                },
                Err(CryptoError::Decrypt(text)) => {
                    &&& opened_symbol(self.key(), session_id, esi, data@) is None
                    &&& text@ == "aead::Error"@
                },
            },
    {
        let nonce = Self::nonce(session_id, esi);
        if data.len() as u64 > MAX_SEALED_DATA + 16 {
            return Err(CryptoError::Decrypt("aead::Error".to_owned()));
        }
        match open(&self.key, nonce.as_slice(), nonce.as_slice(), data) {
            Ok(msg) => Ok(msg),
            Err(e) => Err(CryptoError::Decrypt(error_text(&e))),
        }
    }
}

/// No two symbols share a nonce: a nonce tells session id and ESI.
pub proof fn law_nonces_are_distinct(a: u64, x: u32, b: u64, y: u32)
    requires
        nonce_bytes(a, x) == nonce_bytes(b, y),
    ensures
        a == b,
        x == y,
{
    lemma_pow256();
    lemma_le_len(a as nat, 8);
    lemma_le_len(b as nat, 8);
    lemma_le_len(x as nat, 4);
    lemma_le_len(y as nat, 4);
    lemma_le_roundtrip(a as nat, 8);
    lemma_le_roundtrip(b as nat, 8);
    lemma_le_roundtrip(x as nat, 4);
    lemma_le_roundtrip(y as nat, 4);
    assert(nonce_bytes(a, x).take(8) =~= le_bytes(a as nat, 8));
    assert(nonce_bytes(b, y).take(8) =~= le_bytes(b as nat, 8));
    assert(nonce_bytes(a, x).skip(8) =~= le_bytes(x as nat, 4));
    assert(nonce_bytes(b, y).skip(8) =~= le_bytes(y as nat, 4));
}

} // verus!
