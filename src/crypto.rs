//! Cryptographic primitives used by the handshake and the framing codec.
//!
//! Elliptic-curve operations come from secp256k1, hashing from
//! `bitcoin::hashes`, and the AEAD cipher from `chacha20poly1305`. Each
//! outside call stands behind one small trusted wrapper whose result is
//! given a name; everything built on top of them is verified here.

use vstd::prelude::*;
use bitcoin::hashes::{sha256, HashEngine, Hmac, HmacEngine};
use bitcoin::secp256k1::{ecdh::SharedSecret, PublicKey, Secp256k1, SecretKey};
use chacha20poly1305::aead::{Aead, Payload};
use chacha20poly1305::{ChaCha20Poly1305, Key, KeyInit, Nonce};

verus! {

/// Size of a symmetric key, a hash and a secret key.
pub const KEY_LEN: usize = 32;
/// Size of a compressed public key.
pub const PUBKEY_LEN: usize = 33;
/// Size of an AEAD authentication tag.
pub const TAG_LEN: usize = 16;

/// SHA-256 digest of `data`.
pub uninterp spec fn sha256_of(data: Seq<u8>) -> Seq<u8>;

/// HMAC-SHA256 of `data` under `key`.
pub uninterp spec fn hmac_of(key: Seq<u8>, data: Seq<u8>) -> Seq<u8>;

/// Whether 32 bytes are a secret scalar within the curve order.
pub uninterp spec fn is_secret_key(bytes: Seq<u8>) -> bool;

/// Whether bytes encode a point on the curve.
pub uninterp spec fn is_public_key(bytes: Seq<u8>) -> bool;

/// Compressed public key of a secret key.
pub uninterp spec fn public_key_of(secret: Seq<u8>) -> Seq<u8>;

/// Diffie-Hellman shared secret (SHA-256 of the compressed shared point).
pub uninterp spec fn ecdh_of(secret: Seq<u8>, point: Seq<u8>) -> Seq<u8>;

/// ChaCha20-Poly1305 ciphertext with its tag appended.
pub uninterp spec fn seal_of(key: Seq<u8>, nonce: Seq<u8>, ad: Seq<u8>, msg: Seq<u8>) -> Seq<u8>;

/// Relies on `sha256::Hash::hash`: a 32-byte digest of the input.
#[verifier::external_body]
pub(crate) fn sha256(data: &[u8]) -> (r: Vec<u8>)
    ensures
        r@ == sha256_of(data@),
        r@.len() == KEY_LEN,
{
    let digest: sha256::Hash = bitcoin::hashes::Hash::hash(data);
    bitcoin::hashes::Hash::to_byte_array(digest).to_vec()
}

/// Relies on `HmacEngine::<sha256::Hash>` and `Hmac::from_engine`: the
/// 32-byte HMAC-SHA256 tag of `data` under `key`.
#[verifier::external_body]
pub(crate) fn hmac_sha256(key: &[u8], data: &[u8]) -> (r: Vec<u8>)
    ensures
        r@ == hmac_of(key@, data@),
        r@.len() == KEY_LEN,
{
    let mut engine = HmacEngine::<sha256::Hash>::new(key);
    engine.input(data);
    let tag: Hmac<sha256::Hash> = bitcoin::hashes::Hash::from_engine(engine);
    bitcoin::hashes::Hash::to_byte_array(tag).to_vec()
}

/// Relies on `SecretKey::from_slice`: accepts exactly the 32-byte
/// scalars that are non-zero and below the curve order.
#[verifier::external_body]
pub(crate) fn secret_key_valid(bytes: &[u8]) -> (r: bool)
    ensures
        r == is_secret_key(bytes@),
        r ==> bytes@.len() == KEY_LEN,
{
    SecretKey::from_slice(bytes).is_ok()
}

/// Relies on `PublicKey::from_slice`: accepts the encodings of curve points.
#[verifier::external_body]
pub(crate) fn public_key_valid(bytes: &[u8]) -> (r: bool)
    ensures
        r == is_public_key(bytes@),
{
    PublicKey::from_slice(bytes).is_ok()
}

/// Relies on `PublicKey::from_secret_key` and `PublicKey::serialize`: the
/// compressed encoding of the point, which is itself a valid public key.
#[verifier::external_body]
pub(crate) fn public_key_from_secret(secret: &[u8]) -> (r: Vec<u8>)
    requires
        is_secret_key(secret@),
    ensures
        r@ == public_key_of(secret@),
        r@.len() == PUBKEY_LEN,
        is_public_key(r@),
{
    let sk = SecretKey::from_slice(secret).expect("valid secret key");
    PublicKey::from_secret_key(&Secp256k1::signing_only(), &sk).serialize().to_vec()
}

/// Relies on `SharedSecret::new`: the SHA-256 of the compressed shared point.
#[verifier::external_body]
pub(crate) fn ecdh(secret: &[u8], point: &[u8]) -> (r: Vec<u8>)
    requires
        is_secret_key(secret@),
        is_public_key(point@),
    ensures
        r@ == ecdh_of(secret@, point@),
        r@.len() == KEY_LEN,
{
    let sk = SecretKey::from_slice(secret).expect("valid secret key");
    let pk = PublicKey::from_slice(point).expect("valid public key");
    SharedSecret::new(&pk, &sk).secret_bytes().to_vec()
}

/// Relies on `ChaCha20Poly1305::encrypt`: the ciphertext is as long as the
/// message, followed by a 16-byte tag. It fails only on messages of
/// 2^38 bytes and more.
#[verifier::external_body]
pub(crate) fn aead_seal(key: &[u8], nonce: &[u8], ad: &[u8], msg: &[u8]) -> (r: Vec<u8>)
    requires
        key@.len() == KEY_LEN,
        nonce@.len() == 12,
        msg@.len() <= 0x1_0000_0000,
    ensures
        r@ == seal_of(key@, nonce@, ad@, msg@),
        r@.len() == msg@.len() + TAG_LEN,
{
    let cipher = ChaCha20Poly1305::new(Key::from_slice(key));
    cipher.encrypt(Nonce::from_slice(nonce), Payload { msg, aad: ad }).expect("message within bounds")
}

/// Relies on `ChaCha20Poly1305::decrypt`: it returns the message exactly
/// when the ciphertext is the sealing of that message under the same key,
/// nonce and associated data, and fails otherwise. Decryption is a
/// function of its inputs, so at most one message seals to `ct`.
#[verifier::external_body]
pub(crate) fn aead_open(key: &[u8], nonce: &[u8], ad: &[u8], ct: &[u8]) -> (r: Option<Vec<u8>>)
    requires
        key@.len() == KEY_LEN,
        nonce@.len() == 12,
        ct@.len() <= 0x1_0000_0000,
    ensures
        match r {
            Some(m) => ct@ == seal_of(key@, nonce@, ad@, m@) && forall|m2: Seq<u8>|
                ct@ == #[trigger] seal_of(key@, nonce@, ad@, m2) ==> m2 == m@,
            None => forall|m: Seq<u8>| ct@ != #[trigger] seal_of(key@, nonce@, ad@, m),
        },
{
    let cipher = ChaCha20Poly1305::new(Key::from_slice(key));
    cipher.decrypt(Nonce::from_slice(nonce), Payload { msg: ct, aad: ad }).ok()
}

/// AEAD nonce for a message counter: four zero bytes, then the counter
/// in little-endian order.
pub open spec fn nonce_of(n: u64) -> Seq<u8> {
    seq![
        0u8, 0u8, 0u8, 0u8,
        (n & 0xff) as u8,
        ((n >> 8u64) & 0xff) as u8,
        ((n >> 16u64) & 0xff) as u8,
        ((n >> 24u64) & 0xff) as u8,
        ((n >> 32u64) & 0xff) as u8,
        ((n >> 40u64) & 0xff) as u8,
        ((n >> 48u64) & 0xff) as u8,
        ((n >> 56u64) & 0xff) as u8,
    ]
}

/// Pseudo-random key extracted from `ikm` with `salt`.
pub open spec fn hkdf_prk(salt: Seq<u8>, ikm: Seq<u8>) -> Seq<u8> {
    hmac_of(salt, ikm)
}

/// First 32-byte output block of HKDF-SHA256 with empty info.
pub open spec fn hkdf_first(salt: Seq<u8>, ikm: Seq<u8>) -> Seq<u8> {
    hmac_of(hkdf_prk(salt, ikm), seq![1u8])
}

/// Second 32-byte output block of HKDF-SHA256 with empty info.
pub open spec fn hkdf_second(salt: Seq<u8>, ikm: Seq<u8>) -> Seq<u8> {
    hmac_of(hkdf_prk(salt, ikm), hkdf_first(salt, ikm) + seq![2u8])
}

/// Encodes a message counter as an AEAD nonce.
pub fn nonce_bytes(n: u64) -> (r: Vec<u8>)
    ensures
        r@ == nonce_of(n),
{
    let mut v: Vec<u8> = Vec::new();
    v.push(0u8);
    v.push(0u8);
    v.push(0u8);
    v.push(0u8);
    v.push((n & 0xff) as u8);
    v.push(((n >> 8u64) & 0xff) as u8);
    v.push(((n >> 16u64) & 0xff) as u8);
    v.push(((n >> 24u64) & 0xff) as u8);
    v.push(((n >> 32u64) & 0xff) as u8);
    v.push(((n >> 40u64) & 0xff) as u8);
    v.push(((n >> 48u64) & 0xff) as u8);
    v.push(((n >> 56u64) & 0xff) as u8);
    assert(v@ =~= nonce_of(n));
    v
}

/// HKDF-SHA256 with empty info, yielding two 32-byte blocks.
pub fn hkdf(salt: &[u8], ikm: &[u8]) -> (r: (Vec<u8>, Vec<u8>))
    ensures
        r.0@ == hkdf_first(salt@, ikm@),
        r.1@ == hkdf_second(salt@, ikm@),
        r.0@.len() == KEY_LEN,
        r.1@.len() == KEY_LEN,
{
    let prk = hmac_sha256(salt, ikm);
    let one: Vec<u8> = vec![1u8];
    let t1 = hmac_sha256(prk.as_slice(), one.as_slice());
    assert(one@ =~= seq![1u8]);
    let mut info2: Vec<u8> = t1.clone();
    info2.push(2u8);
    assert(info2@ =~= t1@ + seq![2u8]);
    let t2 = hmac_sha256(prk.as_slice(), info2.as_slice());
    (t1, t2)
}

/// Seals `msg` under `key` with the nonce for counter `n`.
pub fn encrypt_with_counter(key: &[u8], n: u64, ad: &[u8], msg: &[u8]) -> (r: Vec<u8>)
    requires
        key@.len() == KEY_LEN,
        msg@.len() <= 0x1_0000_0000,
    ensures
        r@ == seal_of(key@, nonce_of(n), ad@, msg@),
        r@.len() == msg@.len() + TAG_LEN,
{
    let nonce = nonce_bytes(n);
    aead_seal(key, nonce.as_slice(), ad, msg)
}

/// Opens `ct` under `key` with the nonce for counter `n`.
pub fn decrypt_with_counter(key: &[u8], n: u64, ad: &[u8], ct: &[u8]) -> (r: Option<Vec<u8>>)
    requires
        key@.len() == KEY_LEN,
        ct@.len() <= 0x1_0000_0000,
    ensures
        match r {
            Some(m) => ct@ == seal_of(key@, nonce_of(n), ad@, m@) && forall|m2: Seq<u8>|
                ct@ == #[trigger] seal_of(key@, nonce_of(n), ad@, m2) ==> m2 == m@,
            None => forall|m: Seq<u8>| ct@ != #[trigger] seal_of(key@, nonce_of(n), ad@, m),
        },
{
    let nonce = nonce_bytes(n);
    aead_open(key, nonce.as_slice(), ad, ct)
}

} // verus!
