//! Signatures (Ed25519) and authenticated symmetric encryption (AES-256-GCM).
use vstd::prelude::*;

use crate::error::Error;
use crate::object::EncryptionAlg;

verus! {

/// Size of an AES-256-GCM key.
pub const AES256GCM_KEY_SIZE: usize = 32;

/// Size of an AES-256-GCM nonce.
pub const AES256GCM_NONCE_SIZE: usize = 12;

/// Size of an AES-256-GCM tag.
pub const AES256GCM_TAG_SIZE: usize = 16;

/// The longest plaintext AES-256-GCM seals, in bytes.
pub const AES256GCM_MAX_INPUT: u64 = 68_719_476_704;

#[verifier::external_type_specification]
#[verifier::external_body]
pub struct ExEd25519KeyPair(ring::signature::Ed25519KeyPair);

/// Whether `sig` is a valid Ed25519 signature of `msg` under the public key `pk`.
pub uninterp spec fn ed25519_valid(pk: Seq<u8>, msg: Seq<u8>, sig: Seq<u8>) -> bool;

/// AES-256-GCM encryption of `pt` under `key` and `nonce`, with an empty
/// associated data: the ciphertext followed by the tag.
pub uninterp spec fn aes_gcm_seal(key: Seq<u8>, nonce: Seq<u8>, pt: Seq<u8>) -> Seq<u8>;

/// AES-256-GCM decryption of `ct` (ciphertext followed by tag) under `key`
/// and `nonce`, with an empty associated data; none where the tag does not
/// authenticate it.
pub uninterp spec fn aes_gcm_open(key: Seq<u8>, nonce: Seq<u8>, ct: Seq<u8>) -> Option<Seq<u8>>;

/// Relies on ring::signature::Ed25519KeyPair::sign and KeyPair::public_key:
/// the key pair's 32-byte public key and a 64-byte signature of `msg` that
/// verifies under it.
#[verifier::external_body]
pub(crate) fn ed25519_sign(keypair: &ring::signature::Ed25519KeyPair, msg: &[u8]) -> (r: (
    Vec<u8>,
    Vec<u8>,
))
    ensures
        r.0@.len() == 32,
        r.1@.len() == 64,
        ed25519_valid(r.0@, msg@, r.1@),
{
    let pk = ring::signature::KeyPair::public_key(keypair).as_ref().to_vec();
    (pk, keypair.sign(msg).as_ref().to_vec())
}

/// Relies on ring::signature::KeyPair::public_key for Ed25519KeyPair: the
/// 32-byte public key.
#[verifier::external_body]
pub(crate) fn ed25519_public_key(keypair: &ring::signature::Ed25519KeyPair) -> (r: Vec<u8>)
    ensures
        r@.len() == 32,
{
    ring::signature::KeyPair::public_key(keypair).as_ref().to_vec()
}

/// Relies on ring::signature::UnparsedPublicKey::verify with ED25519: success
/// depends on the key, the message and the signature alone.
#[verifier::external_body]
pub(crate) fn ed25519_verify(pk: &[u8], msg: &[u8], sig: &[u8]) -> (r: bool)
    ensures
        r == ed25519_valid(pk@, msg@, sig@),
{
    ring::signature::UnparsedPublicKey::new(&ring::signature::ED25519, pk).verify(msg, sig).is_ok()
}

/// Relies on ring::aead::UnboundKey::new, which refuses a key of any length
/// but 32 for AES_256_GCM, and LessSafeKey::seal_in_place_append_tag, which
/// appends a 16-byte tag, fails only on inputs past `AES256GCM_MAX_INPUT`
/// bytes, and whose output `open_in_place` turns back into the plaintext.
#[verifier::external_body]
fn aes_gcm_seal_raw(key: &[u8], nonce: &[u8], pt: &[u8]) -> (r: Option<Vec<u8>>)
    requires
        nonce@.len() == AES256GCM_NONCE_SIZE,
    ensures
        key@.len() != AES256GCM_KEY_SIZE ==> r.is_none(),
        key@.len() == AES256GCM_KEY_SIZE && pt@.len() <= AES256GCM_MAX_INPUT ==> r.is_some(),
        r matches Some(c) ==> c@ == aes_gcm_seal(key@, nonce@, pt@) && c@.len() == pt@.len()
            + AES256GCM_TAG_SIZE,
        r matches Some(c) ==> aes_gcm_open(key@, nonce@, c@) == Some(pt@),
{
    let k = ring::aead::UnboundKey::new(&ring::aead::AES_256_GCM, key).ok()?;
    let k = ring::aead::LessSafeKey::new(k);
    let n = ring::aead::Nonce::try_assume_unique_for_key(nonce).ok()?;
    let mut buf = pt.to_vec();
    k.seal_in_place_append_tag(n, ring::aead::Aad::empty(), &mut buf).ok()?;
    Some(buf)
}

/// Relies on ring::aead::UnboundKey::new, which refuses a key of any length
/// but 32 for AES_256_GCM, and LessSafeKey::open_in_place, which fails where
/// the tag does not authenticate the ciphertext.
#[verifier::external_body]
fn aes_gcm_open_raw(key: &[u8], nonce: &[u8], ct: &[u8]) -> (r: Option<Vec<u8>>)
    requires
        nonce@.len() == AES256GCM_NONCE_SIZE,
    ensures
        key@.len() != AES256GCM_KEY_SIZE ==> r.is_none(),
        key@.len() == AES256GCM_KEY_SIZE ==> match r {
            Some(p) => aes_gcm_open(key@, nonce@, ct@) == Some(p@),
            None => aes_gcm_open(key@, nonce@, ct@).is_none(),
        },
{
    let k = ring::aead::UnboundKey::new(&ring::aead::AES_256_GCM, key).ok()?;
    let k = ring::aead::LessSafeKey::new(k);
    let n = ring::aead::Nonce::try_assume_unique_for_key(nonce).ok()?;
    let mut buf = ct.to_vec();
    let len = k.open_in_place(n, ring::aead::Aad::empty(), &mut buf).ok()?.len();
    buf.truncate(len);
    Some(buf)
}

/// Encrypts `plaintext`: the result is the nonce, the ciphertext, then the tag.
pub fn seal(algorithm: EncryptionAlg, secret_key: &[u8], nonce: &[u8], plaintext: &[u8]) -> (r:
    Result<Vec<u8>, Error>)
    ensures
        nonce@.len() != AES256GCM_NONCE_SIZE ==> r == Err::<Vec<u8>, Error>(Error::CryptoFailure),
        secret_key@.len() != AES256GCM_KEY_SIZE ==> r == Err::<Vec<u8>, Error>(
            Error::CryptoFailure,
        ),
        r matches Err(e) ==> e == Error::CryptoFailure,
        nonce@.len() == AES256GCM_NONCE_SIZE && secret_key@.len() == AES256GCM_KEY_SIZE
            && plaintext@.len() <= AES256GCM_MAX_INPUT ==> r.is_ok(),
        r matches Ok(c) ==> c@ == nonce@ + aes_gcm_seal(secret_key@, nonce@, plaintext@),
        r matches Ok(c) ==> c@.len() == AES256GCM_NONCE_SIZE + plaintext@.len() + AES256GCM_TAG_SIZE,
        r matches Ok(c) ==> aes_gcm_open(
            secret_key@,
            c@.subrange(0, AES256GCM_NONCE_SIZE as int),
            c@.subrange(AES256GCM_NONCE_SIZE as int, c@.len() as int),
        ) == Some(plaintext@),
{
    match algorithm {
        EncryptionAlg::Aes256Gcm => {},
    }
    if nonce.len() != AES256GCM_NONCE_SIZE {
        return Err(Error::CryptoFailure);
    }
    match aes_gcm_seal_raw(secret_key, nonce, plaintext) {
        Some(sealed) => {
            let mut out: Vec<u8> = Vec::new();
            out.extend_from_slice(nonce);
            out.extend_from_slice(sealed.as_slice());
            assert(out@.subrange(0, AES256GCM_NONCE_SIZE as int) =~= nonce@);
            assert(out@.subrange(AES256GCM_NONCE_SIZE as int, out@.len() as int) =~= sealed@);
            Ok(out)
        },
        None => Err(Error::CryptoFailure),
    }
}

/// Decrypts a blob made by `seal`: rejects one shorter than a nonce, a key
/// of the wrong length, and any blob whose tag does not authenticate it.
pub fn unseal(algorithm: EncryptionAlg, secret_key: &[u8], ciphertext: &[u8]) -> (r: Result<
    Vec<u8>,
    Error,
>)
    ensures
        r matches Err(e) ==> e == Error::CryptoFailure,
        ciphertext@.len() < AES256GCM_NONCE_SIZE ==> r.is_err(),
        secret_key@.len() != AES256GCM_KEY_SIZE ==> r.is_err(),
        ciphertext@.len() >= AES256GCM_NONCE_SIZE && secret_key@.len() == AES256GCM_KEY_SIZE
            ==> match aes_gcm_open(
            secret_key@,
            ciphertext@.subrange(0, AES256GCM_NONCE_SIZE as int),
            ciphertext@.subrange(AES256GCM_NONCE_SIZE as int, ciphertext@.len() as int),
        ) {
            Some(p) => r.is_ok() && r.unwrap()@ == p,
            None => r.is_err(),
        },
{
    match algorithm {
        EncryptionAlg::Aes256Gcm => {},
    }
    if ciphertext.len() < AES256GCM_NONCE_SIZE {
        return Err(Error::CryptoFailure);
    }
    let nonce = slice_range(ciphertext, 0, AES256GCM_NONCE_SIZE);
    let body = slice_range(ciphertext, AES256GCM_NONCE_SIZE, ciphertext.len());
    match aes_gcm_open_raw(secret_key, nonce.as_slice(), body.as_slice()) {
        Some(p) => Ok(p),
        None => Err(Error::CryptoFailure),
    }
}

/// The bytes of `s` from `from` up to `to`.
fn slice_range(s: &[u8], from: usize, to: usize) -> (r: Vec<u8>)
    requires
        from <= to <= s@.len(),
    ensures
        r@ == s@.subrange(from as int, to as int),
{
    let mut out: Vec<u8> = Vec::new();
    let mut i: usize = from;
    while i < to
        invariant
            from <= i <= to,
            to <= s@.len(),
            out@ == s@.subrange(from as int, i as int),
        decreases to - i,
    {
        out.push(s[i]);
        assert(s@.subrange(from as int, i + 1) =~= s@.subrange(from as int, i as int).push(s@[i as int]));
        i = i + 1;
    }
    out
}

} // verus!
