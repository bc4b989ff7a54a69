//! Digests, message authentication, signatures and random bytes.

use ed25519_dalek::{Signature, VerifyingKey};
use hmac::{Hmac, Mac as _};
use sha2::{Digest as _, Sha256};
use vstd::prelude::*;
use zeroize::Zeroize as _;

verus! {

/// What `getrandom` reports when the operating system gives no random bytes.
#[verifier::external_type_specification]
#[verifier::external_body]
pub struct ExRandomError(getrandom::Error);

/// `getrandom::fill` overwrites a buffer with random bytes or fails. Which bytes come, and
/// whether the call fails, is left open.
#[verifier::external_body]
pub(crate) fn random_bytes(len: usize) -> (r: Result<Vec<u8>, getrandom::Error>)
    requires
        len <= 0x3fff_ffff,
    ensures
        r matches Ok(bytes) ==> bytes@.len() == len,
{
    let mut bytes = vec![0_u8; len];
    getrandom::fill(&mut bytes).map(|_| bytes)
}

/// Whether bytes, or the failure to get any, are what the operating system gave when so many random
/// ones were asked for.
pub closed spec fn is_random_draw(len: usize, drawn: Result<Vec<u8>, getrandom::Error>) -> bool {
    call_ensures(random_bytes, (len,), drawn)
}

/// Asks the operating system for random bytes.
pub(crate) fn draw_bytes(len: usize) -> (drawn: Result<Vec<u8>, getrandom::Error>)
    requires
        len <= 0x3fff_ffff,
    ensures
        is_random_draw(len, drawn),
        drawn matches Ok(bytes) ==> bytes@.len() == len,
{
    random_bytes(len)
}

/// `Zeroize::zeroize` of a vector overwrites its bytes and its spare capacity with zeros, and
/// leaves it empty. That the memory was overwritten is left unsaid: it cannot be seen in the
/// vector.
#[verifier::external_body]
pub(crate) fn wipe(bytes: &mut Vec<u8>)
    ensures
        final(bytes)@ == Seq::<u8>::empty(),
{
    bytes.zeroize();
}

/// The SHA-256 digest of a byte string.
pub uninterp spec fn sha256(data: Seq<u8>) -> Seq<u8>;

/// `Sha256::digest` gives the SHA-256 digest, which has 32 bytes.
#[verifier::external_body]
pub(crate) fn sha256_digest(data: &[u8]) -> (digest: Vec<u8>)
    ensures
        digest@ == sha256(data@),
        digest@.len() == 32,
{
    Sha256::digest(data).to_vec()
}

/// The BLAKE3 digest of a byte string.
pub uninterp spec fn blake3(data: Seq<u8>) -> Seq<u8>;

/// `blake3::hash` gives the BLAKE3 digest, which has 32 bytes.
#[verifier::external_body]
pub(crate) fn blake3_digest(data: &[u8]) -> (digest: Vec<u8>)
    ensures
        digest@ == blake3(data@),
        digest@.len() == 32,
{
    blake3::hash(data).as_bytes().to_vec()
}

/// The HMAC-SHA-256 tag of a byte string under a key.
pub uninterp spec fn hmac_sha256(key: Seq<u8>, data: Seq<u8>) -> Seq<u8>;

/// What a keyed construction reports when a key has a length that it does not take.
#[verifier::external_type_specification]
#[verifier::external_body]
pub struct ExInvalidLength(hmac::digest::InvalidLength);

/// `Hmac::<Sha256>` takes keys of every length and gives a tag of 32 bytes.
#[verifier::external_body]
pub(crate) fn hmac_sha256_tag(key: &[u8], data: &[u8]) -> (r: Result<
    Vec<u8>,
    hmac::digest::InvalidLength,
>)
    ensures
        r is Ok,
        r matches Ok(tag) ==> tag@ == hmac_sha256(key@, data@) && tag@.len() == 32,
{
    <Hmac<Sha256> as hmac::digest::KeyInit>::new_from_slice(key).map(
        |mac| mac.chain_update(data).finalize().into_bytes().to_vec(),
    )
}

/// Whether 32 bytes are an Ed25519 public key that, under strict verification, accepts the
/// signature of 64 bytes on the message.
pub uninterp spec fn ed25519_accepts(
    public_key: Seq<u8>,
    message: Seq<u8>,
    signature: Seq<u8>,
) -> bool;

/// What `ed25519_dalek` reports for a key or a signature that it does not accept.
#[verifier::external_type_specification]
#[verifier::external_body]
pub struct ExSignatureError(ed25519_dalek::SignatureError);

/// `VerifyingKey::from_bytes`, then `VerifyingKey::verify_strict`: succeeds exactly where the
/// bytes are a public key and the key accepts the signature.
#[verifier::external_body]
pub(crate) fn ed25519_verify_strict(public_key: &[u8], message: &[u8], signature: &[u8]) -> (r:
    Result<(), ed25519_dalek::SignatureError>)
    requires
        public_key@.len() == 32,
        signature@.len() == 64,
    ensures
        r is Ok == ed25519_accepts(public_key@, message@, signature@),
{
    let public_key: &[u8; 32] = public_key.try_into().unwrap();
    let signature: &[u8; 64] = signature.try_into().unwrap();
    VerifyingKey::from_bytes(public_key)?.verify_strict(message, &Signature::from_bytes(signature))
}

} // verus!
