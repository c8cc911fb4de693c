//! Trusted wrappers around the `crypto` crate's hash and signature
//! primitives, and around `rand`'s operating-system randomness. Each
//! digest or signature is named by an uninterpreted function of its
//! inputs: the library's contracts speak of those names.

use vstd::prelude::*;

verus! {

/// The 32-byte SHA-256 digest of `data`: a function of the bytes alone.
pub uninterp spec fn sha256_of(data: Seq<u8>) -> Seq<u8>;

/// The SHA-256 digest of `data` as lowercase hex text: a function of the
/// bytes alone.
pub uninterp spec fn sha256_hex_of(data: Seq<u8>) -> Seq<char>;

/// The 20-byte RIPEMD-160 digest of `data`: a function of the bytes alone.
pub uninterp spec fn ripemd160_of(data: Seq<u8>) -> Seq<u8>;

/// The ed25519 signature of `message` under a 64-byte secret key: a
/// function of its two arguments alone.
pub uninterp spec fn ed25519_sig_of(message: Seq<u8>, secret_key: Seq<u8>) -> Seq<u8>;

/// Whether a signature checks out against a message and a 32-byte public
/// key: a function of its three arguments alone.
pub uninterp spec fn ed25519_verify_of(message: Seq<u8>, public_key: Seq<u8>, signature: Seq<u8>) -> bool;

/// Relies on crypto::sha2::Sha256 through Digest::result_str: the digest
/// of `data` as 64 lowercase hexadecimal characters.
#[verifier::external_body]
pub fn sha256_hex(data: &[u8]) -> (r: String)
    ensures
        r@ == sha256_hex_of(data@),
        r@.len() == 64,
        crate::codec::hexish(r@),
{
    let mut hasher = crypto::sha2::Sha256::new();
    crypto::digest::Digest::input(&mut hasher, data);
    crypto::digest::Digest::result_str(&mut hasher)
}

/// Relies on crypto::sha2::Sha256 through Digest::result: the 32-byte
/// digest of `data`.
#[verifier::external_body]
pub fn sha256_digest(data: &[u8]) -> (r: Vec<u8>)
    ensures
        r@ == sha256_of(data@),
        r@.len() == 32,
{
    let mut hasher = crypto::sha2::Sha256::new();
    crypto::digest::Digest::input(&mut hasher, data);
    let mut out: [u8; 32] = [0; 32];
    crypto::digest::Digest::result(&mut hasher, &mut out);
    out.to_vec()
}

/// Relies on crypto::ripemd160::Ripemd160 through Digest::result: the
/// 20-byte digest of `data`.
#[verifier::external_body]
pub fn ripemd160_digest(data: &[u8]) -> (r: Vec<u8>)
    ensures
        r@ == ripemd160_of(data@),
        r@.len() == 20,
{
    let mut hasher = crypto::ripemd160::Ripemd160::new();
    crypto::digest::Digest::input(&mut hasher, data);
    let mut out: [u8; 20] = [0; 20];
    crypto::digest::Digest::result(&mut hasher, &mut out);
    out.to_vec()
}

/// Relies on crypto::ed25519::signature: the 64-byte signature of
/// `message`, deterministic in the message and the secret key. It indexes
/// 64 bytes of the key, so shorter keys are excluded.
#[verifier::external_body]
pub fn ed25519_sign(message: &[u8], secret_key: &[u8]) -> (r: Vec<u8>)
    requires
        secret_key@.len() == 64,
    ensures
        r@ == ed25519_sig_of(message@, secret_key@),
        r@.len() == 64,
{
    crypto::ed25519::signature(message, secret_key).to_vec()
}

/// Relies on crypto::ed25519::verify: whether `signature` checks out for
/// `message` under `public_key`, deterministic in all three. It indexes
/// 64 signature bytes and 32 key bytes, so other lengths are excluded.
#[verifier::external_body]
pub fn ed25519_check(message: &[u8], public_key: &[u8], signature: &[u8]) -> (r: bool)
    requires
        public_key@.len() == 32,
        signature@.len() == 64,
    ensures
        r == ed25519_verify_of(message@, public_key@, signature@),
{
    crypto::ed25519::verify(message, public_key, signature)
}

/// Relies on crypto::ed25519::keypair: a 64-byte secret key and a 32-byte
/// public key derived from a 32-byte seed. Only the lengths are stated.
#[verifier::external_body]
pub fn ed25519_keypair(seed: &[u8]) -> (r: (Vec<u8>, Vec<u8>))
    requires
        seed@.len() == 32,
    ensures
        r.0@.len() == 64,
        r.1@.len() == 32,
{
    let (secret, public) = crypto::ed25519::keypair(seed);
    (secret.to_vec(), public.to_vec())
}

/// Relies on rand::rngs::OsRng through RngCore::fill_bytes: 32 bytes of
/// operating-system randomness. Nothing is promised of their values, and
/// the process aborts if the operating system's randomness source fails,
/// as it would on any use of this generator.
#[verifier::external_body]
pub fn random_seed() -> (r: Vec<u8>)
    ensures
        r@.len() == 32,
{
    let mut key: [u8; 32] = [0; 32];
    rand::RngCore::fill_bytes(&mut rand::rngs::OsRng, &mut key);
    key.to_vec()
}

} // verus!
