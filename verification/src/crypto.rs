//! Trusted bindings to the cryptographic environment: a random-byte source
//! and the fixed 32-byte SHA-256 digest, both provided by sodiumoxide.

use vstd::prelude::*;

verus! {

/// SHA-256 as a mathematical function: the digest is determined by the
/// input bytes alone, on every machine and in every process.
pub uninterp spec fn sha256_of(data: Seq<u8>) -> Seq<u8>;

/// Relies on `sodiumoxide::crypto::hash::sha256::hash`: a pure function of
/// the message, returning a digest of exactly 32 bytes.
#[verifier::external_body]
pub(crate) fn sha256(data: &Vec<u8>) -> (r: Vec<u8>)
    ensures
        r@ == sha256_of(data@),
        r@.len() == 32,
{
    let sodiumoxide::crypto::hash::sha256::Digest(h) =
        sodiumoxide::crypto::hash::sha256::hash(data.as_slice());
    h.to_vec()
}

/// Relies on `sodiumoxide::randombytes::randombytes`: `n` bytes of
/// cryptographically strong randomness.  Nothing can be promised of the
/// bytes themselves.
#[verifier::external_body]
pub(crate) fn random_bytes(n: usize) -> (r: Vec<u8>)
    ensures
        r@.len() == n,
{
    sodiumoxide::randombytes::randombytes(n)
}

/// Relies on `sodiumoxide::init`: readies the library so later calls are
/// thread-safe.  The library still serves single-threaded callers when
/// initialization reports failure, so the result is not propagated.
#[verifier::external_body]
pub(crate) fn crypto_init() {
    let _ = sodiumoxide::init();
}

} // verus!
