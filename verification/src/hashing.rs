//! SHA-2 digests, computed by the `sha2` crate.
use vstd::prelude::*;
use sha2::Digest;

verus! {

/// The SHA-256 digest of a byte string, as the `sha2` crate computes it.
pub uninterp spec fn sha256_digest(data: Seq<u8>) -> Seq<u8>;

/// The SHA-512 digest of a byte string, as the `sha2` crate computes it.
pub uninterp spec fn sha512_digest(data: Seq<u8>) -> Seq<u8>;

/// Calls `sha2::Sha256::digest`. Trusted: the result is the SHA-256 digest of
/// `data` (named, not stated), which is 32 bytes long, as its output type
/// `GenericArray<u8, U32>` fixes.
#[verifier::external_body]
pub(crate) fn sha256(data: &[u8]) -> (digest: [u8; 32])
    ensures
        digest@ == sha256_digest(data@),
        digest@.len() == 32,
{
    sha2::Sha256::digest(data).into()
}

/// Calls `sha2::Sha512::digest`. Trusted: the result is the SHA-512 digest of
/// `data` (named, not stated), which is 64 bytes long, as its output type
/// `GenericArray<u8, U64>` fixes.
#[verifier::external_body]
pub(crate) fn sha512(data: &[u8]) -> (digest: [u8; 64])
    ensures
        digest@ == sha512_digest(data@),
        digest@.len() == 64,
{
    sha2::Sha512::digest(data).into()
}

} // verus!
