//! The hash functions this crate relies on, by name.
//!
//! Nothing is proved of either function beyond what its signature gives: the
//! digest is 32 bytes long and depends on the input bytes alone.

use sha2::{Digest, Sha256};
use sha3::Sha3_256;
use vstd::prelude::*;

verus! {

/// The SHA-256 digest of a byte string.
pub uninterp spec fn sha256(data: Seq<u8>) -> Seq<u8>;

/// The SHA3-256 digest of a byte string.
pub uninterp spec fn sha3_256(data: Seq<u8>) -> Seq<u8>;

/// `sha2::Sha256::digest`: hashes `data` with a fresh hasher. Trusted: the
/// 32 bytes returned are the function `sha256` of the bytes given.
#[verifier::external_body]
pub(crate) fn sha256_digest(data: &[u8]) -> (digest: [u8; 32])
    ensures
        digest@ == sha256(data@),
{
    Sha256::digest(data).into()
}

/// `sha3::Sha3_256::digest`: hashes `data` with a fresh hasher. Trusted: the
/// 32 bytes returned are the function `sha3_256` of the bytes given.
#[verifier::external_body]
pub(crate) fn sha3_256_digest(data: &[u8]) -> (digest: [u8; 32])
    ensures
        digest@ == sha3_256(data@),
{
    Sha3_256::digest(data).into()
}

} // verus!
