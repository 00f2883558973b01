//! Keccak-256 digests.

use vstd::prelude::*;

verus! {

/// A Keccak-256 digest: 32 bytes.
pub type Keccak256 = Vec<u8>;

/// Number of bytes in a digest.
pub const DIGEST_LEN: usize = 32;

/// The Keccak-256 digest of a byte string, as a mathematical function. It
/// stands for what `sha3` computes; nothing is stated of its values.
pub uninterp spec fn keccak256(data: Seq<u8>) -> Seq<u8>;

/// Computes the Keccak-256 digest of `data` by `sha3::Digest::digest` for
/// `sha3::Keccak256`.
///
/// Trusted: the result is a function of the input bytes alone, here called
/// `keccak256`, and is 32 bytes long. What the digest of given bytes is, is
/// not stated.
#[verifier::external_body]
pub(crate) fn keccak(data: &Vec<u8>) -> (digest: Vec<u8>)
    ensures
        digest@ == keccak256(data@),
        digest@.len() == DIGEST_LEN,
{
    <sha3::Keccak256 as sha3::Digest>::digest(data.as_slice()).to_vec()
}

/// Creates the Keccak-256 digest of the given data.
pub fn hash(data: &Vec<u8>) -> (digest: Keccak256)
    ensures
        digest@ == keccak256(data@),
        digest@.len() == DIGEST_LEN,
{
    keccak(data)
}

} // verus!
