//! Message digests.

use vstd::prelude::*;

verus! {

/// The SHA-256 digest of `data`.
pub uninterp spec fn sha256_digest(data: Seq<u8>) -> [u8; 32];

/// The RIPEMD-160 digest of `data`.
pub uninterp spec fn ripemd160_digest(data: Seq<u8>) -> [u8; 20];

/// The Keccak-256 digest of `data`, with the padding that Ethereum uses.
pub uninterp spec fn keccak256_digest(data: Seq<u8>) -> [u8; 32];

/// `bitcoin::hashes::sha256::Hash::hash` is a function of the bytes that it is given; its result
/// is named, not described.
#[verifier::external_body]
pub(crate) fn compute_sha256(data: &[u8]) -> (digest: [u8; 32])
    ensures
        digest == sha256_digest(data@),
{
    let digest: bitcoin::hashes::sha256::Hash = bitcoin::hashes::Hash::hash(data);
    bitcoin::hashes::Hash::into_inner(digest)
}

/// `ripemd::Ripemd160::digest` is a function of the bytes that it is given; its result is named,
/// not described.
#[verifier::external_body]
pub(crate) fn compute_ripemd160(data: &[u8]) -> (digest: [u8; 20])
    ensures
        digest == ripemd160_digest(data@),
{
    <ripemd::Ripemd160 as ripemd::Digest>::digest(data).into()
}

/// `sha3::Keccak256::digest` is a function of the bytes that it is given; its result is named, not
/// described.
#[verifier::external_body]
pub(crate) fn keccak256(data: &[u8]) -> (digest: [u8; 32])
    ensures
        digest == keccak256_digest(data@),
{
    ethereum_types::H256::from_slice(&<sha3::Keccak256 as sha3::Digest>::digest(data)).0
}

} // verus!
