//! The hash function under every digest.
use fastcrypto::hash::{Blake2b256, HashFunction};
use vstd::prelude::*;

verus! {

/// The 32 bytes that BLAKE2b, with a digest of 256 bits, gives for `data`.
pub uninterp spec fn blake2b256(data: Seq<u8>) -> Seq<u8>;

/// Hashes `data` with `fastcrypto::hash::Blake2b256::digest`. The contract
/// gives the digest a name and claims nothing else of it: that equal bytes
/// have equal digests, and that there are 32 bytes.
#[verifier::external_body]
pub(crate) fn default_hash(data: &[u8]) -> (r: [u8; 32])
    ensures
        r@ == blake2b256(data@),
{
    Blake2b256::digest(data).digest
}

} // verus!
