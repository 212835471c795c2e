//! MetroHash, as the `fasthash` crate computes it. The table keys its trie
//! nodes, its out-records and its dead nonce list by these hashes.
//!
//! Nothing here is proved of the hash function itself. The library relies on
//! one thing only: the same bytes, and the same seed, always give the same
//! hash.

use vstd::prelude::*;

verus! {

/// What `fasthash::metro::hash64` returns for `bytes`: with the features
/// that the crate is built with, the 64-bit MetroHash of them under seed 0.
pub uninterp spec fn metro_hash64(bytes: Seq<u8>) -> u64;

/// What `fasthash::metro::hash64_with_seed` returns for `bytes` and `seed`:
/// the 64-bit MetroHash of the bytes under that seed.
pub uninterp spec fn metro_hash64_with_seed(bytes: Seq<u8>, seed: u32) -> u64;

/// Calls `fasthash::metro::hash64`. The contract claims only that the result
/// is a function of the bytes: equal bytes hash alike. Nothing is claimed of
/// unequal bytes, which may collide.
#[verifier::external_body]
pub(crate) fn hash64(bytes: &[u8]) -> (h: u64)
    ensures
        h == metro_hash64(bytes@),
{
    fasthash::metro::hash64(bytes)
}

/// Calls `fasthash::metro::hash64_with_seed`. The contract claims only that
/// the result is a function of the bytes and the seed.
#[verifier::external_body]
pub(crate) fn hash64_with_seed(bytes: &[u8], seed: u32) -> (h: u64)
    ensures
        h == metro_hash64_with_seed(bytes@, seed),
{
    fasthash::metro::hash64_with_seed(bytes, seed)
}

} // verus!
