//! Hashing of keys for the aggregator's index.

use vstd::prelude::*;

verus! {

/// What `xxh3_64` gives for the bytes of a key.
pub uninterp spec fn xxh3_of(key: Seq<u8>) -> u64;

/// Relies on xxhash_rust::const_xxh3::xxh3_64 (seed 0): a 64-bit hash that
/// depends on the bytes alone. Two keys may share a hash; the index keeps a
/// bucket of keys per hash, so nothing here needs more than that.
#[verifier::external_body]
pub(crate) fn key_hash(key: &[u8]) -> (r: u64)
    ensures
        r == xxh3_of(key@),
{
    xxhash_rust::const_xxh3::xxh3_64(key)
}

} // verus!
