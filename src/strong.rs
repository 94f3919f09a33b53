//! The strong hash that confirms a weak-checksum hit.
use vstd::prelude::*;

verus! {

/// The 128-bit XXH3 hash of `data`.
pub uninterp spec fn xxh3_128_of(data: Seq<u8>) -> u128;

/// Relies on `xxhash_rust::xxh3::xxh3_128`: the 128-bit XXH3 hash of the
/// bytes, with the default seed and secret, which depends on the bytes alone.
#[verifier::external_body]
pub(crate) fn strong_hash(data: &[u8]) -> (r: u128)
    ensures
        r == xxh3_128_of(data@),
{
    xxhash_rust::xxh3::xxh3_128(data)
}

} // verus!
