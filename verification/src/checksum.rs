//! Payload checksum.
use vstd::prelude::*;

verus! {

/// The XXH3 64-bit hash of a byte string.
pub uninterp spec fn xxh3(data: Seq<u8>) -> u64;

/// Calls `xxhash_rust::xxh3::xxh3_64`: the hash is a function of the bytes.
#[verifier::external_body]
pub(crate) fn xxh3_64(data: &[u8]) -> (hash: u64)
    ensures
        hash == xxh3(data@),
{
    xxhash_rust::xxh3::xxh3_64(data)
}

} // verus!
