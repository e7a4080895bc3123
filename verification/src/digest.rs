//! The hash that guards each chunk against corruption on the way.

use vstd::prelude::*;

verus! {

/// The 64-bit XXH3 hash of `data`, with the default seed and secret.
pub uninterp spec fn xxh3_64(data: Seq<u8>) -> u64;

/// `twox_hash::XxHash3_64::oneshot`: the hash of the whole of `data`.
#[verifier::external_body]
pub(crate) fn xxh3_64_oneshot(data: &[u8]) -> (hash: u64)
    ensures
        hash == xxh3_64(data@),
{
    twox_hash::XxHash3_64::oneshot(data)
}

} // verus!
