//! The library's only randomness: two thin wrappers over the `rand` crate.
//! Everything downstream of them is verified for every value they may
//! return.

use vstd::prelude::*;
use rand::Rng;
use rand::prelude::SliceRandom;

verus! {

/// Relies on rand's `SliceRandom::shuffle`: an in-place Fisher-Yates pass
/// built from swaps, so it permutes the slice — the contents, taken as a
/// multiset, are unchanged. It does not panic.
#[verifier::external_body]
pub(crate) fn shuffle_ids(v: &mut Vec<u32>)
    ensures
        final(v)@.len() == old(v)@.len(),
        final(v)@.to_multiset() == old(v)@.to_multiset(),
{
    v.shuffle(&mut rand::thread_rng());
}

/// Relies on rand's `Rng::gen_range` on an inclusive range: it returns a
/// value between the bounds and panics only on an empty range, which the
/// precondition rules out.
#[verifier::external_body]
pub(crate) fn random_in_range(lo: u32, hi: u32) -> (r: u32)
    requires
        lo <= hi,
    ensures
        lo <= r <= hi,
{
    rand::thread_rng().gen_range(lo..=hi)
}

} // verus!
