//! Uniform draws from an inclusive integer range.

use vstd::prelude::*;
use rand::Rng;

verus! {

/// Relies on `rand::rng().random_range(lo..=hi)`: a draw from the inclusive
/// range `[lo, hi]`, which panics only when the range is empty.
#[verifier::external_body]
pub(crate) fn random_in_range(lo: i128, hi: i128) -> (r: i128)
    requires
        lo <= hi,
    ensures
        lo <= r <= hi,
{
    rand::rng().random_range(lo..=hi)
}

} // verus!
