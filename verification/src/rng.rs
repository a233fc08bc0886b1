//! The source of randomness. Nothing is assumed of a rolled value
//! beyond its range, so every caller is verified for every outcome.

use rand::Rng;
use vstd::prelude::*;

verus! {

/// Relies on `rand::Rng::gen_range` over an inclusive range: it returns
/// a value of the range, and panics only when the range is empty, which
/// the precondition rules out. Nothing more is claimed: two calls on
/// the same range may differ.
#[verifier::external_body]
pub(crate) fn rand_in_range(lo: i32, hi: i32) -> (r: i32)
    requires
        lo <= hi,
    ensures
        lo <= r <= hi,
{
    rand::thread_rng().gen_range(lo..=hi)
}

} // verus!
