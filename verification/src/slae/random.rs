//! The calls into the random number generator.
//!
//! Nothing here is proved: each contract states what the generator's
//! documentation and source promise of every outcome.
use rand::rngs::SmallRng;
use rand::seq::SliceRandom;
use rand::Rng;
use vstd::prelude::*;

verus! {

/// `rand::rngs::SmallRng`, the generator that every fixture is drawn from.
/// Its state is opaque.
#[verifier::external_type_specification]
#[verifier::external_body]
pub struct ExSmallRng(SmallRng);

/// `Rng::gen_range` on the half-open range from `low` to `high`: the value
/// drawn lies in the range. The call panics on an empty range.
#[verifier::external_body]
pub(crate) fn gen_range(rng: &mut SmallRng, low: i32, high: i32) -> (v: i32)
    requires
        low < high,
    ensures
        low <= v < high,
{
    rng.gen_range(low..high)
}

/// `Rng::gen_ratio`: true with probability `numerator / denominator`, so
/// always true when the two are equal and never when the numerator is
/// zero. The call panics on a zero denominator and on a ratio above one.
#[verifier::external_body]
pub(crate) fn gen_ratio(rng: &mut SmallRng, numerator: u32, denominator: u32) -> (hit: bool)
    requires
        0 < denominator,
        numerator <= denominator,
    ensures
        numerator == denominator ==> hit,
        numerator == 0 ==> !hit,
{
    rng.gen_ratio(numerator, denominator)
}

/// `SliceRandom::shuffle` on the items of `items`: it exchanges items in
/// place, so the same items are there afterwards, each as often as before.
#[verifier::external_body]
pub(crate) fn shuffle(items: &mut Vec<i32>, rng: &mut SmallRng)
    ensures
        final(items)@.to_multiset() == old(items)@.to_multiset(),
{
    items.shuffle(rng)
}

} // verus!
