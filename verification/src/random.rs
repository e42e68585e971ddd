//! The random draws the simulation makes, taken from `rand`'s `StdRng`.

use rand::seq::SliceRandom;
use rand::Rng;
use vstd::prelude::*;

verus! {

#[verifier::external_type_specification]
#[verifier::external_body]
pub struct ExStdRng(rand::rngs::StdRng);

/// Calls `Rng::gen_ratio`: `true` with probability `numerator / denominator`.
/// It panics when `denominator == 0` or `numerator > denominator`, which the
/// `requires` rules out. When `numerator == 0` the result is `false` and when
/// `numerator == denominator` it is `true` (as rand documents); otherwise
/// nothing is claimed of the outcome.
#[verifier::external_body]
pub(crate) fn gen_ratio(rng: &mut rand::rngs::StdRng, numerator: u32, denominator: u32) -> (b: bool)
    requires
        0 < denominator,
        numerator <= denominator,
    ensures
        numerator == 0 ==> !b,
        numerator == denominator ==> b,
{
    rng.gen_ratio(numerator, denominator)
}

/// Calls `Rng::gen_range(0..bound)` on `usize`: some value below `bound`.
/// It panics on an empty range, which the `requires` rules out.
#[verifier::external_body]
pub(crate) fn gen_index(rng: &mut rand::rngs::StdRng, bound: usize) -> (r: usize)
    requires
        0 < bound,
    ensures
        r < bound,
{
    rng.gen_range(0..bound)
}

/// Calls `Rng::gen_range(low..=high)` on `u32`: some value in `low ..= high`.
/// It panics on an empty range, which the `requires` rules out.
#[verifier::external_body]
pub(crate) fn gen_range_inclusive(rng: &mut rand::rngs::StdRng, low: u32, high: u32) -> (r: u32)
    requires
        low <= high,
    ensures
        low <= r <= high,
{
    rng.gen_range(low..=high)
}

/// Calls `SliceRandom::shuffle` on the vector's elements: the result is a
/// permutation of the input (rand's implementation only swaps elements).
/// Which permutation comes out is left open.
#[verifier::external_body]
pub(crate) fn shuffle_directions(rng: &mut rand::rngs::StdRng, v: &mut Vec<(i16, i16)>)
    ensures
        final(v)@.len() == old(v)@.len(),
        final(v)@.to_multiset() == old(v)@.to_multiset(),
{
    v.as_mut_slice().shuffle(rng)
}

} // verus!
