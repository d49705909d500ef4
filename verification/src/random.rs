//! The pseudo-random choices that the library makes, drawn from a
//! `Xoshiro256StarStar` generator that the caller seeds and owns.

use rand::distributions::{Distribution, WeightedIndex};
use rand::Rng;
use rand_xoshiro::Xoshiro256StarStar;
use vstd::prelude::*;

verus! {

/// `rand_xoshiro::Xoshiro256StarStar`: a generator, of whose state nothing is
/// said here.
#[verifier::external_type_specification]
#[verifier::external_body]
pub struct ExXoshiro256StarStar(Xoshiro256StarStar);

/// Some element of `weights` is positive.
pub open spec fn some_positive(weights: Seq<u32>) -> bool {
    exists|i: int| 0 <= i < weights.len() && #[trigger] weights[i] > 0
}

/// `Rng::gen_range(0..n)`: for a non-empty range, which is what keeps it from
/// panicking, the number drawn lies in the range. Which one it is depends on
/// the state of the generator, and nothing is claimed of that.
#[verifier::external_body]
pub(crate) fn random_below(rng: &mut Xoshiro256StarStar, n: usize) -> (r: usize)
    requires
        n > 0,
    ensures
        r < n,
{
    rng.gen_range(0..n)
}

/// `WeightedIndex::new(weights)` followed by `Distribution::sample`: with at
/// least one weight and a positive total, `new` returns no error, and `sample`
/// returns the index of one of the weights, which is never one of weight 0.
/// The weights are widened so that their total cannot overflow. Which index
/// comes back depends on the state of the generator, and nothing is claimed
/// of that.
#[verifier::external_body]
pub(crate) fn random_weighted(rng: &mut Xoshiro256StarStar, weights: &Vec<u32>) -> (r: usize)
    requires
        weights@.len() > 0,
        some_positive(weights@),
    ensures
        r < weights@.len(),
        weights@[r as int] > 0,
{
    WeightedIndex::new(weights.iter().map(|w| u128::from(*w))).unwrap().sample(rng)
}

} // verus!
