//! Random sampling of event delays, drawn through `rand`.

use rand::distributions::{Distribution, Uniform, WeightedError, WeightedIndex};
use rand::rngs::StdRng;
use std::ops::Range;
use vstd::prelude::*;

verus! {

/// `rand::rngs::StdRng`, the random source every scheduling operation is
/// handed; carried through opaquely.
#[verifier::external_type_specification]
#[verifier::external_body]
pub struct ExStdRng(StdRng);

/// `rand::distributions::WeightedError`, the reason a weight list could not
/// be turned into a distribution: a public enum of fieldless variants, so its
/// variants are visible to contracts.
#[verifier::external_type_specification]
pub struct ExWeightedError(WeightedError);

/// Sum of a list of weights.
pub open spec fn weight_total(weights: Seq<u32>) -> int
    decreases weights.len(),
{
    if weights.len() == 0 {
        0
    } else {
        weight_total(weights.drop_last()) + weights.last()
    }
}

/// Relies on `Uniform::from(Range)` and its `Distribution::sample`: a value
/// drawn from the half-open range, which `Uniform::new` asserts to be non-empty.
#[verifier::external_body]
pub(crate) fn sample_uniform(rng: &mut StdRng, range: &Range<u32>) -> (r: u32)
    requires
        range.start < range.end,
    ensures
        range.start <= r < range.end,
{
    Uniform::from(range.start..range.end).sample(rng)
}

/// Relies on `WeightedIndex::new` and its `Distribution::sample`: building the
/// distribution fails exactly on an empty list (`NoItem`) or an all-zero list
/// (`AllWeightsZero`), since no `u32` is negative and the total does not
/// overflow, and then nothing is drawn; a drawn index lies in the list and
/// names an item of positive weight.
#[verifier::external_body]
pub(crate) fn sample_weighted(rng: &mut StdRng, weights: &Vec<u32>) -> (r: Result<
    usize,
    WeightedError,
>)
    requires
        weight_total(weights@) <= u32::MAX,
    ensures
        r is Ok <==> weight_total(weights@) > 0,
        r is Ok ==> r->Ok_0 < weights@.len() && weights@[r->Ok_0 as int] > 0,
        r is Err ==> *final(rng) == *old(rng),
        r is Err && weights@.len() == 0 ==> r->Err_0 == WeightedError::NoItem,
        r is Err && weights@.len() > 0 ==> r->Err_0 == WeightedError::AllWeightsZero,
{
    WeightedIndex::new(weights).map(|dist| dist.sample(rng))
}

} // verus!
