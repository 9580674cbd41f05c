//! Random draws for generation: a uniform pick of a state id and a
//! weighted pick among the entries of a matrix row. Both go through
//! `rand`; nothing is promised about which value comes back beyond range
//! and weight, since the draws depend on the thread's generator.

use vstd::prelude::*;

use rand::distr::Distribution;

verus! {

/// Sum of a sequence of 16-bit weights, as a mathematical integer.
pub open spec fn weight_sum(weights: Seq<u16>) -> int
    decreases weights.len(),
{
    if weights.len() == 0 {
        0
    } else {
        weights[0] + weight_sum(weights.skip(1))
    }
}

/// Relies on `rand::random_range`: a draw from `[0, n)`, uniform over the
/// thread's generator. The range must not be empty, or the call panics.
#[verifier::external_body]
pub fn random_below(n: usize) -> (r: usize)
    requires
        n > 0,
    ensures
        r < n,
{
    rand::random_range(0..n)
}

/// Relies on `rand::distr::weighted::WeightedIndex`: a draw of an index
/// with probability proportional to its weight. Construction fails exactly
/// when the weights are empty or their sum is zero or exceeds what a
/// 16-bit value holds; a drawn index always carries a nonzero weight.
#[verifier::external_body]
pub fn weighted_choice(weights: &Vec<u16>) -> (r: Option<usize>)
    ensures
        match r {
            Some(i) => i < weights.len() && weights@[i as int] > 0,
            None => !(weights.len() > 0 && 0 < weight_sum(weights@) <= u16::MAX as int),
        },
        (weights.len() > 0 && 0 < weight_sum(weights@) <= u16::MAX as int) ==> r is Some,
{
    match rand::distr::weighted::WeightedIndex::new(weights.iter()) {
        Ok(dist) => Some(dist.sample(&mut rand::rng())),
        Err(_) => None,
    }
}

/// A nonempty sequence of nonzero weights has a positive sum.
pub proof fn lemma_weight_sum_positive(weights: Seq<u16>)
    requires
        weights.len() > 0,
        forall|i: int| 0 <= i < weights.len() ==> weights[i] > 0,
    ensures
        weight_sum(weights) > 0,
    decreases weights.len(),
{
    if weights.len() > 1 {
        lemma_weight_sum_positive(weights.skip(1));
    } else {
        assert(weight_sum(weights.skip(1)) == 0);
    }
}

} // verus!
