//! The random choices a walk is made of, drawn from the thread-local
//! generator of the `rand` crate.
//!
//! Nothing here is proved: each contract states what the documentation and
//! the source of `rand` promise of every outcome, and no more.

use crate::model::total;
use rand::distributions::{Distribution, WeightedError, WeightedIndex};
use rand::rngs::ThreadRng;
use rand::seq::SliceRandom;
use rand::Rng;
use std::ops::Range;
use vstd::prelude::*;

verus! {

/// `rand::rngs::ThreadRng`, a handle to the generator of the current
/// thread. Nothing is known of its state.
#[verifier::external_type_specification]
#[verifier::external_body]
pub struct ExThreadRng(ThreadRng);

/// A `rand::distributions::WeightedIndex` over `usize` weights: a
/// distribution over the indices of a list of weights. What it holds is
/// known through `weights_of` alone.
#[verifier::external_body]
pub struct WeightedChoice {
    inner: WeightedIndex<usize>,
}

/// `rand::distributions::WeightedError`, the reason why a list of weights
/// makes no distribution.
#[verifier::external_type_specification]
#[verifier::external_body]
pub struct ExWeightedError(WeightedError);

/// The weights a distribution was made from.
pub uninterp spec fn weights_of(distribution: WeightedChoice) -> Seq<usize>;

/// `rand::thread_rng`: the handle to the generator of the current thread,
/// which the system seeds on first use. Nothing is promised of what it will
/// draw.
pub assume_specification[ rand::thread_rng ]() -> ThreadRng
;

/// `SliceRandom::choose` on a slice: no element of an empty slice, else a
/// reference to one of its elements.
#[verifier::external_body]
pub(crate) fn choose_one<'a, A>(items: &'a [A], rng: &mut ThreadRng) -> (chosen: Option<&'a A>)
    ensures
        chosen is None <==> items@.len() == 0,
        chosen is Some ==> items@.contains(*chosen->0),
{
    items.choose(rng)
}

/// `Rng::gen_range` on a half-open range of `usize`: a value of the range.
/// The crate panics on an empty range, which `requires` leaves out.
#[verifier::external_body]
pub(crate) fn gen_range(rng: &mut ThreadRng, range: Range<usize>) -> (value: usize)
    requires
        range.start < range.end,
    ensures
        range.start <= value < range.end,
{
    rng.gen_range(range)
}

/// `WeightedIndex::new` on a slice of `usize` weights: a distribution made
/// from exactly these weights, unless the slice is empty or all its weights
/// are zero, that is unless they sum to zero. The crate adds the weights up
/// in a `usize`, so their sum has to fit.
#[verifier::external_body]
pub(crate) fn weighted_index(weights: &[usize]) -> (made: Result<WeightedChoice, WeightedError>)
    requires
        total(weights@) <= usize::MAX,
    ensures
        made is Ok <==> total(weights@) > 0,
        made is Ok ==> weights_of(made->Ok_0) == weights@,
{
    match WeightedIndex::new(weights) {
        Ok(inner) => Ok(WeightedChoice { inner }),
        Err(error) => Err(error),
    }
}

/// `Distribution::sample` on a `WeightedIndex`: the index of one of the
/// weights, and never that of a weight of zero.
#[verifier::external_body]
pub(crate) fn sample(distribution: &WeightedChoice, rng: &mut ThreadRng) -> (index: usize)
    ensures
        index < weights_of(*distribution).len(),
        weights_of(*distribution)[index as int] > 0,
{
    distribution.inner.sample(rng)
}

} // verus!
