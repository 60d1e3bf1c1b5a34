use rand::distributions::Distribution;
use rand::seq::SliceRandom;
use rand::Rng;
use vstd::prelude::*;

verus! {

#[verifier::external_type_specification]
#[verifier::external_body]
pub struct ExStdRng(rand::rngs::StdRng);

/// The sum of a sequence of weights.
pub open spec fn weight_sum(w: Seq<u128>) -> nat
    decreases w.len(),
{
    if w.len() == 0 {
        0
    } else {
        weight_sum(w.drop_last()) + w.last() as nat
    }
}

/// Relies on rand::seq::index::sample: exactly `amount` distinct indices below `length`.
#[verifier::external_body]
pub(crate) fn sample_indices(rng: &mut rand::rngs::StdRng, length: usize, amount: usize) -> (r: Vec<usize>)
    requires
        amount <= length,
    ensures
        r@.len() == amount,
        r@.no_duplicates(),
        forall|k: int| 0 <= k < r@.len() ==> #[trigger] r@[k] < length,
{
    rand::seq::index::sample(rng, length, amount).into_vec()
}

/// Relies on rand's SliceRandom::shuffle: the elements end up in another order, none
/// added or lost.
#[verifier::external_body]
pub(crate) fn shuffle(rng: &mut rand::rngs::StdRng, v: &mut Vec<usize>)
    ensures
        final(v)@.to_multiset() == old(v)@.to_multiset(),
{
    v.shuffle(rng)
}

/// Relies on Rng::gen_ratio: `true` with chance `numerator / denominator`, always `false`
/// for a zero numerator and always `true` for a numerator equal to the denominator.
#[verifier::external_body]
pub(crate) fn chance(rng: &mut rand::rngs::StdRng, numerator: u32, denominator: u32) -> (r: bool)
    requires
        0 < denominator,
        numerator <= denominator,
    ensures
        numerator == 0 ==> !r,
        numerator == denominator ==> r,
{
    rng.gen_ratio(numerator, denominator)
}

/// Relies on rand::distributions::WeightedIndex: `count` indices drawn with replacement,
/// each with chance proportional to its weight, so never one of weight zero.
#[verifier::external_body]
pub(crate) fn weighted_draws(rng: &mut rand::rngs::StdRng, weights: &Vec<u128>, count: usize) -> (r: Vec<usize>)
    requires
        0 < weight_sum(weights@) <= u128::MAX,
    ensures
        r@.len() == count,
        forall|k: int| 0 <= k < r@.len() ==> #[trigger] r@[k] < weights@.len() && weights@[r@[k] as int] > 0,
{
    let dist = rand::distributions::WeightedIndex::new(weights.iter().copied()).unwrap();
    dist.sample_iter(rng).take(count).collect()
}

/// Relies on slice::sort_unstable: ascending order, the same elements.
#[verifier::external_body]
pub(crate) fn sort_ascending(v: &mut Vec<usize>)
    ensures
        final(v)@.to_multiset() == old(v)@.to_multiset(),
        forall|a: int, b: int| 0 <= a <= b < final(v)@.len() ==> #[trigger] final(v)@[a] <= #[trigger] final(v)@[b],
{
    v.sort_unstable()
}

/// Relies on slice::sort_by_key: the indices end up ordered by ascending key, none
/// added or lost.
#[verifier::external_body]
pub(crate) fn sort_by_key_of(idx: &mut Vec<usize>, keys: &Vec<u128>)
    requires
        forall|k: int| 0 <= k < old(idx)@.len() ==> #[trigger] old(idx)@[k] < keys@.len(),
    ensures
        final(idx)@.to_multiset() == old(idx)@.to_multiset(),
        forall|a: int, b: int|
            0 <= a <= b < final(idx)@.len() ==> #[trigger] keys@[final(idx)@[a] as int] <= #[trigger] keys@[final(idx)@[b] as int],
{
    idx.sort_by_key(|&i| keys[i])
}

} // verus!
