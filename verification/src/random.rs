//! Random choices, drawn from a `rand` generator.

use rand::distributions::WeightedError;
use rand::rngs::StdRng;
use rand::seq::SliceRandom;
use rand::SeedableRng;
use vstd::prelude::*;

verus! {

/// The standard generator of `rand`. Its state is hidden from Verus: nothing
/// is known of what it will draw next.
#[verifier::external_type_specification]
#[verifier::external_body]
pub struct ExStdRng(StdRng);

/// The reason `rand` gives when it cannot draw by weight.
#[verifier::external_type_specification]
#[verifier::external_body]
pub struct ExWeightedError(WeightedError);

/// The sum of the weights in a list of `(item, weight)` pairs.
pub open spec fn total_weight(pairs: Seq<(usize, usize)>) -> nat
    decreases pairs.len(),
{
    if pairs.len() == 0 {
        0
    } else {
        total_weight(pairs.drop_last()) + pairs.last().1 as nat
    }
}

/// Pairs that each weigh at most `bound` weigh at most `bound` times their
/// number in all.
pub proof fn lemma_total_weight_bound(pairs: Seq<(usize, usize)>, bound: nat)
    requires
        forall|k: int| 0 <= k < pairs.len() ==> (#[trigger] pairs[k]).1 <= bound,
    ensures
        total_weight(pairs) <= pairs.len() * bound,
    decreases pairs.len(),
{
    if pairs.len() > 0 {
        lemma_total_weight_bound(pairs.drop_last(), bound);
        assert(total_weight(pairs.drop_last()) + bound <= pairs.len() * bound) by (nonlinear_arith)
            requires
                total_weight(pairs.drop_last()) <= (pairs.len() - 1) * bound,
        ;
    }
}

/// `StdRng::seed_from_u64`: a generator started from `seed`.
#[verifier::external_body]
pub(crate) fn seeded_generator(seed: u64) -> StdRng {
    StdRng::seed_from_u64(seed)
}

/// `StdRng::from_rng` on `rand::rngs::OsRng`: a generator started from the
/// random source of the operating system, or nothing where that source
/// fails.
#[verifier::external_body]
pub(crate) fn fresh_generator() -> Option<StdRng> {
    StdRng::from_rng(rand::rngs::OsRng).ok()
}

/// `SliceRandom::choose_weighted` over `(item, weight)` pairs, weighing each
/// pair by its second field.
///
/// `rand` adds the weights up, so their sum has to fit. It fails when there
/// is no pair or no pair has a positive weight, and otherwise returns one of
/// the pairs, never one of weight zero. Which one is left open.
#[verifier::external_body]
pub(crate) fn choose_weighted(pairs: &Vec<(usize, usize)>, rng: &mut StdRng) -> (r: Result<
    (usize, usize),
    WeightedError,
>)
    requires
        total_weight(pairs@) <= usize::MAX,
    ensures
        r matches Ok(pair) ==> pairs@.contains(pair) && pair.1 > 0,
        r is Err <==> (forall|k: int| 0 <= k < pairs@.len() ==> (#[trigger] pairs@[k]).1 == 0),
{
    pairs.choose_weighted(rng, |pair| pair.1).copied()
}

/// `SliceRandom::choose`: one of the items, or nothing when there is none.
/// Which one is left open.
#[verifier::external_body]
pub(crate) fn choose_one(items: &Vec<usize>, rng: &mut StdRng) -> (r: Option<usize>)
    ensures
        r is None <==> items@.len() == 0,
        r matches Some(item) ==> items@.contains(item),
{
    items.choose(rng).copied()
}

} // verus!
