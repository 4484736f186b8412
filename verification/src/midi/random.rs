//! The random draws of the engine, made by the thread's generator of `rand`.
use vstd::prelude::*;
use rand::seq::SliceRandom;
use rand::Rng;

verus! {

/// Draws a number with `rand::Rng::gen_range` on the inclusive range from
/// `low` to `high`, from the generator that `rand::thread_rng` hands out.
/// The call refuses an empty range; of what it returns, all that is claimed
/// is that it lies in the range.
#[verifier::external_body]
pub(crate) fn random_between(low: i64, high: i64) -> (r: i64)
    requires
        low <= high,
    ensures
        low <= r <= high,
{
    rand::thread_rng().gen_range(low..=high)
}

/// Reorders `order` in place with `rand::seq::SliceRandom::shuffle`, which
/// only swaps entries: the same values are there afterwards, each as often
/// as before, in an order that nothing is claimed of.
#[verifier::external_body]
pub(crate) fn shuffle(order: &mut Vec<usize>)
    ensures
        final(order)@.len() == old(order)@.len(),
        final(order)@.to_multiset() == old(order)@.to_multiset(),
{
    order.shuffle(&mut rand::thread_rng());
}

} // verus!
