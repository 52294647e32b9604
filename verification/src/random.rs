use vstd::prelude::*;
use rand::seq::SliceRandom;
use rand::{thread_rng, Rng};

verus! {

/// `SliceRandom::shuffle` with the thread's generator: it only swaps items,
/// so the same items are there afterwards, each as often as before, in an
/// order of which nothing is said.
#[verifier::external_body]
pub(crate) fn shuffle<T>(items: &mut Vec<T>)
    ensures
        final(items)@.to_multiset() == old(items)@.to_multiset(),
{
    items.shuffle(&mut thread_rng());
}

/// `Rng::gen_range` over `low..=high` with the thread's generator: some
/// number of the range. The range must not be empty.
#[verifier::external_body]
pub(crate) fn random_in(low: usize, high: usize) -> (res: usize)
    requires
        low <= high,
    ensures
        low <= res <= high,
{
    thread_rng().gen_range(low..=high)
}

/// `Rng::gen_ratio` with the thread's generator: true with a chance of
/// `numerator` in `denominator`. Nothing is said of the outcome.
#[verifier::external_body]
pub(crate) fn random_ratio(numerator: u32, denominator: u32) -> bool
    requires
        denominator > 0,
        numerator <= denominator,
{
    thread_rng().gen_ratio(numerator, denominator)
}

} // verus!
