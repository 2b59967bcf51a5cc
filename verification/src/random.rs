//! The random choices of a syncing chain, all made by the `rand` crate.
use rand::rngs::ThreadRng;
use rand::seq::SliceRandom;
use vstd::prelude::*;

verus! {

/// `rand::rngs::ThreadRng`, a handle to the random number generator of the current thread.
#[verifier::external_type_specification]
#[verifier::external_body]
pub struct ExThreadRng(ThreadRng);

/// `rand::thread_rng` hands out the generator of the current thread. Nothing is claimed of it.
/// It panics where the operating system provides no entropy to seed the generator.
pub assume_specification[ rand::thread_rng ]() -> ThreadRng
;

/// `rand::random` for `u64`. The number is random: nothing is claimed of it. Like
/// `rand::thread_rng`, it panics where the operating system provides no entropy.
#[verifier::external_body]
pub(crate) fn random_u64() -> u64 {
    rand::random()
}

/// `rand::seq::SliceRandom::shuffle` only swaps items, so that afterwards the vector holds the
/// same items, each as often as before. Their order is random: nothing is claimed of it.
#[verifier::external_body]
pub(crate) fn shuffle<T>(items: &mut Vec<T>, rng: &mut ThreadRng)
    ensures
        final(items)@.to_multiset() == old(items)@.to_multiset(),
{
    items.shuffle(rng);
}

} // verus!
