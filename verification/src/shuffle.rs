//! Shuffling a word list with a seeded random number generator.

use vstd::prelude::*;
use rand::rngs::StdRng;
use rand::seq::SliceRandom;
use rand::SeedableRng;

verus! {

#[verifier::external_type_specification]
#[verifier::external_body]
pub struct ExStdRng(StdRng);

/// `StdRng::seed_from_u64` of the rand crate: a generator made from a
/// 64-bit seed. Nothing is claimed of the numbers that it will give.
#[verifier::external_body]
pub(crate) fn seeded_rng(seed: u64) -> (rng: StdRng) {
    StdRng::seed_from_u64(seed)
}

/// `SliceRandom::shuffle` of the rand crate, which swaps entries of the
/// slice in place. Claimed: the list holds the same strings afterwards,
/// each as often as before. Nothing is claimed of their order.
#[verifier::external_body]
pub(crate) fn shuffle_words(words: &mut Vec<String>, rng: &mut StdRng)
    ensures
        final(words)@.to_multiset() == old(words)@.to_multiset(),
{
    words.shuffle(rng);
}

} // verus!
