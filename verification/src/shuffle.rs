//! The random shuffle, which is taken from the `rand` crate on trust.

use vstd::prelude::*;
use rand::seq::SliceRandom;
use crate::card::Card;

verus! {

/// `rand::rngs::ThreadRng`, the handle to the thread's random number
/// generator. Nothing is known of what is inside.
#[verifier::external_type_specification]
#[verifier::external_body]
pub struct ExThreadRng(rand::rngs::ThreadRng);

/// `rand::thread_rng` hands out the thread's generator, seeded by the
/// system. Nothing is claimed of the handle it returns.
pub assume_specification[ rand::thread_rng ]() -> (rng: rand::rngs::ThreadRng)
;

/// `SliceRandom::shuffle` of `rand`, on the cards as a slice. It walks the
/// slice from the end and swaps every element with one at or before it, so
/// the cards afterwards are the cards before, each as often as before.
/// Which order comes out is left open.
#[verifier::external_body]
pub(crate) fn shuffle(cards: &mut Vec<Card>, rng: &mut rand::rngs::ThreadRng)
    ensures
        final(cards)@.to_multiset() == old(cards)@.to_multiset(),
{
    cards.shuffle(rng);
}

} // verus!
