//! Trusted boundary to the process-local random source: a handle to the
//! thread-local generator, a bounded draw, and an in-place permutation.
use vstd::prelude::*;
use crate::cards::Card;

verus! {

#[verifier::external_type_specification]
#[verifier::external_body]
pub struct ExThreadRng(rand::rngs::ThreadRng);

/// Relies on rand::thread_rng: returns a handle to the thread-local
/// generator. Nothing is assumed of the values it will produce.
#[verifier::external_body]
pub(crate) fn fresh_rng() -> rand::rngs::ThreadRng {
    rand::thread_rng()
}

/// Relies on rand::Rng::gen_range on an inclusive range: the result lies
/// within the range. The range must be non-empty, since gen_range panics
/// on an empty one.
#[verifier::external_body]
pub(crate) fn rand_in_range(rng: &mut rand::rngs::ThreadRng, lo: usize, hi: usize) -> (r: usize)
    requires
        lo <= hi,
    ensures
        lo <= r <= hi,
{
    rand::Rng::gen_range(rng, lo..=hi)
}

/// Relies on rand::seq::SliceRandom::shuffle: permutes the slice in place
/// (a Fisher-Yates pass), so the cards and their number are unchanged and
/// only the order may differ.
#[verifier::external_body]
pub(crate) fn shuffle_in_place(deck: &mut Vec<Card>, rng: &mut rand::rngs::ThreadRng)
    ensures
        final(deck)@.to_multiset() == old(deck)@.to_multiset(),
        final(deck)@.len() == old(deck)@.len(),
{
    rand::seq::SliceRandom::shuffle(deck.as_mut_slice(), rng)
}

} // verus!
