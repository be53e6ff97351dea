//! Trusted boundary to the random-number generator.
//!
//! The engine owns a `rand_pcg::Pcg64` generator, reseeded only at
//! construction.  Verus sees the generator as an opaque value; the three
//! wrappers below state only what holds of every outcome of a call.

use vstd::prelude::*;
use crate::mechanics::Card;
use rand::Rng;
use rand::seq::SliceRandom;

verus! {

#[verifier::external_type_specification]
#[verifier::external_body]
pub struct ExPcg64(rand_pcg::Lcg128Xsl64);

/// Relies on rand's `Rng::gen_range(0, 2)`: a value drawn from the
/// half-open range `[0, 2)`.  Which of the two comes back is random,
/// so nothing more is promised.
#[verifier::external_body]
pub(crate) fn pick_index(rng: &mut rand_pcg::Pcg64) -> (r: usize)
    ensures
        r < 2,
{
    rng.gen_range(0, 2)
}

/// Relies on rand's `SliceRandom::shuffle`: a Fisher-Yates pass that
/// permutes the slice in place by swaps, so the length and the multiset
/// of elements are kept.  The order that comes back is random, so
/// nothing is promised of it.
#[verifier::external_body]
pub(crate) fn shuffle_cards(deck: &mut Vec<Card>, rng: &mut rand_pcg::Pcg64)
    ensures
        final(deck)@.to_multiset() == old(deck)@.to_multiset(),
        final(deck)@.len() == old(deck)@.len(),
{
    deck.shuffle(rng);
}

/// Relies on `Clone` for rand_pcg's `Lcg128Xsl64`: a field-for-field copy
/// of the generator state, sharing nothing with the original.  The state
/// itself is opaque here, so nothing is stated of the value.
#[verifier::external_body]
pub(crate) fn clone_rng(rng: &rand_pcg::Pcg64) -> rand_pcg::Pcg64 {
    rng.clone()
}

} // verus!
