//! What the library asks of a random source. The source is handed in by the
//! caller, who may seed it, so that a run can be repeated.

use rand::rngs::StdRng;
use rand::seq::SliceRandom;
use rand::Rng;
use vstd::prelude::*;

verus! {

/// `rand::rngs::StdRng`, the random source that callers hand in. Nothing is
/// claimed of what is inside it.
#[verifier::external_type_specification]
#[verifier::external_body]
pub struct ExStdRng(StdRng);

/// `rand::seq::SliceRandom::shuffle` on the positions in `order`: they come
/// back in an order that `rng` decides, each as often as it was there.
#[verifier::external_body]
pub(crate) fn shuffle(order: &mut Vec<usize>, rng: &mut StdRng)
    ensures
        final(order)@.to_multiset() == old(order)@.to_multiset(),
{
    order.shuffle(rng);
}

/// `rand::Rng::random_range` over all of `u8`: any channel value may come.
#[verifier::external_body]
pub(crate) fn random_channel(rng: &mut StdRng) -> u8 {
    rng.random_range(0..=255)
}

} // verus!
