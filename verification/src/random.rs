//! The random source. Nothing in this file is proved: each contract states
//! what the `rand` crate promises of every outcome.

use rand::rngs::ThreadRng;
use rand::seq::SliceRandom;
use rand::Rng;
use vstd::prelude::*;
use crate::container::Item;

verus! {

/// `rand::rngs::ThreadRng`, the handle to the thread-local generator. Nothing
/// is known of its state.
#[verifier::external_type_specification]
#[verifier::external_body]
pub struct ExThreadRng(ThreadRng);

/// Calls `Rng::gen_range` on the half-open range `low..high`. The call
/// panics on an empty range, which `requires` leaves out; of what it
/// returns, only that it lies in the range.
#[verifier::external_body]
pub(crate) fn draw_in_range(rng: &mut ThreadRng, low: u32, high: u32) -> (drawn: u32)
    requires
        low < high,
    ensures
        low <= drawn < high,
{
    rng.gen_range(low..high)
}

/// Calls `SliceRandom::shuffle`, which permutes a slice in place by swaps:
/// the items afterwards are the items before, in some order.
#[verifier::external_body]
pub(crate) fn shuffle_items(rng: &mut ThreadRng, items: &mut Vec<Item>)
    ensures
        final(items)@.to_multiset() == old(items)@.to_multiset(),
{
    items.shuffle(rng);
}

} // verus!
