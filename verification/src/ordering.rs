//! Arranging items by size before they are packed.

use vstd::prelude::*;
use vstd::relations::{sorted_by, total_ordering};
use vstd::seq_lib::lemma_sorted_unique;
use crate::container::Item;

verus! {

/// The order in which a pre-sorted variant sees its items: larger first.
pub open spec fn larger_first() -> spec_fn(Item, Item) -> bool {
    |a: Item, b: Item| a.size >= b.size
}

/// Smaller first, the order that sorting by size gives.
pub open spec fn smaller_first() -> spec_fn(Item, Item) -> bool {
    |a: Item, b: Item| a.size <= b.size
}

/// Calls `sort_unstable_by_key` of std's slices with the item's size as the
/// key. Afterwards the same items stand in ascending order of size.
#[verifier::external_body]
fn sort_by_size(items: &mut Vec<Item>)
    ensures
        final(items)@.to_multiset() == old(items)@.to_multiset(),
        sorted_by(final(items)@, smaller_first()),
{
    items.sort_unstable_by_key(|x| x.size);
}

/// Calls `reverse` of std's slices: the same items in the opposite order.
#[verifier::external_body]
fn reverse_items(items: &mut Vec<Item>)
    ensures
        final(items)@ == old(items)@.reverse(),
{
    items.reverse();
}

/// Sorts `items` by size, largest first.
pub fn sort_descending(items: &mut Vec<Item>)
    ensures
        final(items)@ == old(items)@.sort_by(larger_first()),
        final(items)@.to_multiset() == old(items)@.to_multiset(),
        sorted_by(final(items)@, larger_first()),
{
    sort_by_size(items);
    let ghost ascending = items@;
    reverse_items(items);
    proof {
        assert(total_ordering(larger_first()));
        ascending.lemma_reverse_to_multiset();
        assert(sorted_by(items@, larger_first())) by {
            assert forall|i: int, j: int| 0 <= i < j < items@.len() implies #[trigger] larger_first()(
                items@[i],
                items@[j],
            ) by {
                let n = ascending.len();
                assert(smaller_first()(ascending[n - 1 - j], ascending[n - 1 - i]));
            }
        }
        old(items)@.lemma_sort_by_ensures(larger_first());
        lemma_sorted_unique(items@, old(items)@.sort_by(larger_first()), larger_first());
    }
}

} // verus!
