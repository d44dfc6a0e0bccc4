//! What the two heuristics compute, as functions on sequences, and what
//! holds of every packing they produce.

use vstd::prelude::*;
use vstd::seq_lib::*;
use crate::container::{total_size, Item};

verus! {

/// A packing: the contents of each container, in the order the containers
/// were opened.
pub type Bins = Seq<Seq<Item>>;

/// Whether `item` still has room in `bin`.
pub open spec fn fits(bin: Seq<Item>, item: Item, capacity: nat) -> bool {
    total_size(bin) + item.size <= capacity
}

/// No item is larger than an empty container.
pub open spec fn all_fit(items: Seq<Item>, capacity: nat) -> bool {
    forall|i: int| 0 <= i < items.len() ==> (#[trigger] items[i]).size <= capacity
}

/// No container holds more than its capacity.
pub open spec fn within_capacity(bins: Bins, capacity: nat) -> bool {
    forall|k: int| 0 <= k < bins.len() ==> total_size(#[trigger] bins[k]) <= capacity
}

/// Next-Fit, one item: into the container opened last if it has room, else
/// into a new one.
pub open spec fn next_fit_place(bins: Bins, item: Item, capacity: nat) -> Bins {
    if bins.len() > 0 && fits(bins.last(), item, capacity) {
        bins.update(bins.len() - 1, bins.last().push(item))
    } else {
        bins.push(seq![item])
    }
}

/// Next-Fit on a whole sequence, starting from one empty container.
pub open spec fn next_fit(items: Seq<Item>, capacity: nat) -> Bins
    decreases items.len(),
{
    if items.len() == 0 {
        seq![Seq::empty()]
    } else {
        next_fit_place(next_fit(items.drop_last(), capacity), items.last(), capacity)
    }
}

/// The position of the earliest container of `bins` with room for `item`,
/// or `bins.len()` where none has.
pub open spec fn first_fit_slot(bins: Bins, item: Item, capacity: nat) -> int
    decreases bins.len(),
{
    if bins.len() == 0 {
        0
    } else if fits(bins.first(), item, capacity) {
        0
    } else {
        1 + first_fit_slot(bins.drop_first(), item, capacity)
    }
}

/// First-Fit, one item: into the earliest container with room, else into a
/// new one behind all others.
pub open spec fn first_fit_place(bins: Bins, item: Item, capacity: nat) -> Bins {
    let slot = first_fit_slot(bins, item, capacity);
    if slot < bins.len() {
        bins.update(slot, bins[slot].push(item))
    } else {
        bins.push(seq![item])
    }
}

/// First-Fit on a whole sequence, starting from one empty container.
pub open spec fn first_fit(items: Seq<Item>, capacity: nat) -> Bins
    decreases items.len(),
{
    if items.len() == 0 {
        seq![Seq::empty()]
    } else {
        first_fit_place(first_fit(items.drop_last(), capacity), items.last(), capacity)
    }
}

/// The sum of sizes grows by the size of a pushed item.
pub proof fn lemma_total_size_push(items: Seq<Item>, item: Item)
    ensures
        total_size(items.push(item)) == total_size(items) + item.size,
{
    assert(items.push(item).drop_last() == items);
}

/// `first_fit_slot` is the one position before which nothing has room and at
/// which, if it is a position at all, there is room.
pub proof fn lemma_first_fit_slot(bins: Bins, item: Item, capacity: nat)
    ensures
        0 <= first_fit_slot(bins, item, capacity) <= bins.len(),
        forall|j: int|
            0 <= j < first_fit_slot(bins, item, capacity) ==> !fits(
                #[trigger] bins[j],
                item,
                capacity,
            ),
        first_fit_slot(bins, item, capacity) < bins.len() ==> fits(
            bins[first_fit_slot(bins, item, capacity)],
            item,
            capacity,
        ),
    decreases bins.len(),
{
    if bins.len() > 0 && !fits(bins.first(), item, capacity) {
        let rest = bins.drop_first();
        lemma_first_fit_slot(rest, item, capacity);
        let slot = first_fit_slot(bins, item, capacity);
        assert forall|j: int| 0 <= j < slot implies !fits(#[trigger] bins[j], item, capacity) by {
            if j > 0 {
                assert(bins[j] == rest[j - 1]);
            }
        }
        if slot < bins.len() {
            assert(bins[slot] == rest[slot - 1]);
        }
    }
}

/// A position that nothing before it has room at, and that has room itself
/// or lies behind the last container, is the `first_fit_slot`.
pub proof fn lemma_first_fit_slot_is(bins: Bins, item: Item, capacity: nat, slot: int)
    requires
        0 <= slot <= bins.len(),
        forall|j: int| 0 <= j < slot ==> !fits(#[trigger] bins[j], item, capacity),
        slot < bins.len() ==> fits(bins[slot], item, capacity),
    ensures
        first_fit_slot(bins, item, capacity) == slot,
{
    lemma_first_fit_slot(bins, item, capacity);
    let found = first_fit_slot(bins, item, capacity);
    if found < slot {
        assert(!fits(bins[found], item, capacity));
    } else if slot < found {
        assert(!fits(bins[slot], item, capacity));
    }
}

/// Appending an item to one container adds that item, and nothing else, to
/// what the packing holds.
pub proof fn lemma_flatten_update_push(bins: Bins, slot: int, item: Item)
    requires
        0 <= slot < bins.len(),
    ensures
        bins.update(slot, bins[slot].push(item)).flatten().to_multiset()
            == bins.flatten().to_multiset().insert(item),
{
    broadcast use vstd::multiset::group_multiset_axioms;

    let before = bins.subrange(0, slot);
    let after = bins.subrange(slot + 1, bins.len() as int);
    let grown = bins[slot].push(item);
    assert(bins =~= before + seq![bins[slot]] + after);
    assert(bins.update(slot, grown) =~= before + seq![grown] + after);
    lemma_flatten_concat(before + seq![bins[slot]], after);
    lemma_flatten_concat(before, seq![bins[slot]]);
    lemma_flatten_concat(before + seq![grown], after);
    lemma_flatten_concat(before, seq![grown]);
    seq![bins[slot]].lemma_flatten_one_element();
    seq![grown].lemma_flatten_one_element();
    let a = before.flatten();
    let c = after.flatten();
    lemma_multiset_commutative(a + bins[slot], c);
    lemma_multiset_commutative(a, bins[slot]);
    lemma_multiset_commutative(a + grown, c);
    lemma_multiset_commutative(a, grown);
    to_multiset_build(bins[slot], item);
    assert(bins.update(slot, grown).flatten().to_multiset() =~= bins.flatten().to_multiset().insert(
        item,
    ));
}

/// Opening a container for an item adds that item, and nothing else, to what
/// the packing holds.
pub proof fn lemma_flatten_open(bins: Bins, item: Item)
    ensures
        bins.push(seq![item]).flatten().to_multiset() == bins.flatten().to_multiset().insert(item),
{
    broadcast use vstd::multiset::group_multiset_axioms;

    bins.lemma_flatten_push(seq![item]);
    assert(bins.flatten() + seq![item] =~= bins.flatten().push(item));
    to_multiset_build(bins.flatten(), item);
}

/// Next-Fit always has at least one container, and holds exactly the items
/// it was given.
pub proof fn lemma_next_fit_keeps_items(items: Seq<Item>, capacity: nat)
    ensures
        next_fit(items, capacity).len() >= 1,
        next_fit(items, capacity).flatten().to_multiset() == items.to_multiset(),
    decreases items.len(),
{
    broadcast use vstd::multiset::group_multiset_axioms;

    if items.len() == 0 {
        let start: Bins = seq![Seq::empty()];
        start.lemma_flatten_one_element();
        assert(start.flatten() =~= Seq::<Item>::empty());
        assert(items =~= Seq::<Item>::empty());
    } else {
        let before = next_fit(items.drop_last(), capacity);
        lemma_next_fit_keeps_items(items.drop_last(), capacity);
        if fits(before.last(), items.last(), capacity) {
            lemma_flatten_update_push(before, before.len() - 1, items.last());
        } else {
            lemma_flatten_open(before, items.last());
        }
        to_multiset_build(items.drop_last(), items.last());
        assert(items.drop_last().push(items.last()) =~= items);
    }
}

/// First-Fit always has at least one container, and holds exactly the items
/// it was given.
pub proof fn lemma_first_fit_keeps_items(items: Seq<Item>, capacity: nat)
    ensures
        first_fit(items, capacity).len() >= 1,
        first_fit(items, capacity).flatten().to_multiset() == items.to_multiset(),
    decreases items.len(),
{
    broadcast use vstd::multiset::group_multiset_axioms;

    if items.len() == 0 {
        let start: Bins = seq![Seq::empty()];
        start.lemma_flatten_one_element();
        assert(start.flatten() =~= Seq::<Item>::empty());
        assert(items =~= Seq::<Item>::empty());
    } else {
        let before = first_fit(items.drop_last(), capacity);
        lemma_first_fit_keeps_items(items.drop_last(), capacity);
        lemma_first_fit_slot(before, items.last(), capacity);
        let slot = first_fit_slot(before, items.last(), capacity);
        if slot < before.len() {
            lemma_flatten_update_push(before, slot, items.last());
        } else {
            lemma_flatten_open(before, items.last());
        }
        to_multiset_build(items.drop_last(), items.last());
        assert(items.drop_last().push(items.last()) =~= items);
    }
}

/// The sum of sizes, written as a fold.
pub proof fn lemma_total_size_is_fold(items: Seq<Item>)
    ensures
        total_size(items) == items.fold_left(0nat, |sum: nat, item: Item| sum + item.size as nat),
    decreases items.len(),
{
    if items.len() > 0 {
        lemma_total_size_is_fold(items.drop_last());
    }
}

/// Two sequences of the same items, in whatever order, have the same sum of
/// sizes.
pub proof fn lemma_same_items_same_total(a: Seq<Item>, b: Seq<Item>)
    requires
        a.to_multiset() == b.to_multiset(),
    ensures
        total_size(a) == total_size(b),
{
    let f = |sum: nat, item: Item| sum + item.size as nat;
    lemma_total_size_is_fold(a);
    lemma_total_size_is_fold(b);
    lemma_fold_left_permutation(a, b, f, 0nat);
}

/// Where no item of a sequence is larger than a container, the same holds
/// of the same items in any other order.
pub proof fn lemma_same_items_all_fit(a: Seq<Item>, b: Seq<Item>, capacity: nat)
    requires
        a.to_multiset() == b.to_multiset(),
        all_fit(a, capacity),
    ensures
        all_fit(b, capacity),
{
    assert forall|i: int| 0 <= i < b.len() implies (#[trigger] b[i]).size <= capacity by {
        to_multiset_contains(b, b[i]);
        to_multiset_contains(a, b[i]);
        assert(b.contains(b[i]));
        let j = a.index_of(b[i]);
        assert(a[j] == b[i]);
    }
}

/// On the same items in the same order, First-Fit never opens more
/// containers than Next-Fit. Where both opened equally many, the last one
/// of First-Fit is no fuller than the last one of Next-Fit.
pub proof fn lemma_first_fit_no_worse_than_next_fit(items: Seq<Item>, capacity: nat)
    ensures
        1 <= first_fit(items, capacity).len() <= next_fit(items, capacity).len(),
        first_fit(items, capacity).len() == next_fit(items, capacity).len() ==> total_size(
            first_fit(items, capacity).last(),
        ) <= total_size(next_fit(items, capacity).last()),
    decreases items.len(),
{
    if items.len() > 0 {
        let item = items.last();
        let first = first_fit(items.drop_last(), capacity);
        let next = next_fit(items.drop_last(), capacity);
        lemma_first_fit_no_worse_than_next_fit(items.drop_last(), capacity);
        lemma_first_fit_slot(first, item, capacity);
        lemma_total_size_push(Seq::empty(), item);
        assert(Seq::<Item>::empty().push(item) =~= seq![item]);
        let slot = first_fit_slot(first, item, capacity);
        if slot < first.len() {
            lemma_total_size_push(first[slot], item);
        }
        if fits(next.last(), item, capacity) {
            lemma_total_size_push(next.last(), item);
            if first.len() == next.len() {
                assert(fits(first.last(), item, capacity));
                assert(slot < first.len());
            }
        }
    }
}

/// The sum of sizes of two sequences, one behind the other.
pub proof fn lemma_total_size_concat(a: Seq<Item>, b: Seq<Item>)
    ensures
        total_size(a + b) == total_size(a) + total_size(b),
    decreases b.len(),
{
    if b.len() == 0 {
        assert(a + b =~= a);
    } else {
        lemma_total_size_concat(a, b.drop_last());
        assert((a + b).drop_last() =~= a + b.drop_last());
    }
}

/// A packing that respects the capacity holds no more than its containers
/// have room for.
pub proof fn lemma_packing_total(bins: Bins, capacity: nat)
    requires
        within_capacity(bins, capacity),
    ensures
        total_size(bins.flatten()) <= bins.len() * capacity,
    decreases bins.len(),
{
    if bins.len() == 0 {
        assert(0 * capacity == 0);
    } else {
        let before = bins.drop_last();
        assert forall|k: int| 0 <= k < before.len() implies total_size(#[trigger] before[k])
            <= capacity by {
            assert(before[k] == bins[k]);
        }
        lemma_packing_total(before, capacity);
        before.lemma_flatten_push(bins.last());
        assert(before.push(bins.last()) =~= bins);
        lemma_total_size_concat(before.flatten(), bins.last());
        assert(total_size(bins.last()) <= capacity);
        assert(bins.len() * capacity == before.len() * capacity + capacity) by (nonlinear_arith)
            requires
                bins.len() == before.len() + 1,
        ;
    }
}

/// No packing that respects the capacity gets by with fewer containers than
/// its items fill exactly.
pub proof fn lemma_no_packing_beats_the_fill(
    bins: Bins,
    items: Seq<Item>,
    capacity: nat,
    count: nat,
)
    requires
        capacity > 0,
        within_capacity(bins, capacity),
        bins.flatten().to_multiset() == items.to_multiset(),
        total_size(items) == count * capacity,
    ensures
        bins.len() >= count,
{
    lemma_packing_total(bins, capacity);
    lemma_same_items_same_total(bins.flatten(), items);
    assert(count <= bins.len()) by (nonlinear_arith)
        requires
            count * capacity <= bins.len() * capacity,
            capacity > 0,
    ;
}

/// Next-Fit respects the capacity wherever every item fits an empty
/// container.
pub proof fn lemma_next_fit_within_capacity(items: Seq<Item>, capacity: nat)
    requires
        all_fit(items, capacity),
    ensures
        within_capacity(next_fit(items, capacity), capacity),
    decreases items.len(),
{
    if items.len() == 0 {
    } else {
        let item = items.last();
        let before = next_fit(items.drop_last(), capacity);
        assert forall|i: int| 0 <= i < items.drop_last().len() implies (
        #[trigger] items.drop_last()[i]).size <= capacity by {
            assert(items.drop_last()[i] == items[i]);
        }
        lemma_next_fit_within_capacity(items.drop_last(), capacity);
        lemma_total_size_push(Seq::empty(), item);
        assert(Seq::<Item>::empty().push(item) =~= seq![item]);
        assert(items[items.len() - 1].size <= capacity);
        if before.len() > 0 {
            lemma_total_size_push(before.last(), item);
        }
    }
}

/// First-Fit respects the capacity wherever every item fits an empty
/// container.
pub proof fn lemma_first_fit_within_capacity(items: Seq<Item>, capacity: nat)
    requires
        all_fit(items, capacity),
    ensures
        within_capacity(first_fit(items, capacity), capacity),
    decreases items.len(),
{
    if items.len() == 0 {
    } else {
        let item = items.last();
        let before = first_fit(items.drop_last(), capacity);
        assert forall|i: int| 0 <= i < items.drop_last().len() implies (
        #[trigger] items.drop_last()[i]).size <= capacity by {
            assert(items.drop_last()[i] == items[i]);
        }
        lemma_first_fit_within_capacity(items.drop_last(), capacity);
        lemma_first_fit_slot(before, item, capacity);
        lemma_total_size_push(Seq::empty(), item);
        assert(Seq::<Item>::empty().push(item) =~= seq![item]);
        assert(items[items.len() - 1].size <= capacity);
        let slot = first_fit_slot(before, item, capacity);
        if slot < before.len() {
            lemma_total_size_push(before[slot], item);
        }
    }
}

} // verus!
