//! The workload generator: item sequences whose minimal container count is
//! known by construction.

use rand::rngs::ThreadRng;
use vstd::prelude::*;
use vstd::seq_lib::*;
use crate::container::{total_size, Item};
use crate::packing::{
    all_fit, fits, lemma_next_fit_keeps_items, lemma_next_fit_within_capacity,
    lemma_no_packing_beats_the_fill, lemma_same_items_all_fit, lemma_same_items_same_total,
    lemma_total_size_push, next_fit, within_capacity, Bins,
};
use crate::random::{draw_in_range, shuffle_items};
use crate::settings::Settings;

verus! {

/// The size an item gets: what was drawn, unless that would overflow the
/// current conceptual container or the item is the last one; then exactly
/// the free space.
pub open spec fn item_size(settings: Settings, fill: nat, drawn: u32, last: bool) -> u32 {
    if fill + drawn > settings.container_size || last {
        (settings.container_size - fill) as u32
    } else {
        drawn
    }
}

/// How full the current conceptual container is once an item has been
/// generated for each of `draws`.
pub open spec fn fill_after(settings: Settings, draws: Seq<u32>) -> nat
    decreases draws.len(),
{
    if draws.len() == 0 {
        0
    } else {
        let fill = fill_after(settings, draws.drop_last());
        let size = item_size(settings, fill, draws.last(), draws.len() == settings.item_limit);
        ((fill + size) % (settings.container_size as int)) as nat
    }
}

/// The items generated from `draws`, one per draw, before they are shuffled.
pub open spec fn generated_items(settings: Settings, draws: Seq<u32>) -> Seq<Item>
    decreases draws.len(),
{
    if draws.len() == 0 {
        Seq::empty()
    } else {
        let before = draws.drop_last();
        let fill = fill_after(settings, before);
        generated_items(settings, before).push(
            Item { size: item_size(settings, fill, draws.last(), draws.len() == settings.item_limit) },
        )
    }
}

/// How many conceptual containers were opened while generating from `draws`:
/// one for each item that found the current container empty.
pub open spec fn containers_opened(settings: Settings, draws: Seq<u32>) -> nat
    decreases draws.len(),
{
    if draws.len() == 0 {
        0
    } else {
        let before = draws.drop_last();
        containers_opened(settings, before) + if fill_after(settings, before) == 0 {
            1nat
        } else {
            0nat
        }
    }
}

/// No conceptual container was opened for an item of size zero.
pub open spec fn every_opening_used(settings: Settings, draws: Seq<u32>) -> bool
    decreases draws.len(),
{
    draws.len() > 0 ==> {
        let before = draws.drop_last();
        let fill = fill_after(settings, before);
        &&& every_opening_used(settings, before)
        &&& !(fill == 0 && item_size(settings, fill, draws.last(), draws.len() == settings.item_limit)
            == 0)
    }
}

/// The part of the current conceptual container that is still free, counted
/// as nothing where the container is untouched.
pub open spec fn unused_remainder(settings: Settings, draws: Seq<u32>) -> nat {
    let fill = fill_after(settings, draws);
    if fill == 0 {
        0
    } else {
        (settings.container_size - fill) as nat
    }
}

/// `draws` is what the random source may hand out for `settings`: one number
/// per item, each in the half-open size range.
pub open spec fn drawn_for(settings: Settings, draws: Seq<u32>) -> bool {
    &&& draws.len() == settings.item_limit
    &&& forall|k: int|
        0 <= k < draws.len() ==> settings.item_size_min <= #[trigger] draws[k]
            < settings.item_size_max
}

/// `items` and `count` are what generating from `draws` hands out: the
/// generated items in some order, and the containers that were opened.
pub open spec fn is_generation(
    settings: Settings,
    draws: Seq<u32>,
    items: Seq<Item>,
    count: nat,
) -> bool {
    &&& drawn_for(settings, draws)
    &&& items.to_multiset() == generated_items(settings, draws).to_multiset()
    &&& count == containers_opened(settings, draws)
}

/// What one generation hands out.
#[derive(Debug)]
pub struct GeneratorResults {
    /// The generated items, in the order the solvers are meant to see them.
    pub items: Vec<Item>,
    /// The minimal number of containers that can hold them.
    pub optimal_container_count: u32,
}

/// A generator for one scenario.
#[derive(Clone, Copy, Debug)]
pub struct Generator {
    pub settings: Settings,
}

/// What holds of the items generated from any draws: none is larger than a
/// container, the current container is never full, and at most one
/// container is opened per item.
pub proof fn lemma_generated_bounds(settings: Settings, draws: Seq<u32>)
    requires
        settings.container_size > 0,
    ensures
        generated_items(settings, draws).len() == draws.len(),
        all_fit(generated_items(settings, draws), settings.container_size as nat),
        fill_after(settings, draws) < settings.container_size,
        containers_opened(settings, draws) <= draws.len(),
    decreases draws.len(),
{
    if draws.len() > 0 {
        let before = draws.drop_last();
        lemma_generated_bounds(settings, before);
        let items = generated_items(settings, draws);
        assert forall|i: int| 0 <= i < items.len() implies (#[trigger] items[i]).size
            <= settings.container_size by {
            if i < before.len() {
                assert(items[i] == generated_items(settings, before)[i]);
            }
        }
    }
}

/// The generator's guarantee. Where no container was opened for an item of
/// size zero, the items fill every opened conceptual container exactly, but
/// for the unused remainder of the current one.
pub proof fn lemma_generated_total(settings: Settings, draws: Seq<u32>)
    requires
        settings.container_size > 0,
        every_opening_used(settings, draws),
    ensures
        total_size(generated_items(settings, draws)) + unused_remainder(settings, draws)
            == containers_opened(settings, draws) * settings.container_size,
    decreases draws.len(),
{
    let capacity = settings.container_size as int;
    if draws.len() == 0 {
        assert(0 * capacity == 0);
    } else {
        let before = draws.drop_last();
        let fill = fill_after(settings, before);
        let size = item_size(settings, fill, draws.last(), draws.len() == settings.item_limit);
        let opened = containers_opened(settings, before);
        lemma_generated_total(settings, before);
        lemma_generated_bounds(settings, before);
        lemma_total_size_push(generated_items(settings, before), Item { size });
        assert(fill + size <= capacity);
        assert((opened + 1) * capacity == opened * capacity + capacity) by (nonlinear_arith);
        if fill + size == capacity {
            assert((fill + size) % capacity == 0) by (nonlinear_arith)
                requires
                    fill + size == capacity,
                    capacity > 0,
            ;
            assert(fill_after(settings, draws) == 0);
        } else {
            assert((fill + size) % capacity == fill + size) by (nonlinear_arith)
                requires
                    0 <= fill + size < capacity,
            ;
            assert(fill_after(settings, draws) == fill + size);
        }
        assert(total_size(generated_items(settings, draws)) == total_size(
            generated_items(settings, before),
        ) + size);
        if fill == 0 {
            assert(size > 0);
            assert(containers_opened(settings, draws) == opened + 1);
        } else {
            assert(containers_opened(settings, draws) == opened);
        }
    }
}

/// Draws that are never zero open no container for nothing.
pub proof fn lemma_positive_draws_use_every_opening(settings: Settings, draws: Seq<u32>)
    requires
        settings.container_size > 0,
        forall|k: int| 0 <= k < draws.len() ==> #[trigger] draws[k] > 0,
    ensures
        every_opening_used(settings, draws),
    decreases draws.len(),
{
    if draws.len() > 0 {
        let before = draws.drop_last();
        assert forall|k: int| 0 <= k < before.len() implies #[trigger] before[k] > 0 by {
            assert(before[k] == draws[k]);
        }
        lemma_positive_draws_use_every_opening(settings, before);
        lemma_generated_bounds(settings, before);
    }
}

/// After the last of `item_limit` items, which is cut to the free space, the
/// current conceptual container is full: nothing of it remains unused.
pub proof fn lemma_complete_run_leaves_nothing(settings: Settings, draws: Seq<u32>)
    requires
        settings.container_size > 0,
        draws.len() == settings.item_limit,
    ensures
        fill_after(settings, draws) == 0,
        unused_remainder(settings, draws) == 0,
{
    if draws.len() > 0 {
        let before = draws.drop_last();
        let capacity = settings.container_size as int;
        let fill = fill_after(settings, before);
        lemma_generated_bounds(settings, before);
        let size = item_size(settings, fill, draws.last(), true);
        assert(fill + size == capacity);
        assert((fill + size) % capacity == 0) by (nonlinear_arith)
            requires
                fill + size == capacity,
                capacity > 0,
        ;
    }
}

/// The conceptual containers are a packing: Next-Fit on the items in the
/// order they were generated opens exactly the containers that generating
/// opened, and its last container is as full as the current conceptual one.
pub proof fn lemma_opened_containers_hold_the_items(settings: Settings, draws: Seq<u32>)
    requires
        settings.container_size > 0,
        every_opening_used(settings, draws),
        draws.len() > 0,
    ensures
        next_fit(generated_items(settings, draws), settings.container_size as nat).len()
            == containers_opened(settings, draws),
        total_size(
            next_fit(generated_items(settings, draws), settings.container_size as nat).last(),
        ) + unused_remainder(settings, draws) == settings.container_size,
    decreases draws.len(),
{
    let capacity = settings.container_size as nat;
    let before = draws.drop_last();
    let fill = fill_after(settings, before);
    let size = item_size(settings, fill, draws.last(), draws.len() == settings.item_limit);
    let item = Item { size };
    let items = generated_items(settings, draws);
    let earlier = generated_items(settings, before);
    let bins = next_fit(earlier, capacity);
    assert(items.drop_last() =~= earlier);
    assert(items.last() == item);
    lemma_generated_bounds(settings, before);
    if fill + size == capacity {
        assert((fill + size) % (capacity as int) == 0) by (nonlinear_arith)
            requires
                fill + size == capacity,
                capacity > 0,
        ;
    } else {
        assert((fill + size) % (capacity as int) == fill + size) by (nonlinear_arith)
            requires
                0 <= fill + size < capacity,
        ;
    }
    if before.len() == 0 {
        assert(earlier =~= Seq::<Item>::empty());
        assert(bins =~= seq![Seq::<Item>::empty()]);
        lemma_total_size_push(Seq::empty(), item);
    } else {
        lemma_opened_containers_hold_the_items(settings, before);
        if fits(bins.last(), item, capacity) {
            lemma_total_size_push(bins.last(), item);
        } else {
            lemma_total_size_push(Seq::empty(), item);
            assert(Seq::<Item>::empty().push(item) =~= seq![item]);
        }
    }
}

/// The count is the optimum. Where all `item_limit` items were generated and
/// no container was opened for an item of size zero, some packing holds the
/// items in as many containers as were opened, and no packing holds them in
/// fewer.
pub proof fn lemma_count_is_optimal(settings: Settings, draws: Seq<u32>)
    requires
        settings.container_size > 0,
        draws.len() == settings.item_limit,
        every_opening_used(settings, draws),
    ensures
        exists|bins: Bins|
            {
                &&& #[trigger] within_capacity(bins, settings.container_size as nat)
                &&& bins.flatten().to_multiset() == generated_items(settings, draws).to_multiset()
                &&& bins.len() == containers_opened(settings, draws)
            },
        forall|bins: Bins|
            {
                &&& #[trigger] within_capacity(bins, settings.container_size as nat)
                &&& bins.flatten().to_multiset() == generated_items(settings, draws).to_multiset()
            } ==> bins.len() >= containers_opened(settings, draws),
{
    let capacity = settings.container_size as nat;
    let items = generated_items(settings, draws);
    let opened = containers_opened(settings, draws);
    lemma_generated_bounds(settings, draws);
    lemma_generated_total(settings, draws);
    lemma_complete_run_leaves_nothing(settings, draws);
    if draws.len() == 0 {
        let none: Bins = Seq::empty();
        assert(none.flatten() =~= items);
        assert(within_capacity(none, capacity));
    } else {
        let reached = next_fit(items, capacity);
        lemma_opened_containers_hold_the_items(settings, draws);
        lemma_next_fit_within_capacity(items, capacity);
        lemma_next_fit_keeps_items(items, capacity);
        assert(within_capacity(reached, capacity));
    }
    assert forall|bins: Bins|
        {
            &&& #[trigger] within_capacity(bins, capacity)
            &&& bins.flatten().to_multiset() == items.to_multiset()
        } implies bins.len() >= opened by {
        lemma_no_packing_beats_the_fill(bins, items, capacity, opened);
    }
}

impl Generator {
    /// The size of the next item, given how full the current conceptual
    /// container is, what was drawn, and whether the item is the last.
    pub fn next_size(&self, current_size: u32, drawn: u32, last: bool) -> (size: u32)
        requires
            current_size <= self.settings.container_size,
        ensures
            size == item_size(self.settings, current_size as nat, drawn, last),
    {
        let item_overflows_current_container: bool = current_size as u64 + drawn as u64
            > self.settings.container_size as u64;
        if item_overflows_current_container || last {
            self.settings.container_size - current_size
        } else {
            drawn
        }
    }

    /// Generates one item per draw, in order, and counts the conceptual
    /// containers they open. The items are not shuffled.
    pub fn build(&self, draws: &Vec<u32>) -> (r: GeneratorResults)
        requires
            self.settings.container_size > 0,
            draws@.len() <= u32::MAX,
        ensures
            r.items@ == generated_items(self.settings, draws@),
            r.optimal_container_count == containers_opened(self.settings, draws@),
            all_fit(r.items@, self.settings.container_size as nat),
            every_opening_used(self.settings, draws@) ==> total_size(r.items@) + unused_remainder(
                self.settings,
                draws@,
            ) == r.optimal_container_count * self.settings.container_size,
    {
        let mut current_size: u32 = 0;
        let mut containers: u32 = 0;
        let mut items: Vec<Item> = Vec::new();
        let mut n: usize = 0;
        while n < draws.len()
            invariant
                self.settings.container_size > 0,
                draws@.len() <= u32::MAX,
                n <= draws.len(),
                current_size == fill_after(self.settings, draws@.take(n as int)),
                current_size < self.settings.container_size,
                containers == containers_opened(self.settings, draws@.take(n as int)),
                containers <= n,
                items@ == generated_items(self.settings, draws@.take(n as int)),
            decreases draws.len() - n,
        {
            proof {
                assert(draws@.take(n + 1).drop_last() =~= draws@.take(n as int));
                assert(draws@.take(n + 1).last() == draws@[n as int]);
                lemma_generated_bounds(self.settings, draws@.take(n + 1));
            }
            if current_size == 0 {
                containers += 1;
            }
            let last_item_to_generate: bool = self.settings.item_limit > 0 && n == (
            self.settings.item_limit - 1) as usize;
            let size = self.next_size(current_size, draws[n], last_item_to_generate);
            items.push(Item { size });
            current_size = ((current_size as u64 + size as u64) % (
            self.settings.container_size as u64)) as u32;
            n += 1;
        }
        proof {
            assert(draws@.take(n as int) =~= draws@);
            lemma_generated_bounds(self.settings, draws@);
            if every_opening_used(self.settings, draws@) {
                lemma_generated_total(self.settings, draws@);
            }
        }
        GeneratorResults { items, optimal_container_count: containers }
    }

    /// Draws one size per item from the scenario's half-open size range.
    pub fn draw_sizes(&self, rng: &mut ThreadRng) -> (draws: Vec<u32>)
        requires
            self.settings.valid(),
        ensures
            drawn_for(self.settings, draws@),
    {
        let mut draws: Vec<u32> = Vec::new();
        let mut n: u32 = 0;
        while n < self.settings.item_limit
            invariant
                self.settings.valid(),
                n <= self.settings.item_limit,
                draws@.len() == n,
                forall|k: int|
                    0 <= k < draws@.len() ==> self.settings.item_size_min <= #[trigger] draws@[k]
                        < self.settings.item_size_max,
            decreases self.settings.item_limit - n,
        {
            let drawn = draw_in_range(
                rng,
                self.settings.item_size_min,
                self.settings.item_size_max,
            );
            draws.push(drawn);
            n += 1;
        }
        draws
    }

    /// Draws from `rng`, generates `item_limit` items and the minimal number
    /// of containers that holds them, then shuffles the items. Whatever was
    /// drawn: no item is larger than a container; and where no size of zero
    /// can be drawn, the items fill exactly `optimal_container_count`
    /// containers.
    pub fn generate(&self, rng: &mut ThreadRng) -> (r: GeneratorResults)
        requires
            self.settings.valid(),
        ensures
            exists|draws: Seq<u32>|
                #[trigger] is_generation(
                    self.settings,
                    draws,
                    r.items@,
                    r.optimal_container_count as nat,
                ),
            r.items@.len() == self.settings.item_limit,
            all_fit(r.items@, self.settings.container_size as nat),
            self.settings.item_size_min > 0 ==> total_size(r.items@)
                == r.optimal_container_count * self.settings.container_size,
    {
        let draws = self.draw_sizes(rng);
        let mut result = self.build(&draws);
        let ghost unshuffled = result.items@;
        shuffle_items(rng, &mut result.items);
        proof {
            broadcast use vstd::seq_lib::group_to_multiset_ensures;

            let settings = self.settings;
            lemma_generated_bounds(settings, draws@);
            lemma_complete_run_leaves_nothing(settings, draws@);
            lemma_same_items_same_total(unshuffled, result.items@);
            lemma_same_items_all_fit(
                unshuffled,
                result.items@,
                settings.container_size as nat,
            );
            assert(result.items@.len() == unshuffled.len()) by {
                unshuffled.to_multiset_ensures();
                result.items@.to_multiset_ensures();
            }
            if settings.item_size_min > 0 {
                lemma_positive_draws_use_every_opening(settings, draws@);
            }
            assert(is_generation(
                settings,
                draws@,
                result.items@,
                result.optimal_container_count as nat,
            ));
        }
        result
    }
}

} // verus!
