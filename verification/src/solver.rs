//! The two placement heuristics and the closed set that selects between them.

use vstd::prelude::*;
use crate::container::{total_size, Container, Item};
use crate::packing::{
    all_fit, first_fit, first_fit_place, first_fit_slot, fits, lemma_first_fit_keeps_items,
    lemma_first_fit_slot, lemma_first_fit_slot_is, lemma_next_fit_keeps_items, next_fit,
    within_capacity, Bins,
};
use crate::settings::Settings;

verus! {

/// The fatal configuration error of a solve: an item that is larger than an
/// empty container.
#[derive(Clone, Copy, Debug, PartialEq, Eq, Structural)]
pub struct UnfittableItem {
    /// Where the item stands in the input.
    pub position: usize,
    /// The item itself.
    pub item: Item,
    /// The capacity it exceeds.
    pub container_size: u32,
}

/// The contents of each container of `containers`, in order.
pub open spec fn bins_of(containers: Seq<Container>) -> Bins {
    Seq::new(containers.len(), |k: int| containers[k]@.contents)
}

/// Every container is well formed and has the capacity `capacity`.
pub open spec fn all_sized(containers: Seq<Container>, capacity: u32) -> bool {
    forall|k: int|
        0 <= k < containers.len() ==> (#[trigger] containers[k]).wf() && containers[k]@.capacity
            == capacity
}

/// `error` names the earliest item of `items` that no empty container of
/// `capacity` can take.
pub open spec fn is_first_unfittable(error: UnfittableItem, items: Seq<Item>, capacity: u32) -> bool {
    &&& error.position < items.len()
    &&& error.item == items[error.position as int]
    &&& error.item.size > capacity
    &&& error.container_size == capacity
    &&& forall|j: int| 0 <= j < error.position ==> (#[trigger] items[j]).size <= capacity
}

/// Opens an empty container of `capacity` and places `item` in it, or reports
/// that the item can never be placed.
pub fn place_in_new_container(capacity: u32, item: Item, position: usize) -> (r: Result<
    Container,
    UnfittableItem,
>)
    ensures
        item.size <= capacity <==> r is Ok,
        r matches Ok(c) ==> c.wf() && c@.capacity == capacity && c@.contents == seq![item],
        r matches Err(e) ==> e == (UnfittableItem { position, item, container_size: capacity }),
{
    let mut fresh = Container::new(capacity);
    match fresh.add(item) {
        None => {
            assert(fresh@.contents =~= seq![item]);
            Ok(fresh)
        },
        Some(rejected) => Err(UnfittableItem { position, item: rejected, container_size: capacity }),
    }
}

/// Next-Fit: a single open container at any time.
#[derive(Clone, Copy, Debug)]
pub struct SolverNextFit {
    pub settings: Settings,
}

impl SolverNextFit {
    /// The name this heuristic is selected by.
    pub fn get_name(&self) -> (name: String)
        ensures
            name@ == "Next Fit"@,
    {
        "Next Fit".to_owned()
    }

    /// The scenario this solver packs for.
    pub fn get_settings(&self) -> (s: &Settings)
        ensures
            *s == self.settings,
    {
        &self.settings
    }

    /// An empty container of the scenario's capacity.
    pub fn new_container(&self) -> (c: Container)
        ensures
            c.wf(),
            c@.capacity == self.settings.container_size,
            c@.occupied == 0,
            c@.contents == Seq::<Item>::empty(),
    {
        Container::new(self.settings.container_size)
    }

    /// Packs `input` in order. Each item goes into the container opened last
    /// if it has room there, else into a new one, which then is the only one
    /// still open. Fails on the earliest item larger than an empty container.
    pub fn solve(&self, input: Vec<Item>) -> (r: Result<Vec<Container>, UnfittableItem>)
        ensures
            all_fit(input@, self.settings.container_size as nat) <==> r is Ok,
            r matches Ok(containers) ==> {
                &&& bins_of(containers@) == next_fit(input@, self.settings.container_size as nat)
                &&& all_sized(containers@, self.settings.container_size)
                &&& within_capacity(bins_of(containers@), self.settings.container_size as nat)
                &&& bins_of(containers@).flatten().to_multiset() == input@.to_multiset()
            },
            r matches Err(e) ==> is_first_unfittable(e, input@, self.settings.container_size),
    {
        let capacity = self.settings.container_size;
        let mut results: Vec<Container> = Vec::new();
        let mut last_index: usize = 0;
        let first_container: Container = self.new_container();
        results.push(first_container);
        proof {
            assert(bins_of(results@) =~= next_fit(input@.take(0), capacity as nat));
        }

        let mut i: usize = 0;
        while i < input.len()
            invariant
                capacity == self.settings.container_size,
                i <= input.len(),
                results.len() >= 1,
                last_index == results.len() - 1,
                all_sized(results@, capacity),
                bins_of(results@) == next_fit(input@.take(i as int), capacity as nat),
                forall|j: int| 0 <= j < i ==> (#[trigger] input@[j]).size <= capacity,
            decreases input.len() - i,
        {
            let item = input[i];
            let ghost before = results@;
            let ghost bins = bins_of(before);
            proof {
                assert(input@.take(i + 1).drop_last() =~= input@.take(i as int));
                assert(input@.take(i + 1).last() == item);
                assert(bins.last() == before[last_index as int]@.contents);
                assert(before[last_index as int].wf());
            }
            let rejected_item: Option<Item> = results[last_index].add(item);
            proof {
                assert forall|k: int| 0 <= k < results@.len() implies (#[trigger] results@[k]).wf()
                    && results@[k]@.capacity == capacity by {
                    if k != last_index {
                        assert(results@[k] == before[k]);
                    }
                }
            }
            match rejected_item {
                None => {
                    proof {
                        assert(bins_of(results@) =~= bins.update(
                            bins.len() - 1,
                            bins.last().push(item),
                        ));
                    }
                },
                Some(rejected) => {
                    proof {
                        assert(bins_of(results@) =~= bins);
                    }
                    match place_in_new_container(capacity, rejected, i) {
                        Ok(new_container) => {
                            results.push(new_container);
                            last_index += 1;
                            proof {
                                assert(bins_of(results@) =~= bins.push(seq![item]));
                            }
                        },
                        Err(e) => {
                            return Err(e);
                        },
                    }
                },
            }
            i += 1;
        }
        proof {
            assert(input@.take(i as int) =~= input@);
            lemma_next_fit_keeps_items(input@, capacity as nat);
            assert forall|k: int| 0 <= k < bins_of(results@).len() implies total_size(
                #[trigger] bins_of(results@)[k],
            ) <= capacity by {
                assert(results@[k].wf());
            }
        }
        Ok(results)
    }
}

/// First-Fit: every container stays open, and the earliest with room wins.
#[derive(Clone, Copy, Debug)]
pub struct SolverFirstFit {
    pub settings: Settings,
}

/// Scans `results` from the container opened first and places `item` into
/// the earliest one with room. Hands the item back where none has.
fn place_in_earliest(results: &mut Vec<Container>, item: Item, capacity: u32) -> (rejected: Option<
    Item,
>)
    requires
        all_sized(old(results)@, capacity),
    ensures
        all_sized(final(results)@, capacity),
        final(results)@.len() == old(results)@.len(),
        rejected is None <==> first_fit_slot(bins_of(old(results)@), item, capacity as nat) < old(
            results,
        )@.len(),
        rejected is None ==> bins_of(final(results)@) == first_fit_place(
            bins_of(old(results)@),
            item,
            capacity as nat,
        ),
        rejected is Some ==> rejected == Some(item) && bins_of(final(results)@) == bins_of(
            old(results)@,
        ),
{
    let ghost bins = bins_of(results@);
    let containers_count = results.len();
    let mut index: usize = 0;
    while index < containers_count
        invariant
            index <= containers_count,
            containers_count == results@.len(),
            containers_count == old(results)@.len(),
            bins == bins_of(old(results)@),
            bins.len() == containers_count,
            all_sized(results@, capacity),
            bins_of(results@) == bins,
            forall|j: int| 0 <= j < index ==> !fits(#[trigger] bins[j], item, capacity as nat),
        decreases containers_count - index,
    {
        let ghost before = results@;
        proof {
            assert(before[index as int].wf());
            assert(bins[index as int] == before[index as int]@.contents);
        }
        let rejected_item = results[index].add(item);
        proof {
            assert forall|k: int| 0 <= k < results@.len() implies (#[trigger] results@[k]).wf()
                && results@[k]@.capacity == capacity by {
                if k != index {
                    assert(results@[k] == before[k]);
                }
            }
        }
        if rejected_item.is_none() {
            proof {
                lemma_first_fit_slot_is(bins, item, capacity as nat, index as int);
                assert(bins_of(results@) =~= bins.update(
                    index as int,
                    bins[index as int].push(item),
                ));
            }
            return None;
        }
        proof {
            assert(bins_of(results@) =~= bins);
        }
        index += 1;
    }
    proof {
        lemma_first_fit_slot_is(bins, item, capacity as nat, containers_count as int);
    }
    Some(item)
}

impl SolverFirstFit {
    /// The name this heuristic is selected by.
    pub fn get_name(&self) -> (name: String)
        ensures
            name@ == "First Fit"@,
    {
        "First Fit".to_owned()
    }

    /// The scenario this solver packs for.
    pub fn get_settings(&self) -> (s: &Settings)
        ensures
            *s == self.settings,
    {
        &self.settings
    }

    /// An empty container of the scenario's capacity.
    pub fn new_container(&self) -> (c: Container)
        ensures
            c.wf(),
            c@.capacity == self.settings.container_size,
            c@.occupied == 0,
            c@.contents == Seq::<Item>::empty(),
    {
        Container::new(self.settings.container_size)
    }

    /// Packs `input` in order. Each item goes into the earliest opened
    /// container that has room for it, else into a new one behind all
    /// others. Fails on the earliest item larger than an empty container.
    pub fn solve(&self, input: Vec<Item>) -> (r: Result<Vec<Container>, UnfittableItem>)
        ensures
            all_fit(input@, self.settings.container_size as nat) <==> r is Ok,
            r matches Ok(containers) ==> {
                &&& bins_of(containers@) == first_fit(input@, self.settings.container_size as nat)
                &&& all_sized(containers@, self.settings.container_size)
                &&& within_capacity(bins_of(containers@), self.settings.container_size as nat)
                &&& bins_of(containers@).flatten().to_multiset() == input@.to_multiset()
            },
            r matches Err(e) ==> is_first_unfittable(e, input@, self.settings.container_size),
    {
        let capacity = self.settings.container_size;
        let mut results: Vec<Container> = Vec::new();
        let first_container: Container = self.new_container();
        results.push(first_container);
        proof {
            assert(bins_of(results@) =~= first_fit(input@.take(0), capacity as nat));
        }

        let mut i: usize = 0;
        while i < input.len()
            invariant
                capacity == self.settings.container_size,
                i <= input.len(),
                all_sized(results@, capacity),
                bins_of(results@) == first_fit(input@.take(i as int), capacity as nat),
                forall|j: int| 0 <= j < i ==> (#[trigger] input@[j]).size <= capacity,
            decreases input.len() - i,
        {
            let item = input[i];
            let ghost bins = bins_of(results@);
            proof {
                assert(input@.take(i + 1).drop_last() =~= input@.take(i as int));
                assert(input@.take(i + 1).last() == item);
            }
            match place_in_earliest(&mut results, item, capacity) {
                None => {
                    proof {
                        lemma_first_fit_slot(bins, item, capacity as nat);
                    }
                },
                Some(rejected) => {
                    match place_in_new_container(capacity, rejected, i) {
                        Ok(new_container) => {
                            results.push(new_container);
                            proof {
                                assert(bins_of(results@) =~= bins.push(seq![item]));
                            }
                        },
                        Err(e) => {
                            return Err(e);
                        },
                    }
                },
            }
            i += 1;
        }
        proof {
            assert(input@.take(i as int) =~= input@);
            lemma_first_fit_keeps_items(input@, capacity as nat);
            assert forall|k: int| 0 <= k < bins_of(results@).len() implies total_size(
                #[trigger] bins_of(results@)[k],
            ) <= capacity by {
                assert(results@[k].wf());
            }
        }
        Ok(results)
    }
}

/// The heuristics this library implements: a closed set.
#[derive(Clone, Copy, Debug)]
pub enum Solver {
    NextFit(SolverNextFit),
    FirstFit(SolverFirstFit),
}

impl Solver {
    /// The scenario of the solver, whichever it is.
    pub open spec fn settings(&self) -> Settings {
        match self {
            Solver::NextFit(s) => s.settings,
            Solver::FirstFit(s) => s.settings,
        }
    }

    /// The name of the solver, whichever it is.
    pub open spec fn name(&self) -> Seq<char> {
        match self {
            Solver::NextFit(_) => "Next Fit"@,
            Solver::FirstFit(_) => "First Fit"@,
        }
    }

    /// The packing that this solver owes for `items`.
    pub open spec fn packing(&self, items: Seq<Item>) -> Bins {
        match self {
            Solver::NextFit(s) => next_fit(items, s.settings.container_size as nat),
            Solver::FirstFit(s) => first_fit(items, s.settings.container_size as nat),
        }
    }

    /// The scenario this solver packs for.
    pub fn get_settings(&self) -> (s: &Settings)
        ensures
            *s == self.settings(),
    {
        match self {
            Solver::NextFit(s) => s.get_settings(),
            Solver::FirstFit(s) => s.get_settings(),
        }
    }

    /// The name this solver is selected by.
    pub fn get_name(&self) -> (name: String)
        ensures
            name@ == self.name(),
    {
        match self {
            Solver::NextFit(s) => s.get_name(),
            Solver::FirstFit(s) => s.get_name(),
        }
    }

    /// An empty container of the scenario's capacity.
    pub fn new_container(&self) -> (c: Container)
        ensures
            c.wf(),
            c@.capacity == self.settings().container_size,
            c@.occupied == 0,
            c@.contents == Seq::<Item>::empty(),
    {
        Container::new(self.get_settings().container_size)
    }

    /// Packs `input` in order with the heuristic that `self` stands for.
    /// Succeeds exactly where no item is larger than an empty container, and
    /// otherwise names the earliest such item.
    pub fn solve(&self, input: Vec<Item>) -> (r: Result<Vec<Container>, UnfittableItem>)
        ensures
            all_fit(input@, self.settings().container_size as nat) <==> r is Ok,
            r matches Ok(containers) ==> {
                &&& bins_of(containers@) == self.packing(input@)
                &&& all_sized(containers@, self.settings().container_size)
                &&& within_capacity(bins_of(containers@), self.settings().container_size as nat)
                &&& bins_of(containers@).flatten().to_multiset() == input@.to_multiset()
            },
            r matches Err(e) ==> is_first_unfittable(e, input@, self.settings().container_size),
    {
        match self {
            Solver::NextFit(s) => s.solve(input),
            Solver::FirstFit(s) => s.solve(input),
        }
    }
}

/// The solver that `name` selects for `settings`, if it selects one.
pub open spec fn solver_named(name: Seq<char>, settings: Settings) -> Option<Solver> {
    if name == "Next Fit"@ {
        Some(Solver::NextFit(SolverNextFit { settings }))
    } else if name == "First Fit"@ {
        Some(Solver::FirstFit(SolverFirstFit { settings }))
    } else {
        None
    }
}

/// `name` is the name of a heuristic that this library implements.
pub open spec fn known_solver(name: Seq<char>) -> bool {
    name == "Next Fit"@ || name == "First Fit"@
}

/// A solver that `solver_named` selects carries the name it was selected
/// by and the settings it was selected for.
pub proof fn lemma_solver_named(name: Seq<char>, settings: Settings)
    ensures
        solver_named(name, settings) is Some <==> known_solver(name),
        solver_named(name, settings) matches Some(solver) ==> solver.name() == name
            && solver.settings() == settings,
{
}

/// Decides [`known_solver`].
pub fn is_known_solver(name: &String) -> (known: bool)
    ensures
        known == known_solver(name@),
{
    *name == "Next Fit".to_owned() || *name == "First Fit".to_owned()
}

/// Selects a heuristic by its name: `"Next Fit"` or `"First Fit"`, and
/// nothing for any other string.
pub fn generate_solver(string: String, settings: Settings) -> (solver: Option<Solver>)
    ensures
        solver == solver_named(string@, settings),
{
    proof {
        reveal_strlit("Next Fit");
        reveal_strlit("First Fit");
        assert("Next Fit"@.len() == 8 && "First Fit"@.len() == 9);
    }
    if string == "Next Fit".to_owned() {
        Some(Solver::NextFit(SolverNextFit { settings }))
    } else if string == "First Fit".to_owned() {
        Some(Solver::FirstFit(SolverFirstFit { settings }))
    } else {
        None
    }
}

} // verus!
