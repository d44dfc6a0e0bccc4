//! The benchmark: every scenario, every solver variant, many randomized
//! trials each, folded into one cell per pair.

use rand::rngs::ThreadRng;
use std::time::Instant;
use vstd::prelude::*;
use crate::container::{Container, Item};
use crate::generator::{
    containers_opened, drawn_for, generated_items, is_generation,
    lemma_complete_run_leaves_nothing, lemma_generated_bounds, lemma_generated_total,
    lemma_positive_draws_use_every_opening, Generator,
};
use crate::ordering::{larger_first, sort_descending};
use crate::packing::{
    all_fit, lemma_first_fit_keeps_items, lemma_first_fit_within_capacity,
    lemma_next_fit_keeps_items, lemma_next_fit_within_capacity, lemma_no_packing_beats_the_fill,
    lemma_same_items_all_fit, within_capacity,
};
use crate::settings::Settings;
use crate::solver::{
    all_sized, bins_of, generate_solver, is_first_unfittable, is_known_solver, known_solver,
    lemma_solver_named, solver_named, Solver, UnfittableItem,
};
use crate::stats::{lemma_running_extremes, ProblemResult, ProblemResultView, Quality, Sample};

verus! {

/// One solver variant of the input: which heuristic, and whether it sees its
/// items sorted by size, largest first.
#[derive(Clone, Debug)]
pub struct SolverListItem {
    pub id: String,
    pub sorted: bool,
}

/// What a benchmark run is given.
#[derive(Clone, Debug)]
pub struct ProgramInput {
    pub solvers: Vec<SolverListItem>,
    pub settings: Vec<Settings>,
    pub iterations: u32,
}

/// The fatal configuration error of a run: a solver variant that names no
/// heuristic of this library.
#[derive(Clone, Copy, Debug, PartialEq, Eq, Structural)]
pub struct UnknownSolver {
    /// Where the variant stands in the list of solvers.
    pub position: usize,
}

/// The order in which a variant sees `items`.
pub open spec fn arranged(items: Seq<Item>, sorted: bool) -> Seq<Item> {
    if sorted {
        items.sort_by(larger_first())
    } else {
        items
    }
}

/// However a variant arranges its items, they stay the same items.
pub proof fn lemma_arranged_keeps_items(items: Seq<Item>, sorted: bool)
    ensures
        arranged(items, sorted).to_multiset() == items.to_multiset(),
{
    if sorted {
        assert(vstd::relations::total_ordering(larger_first()));
        items.lemma_sort_by_ensures(larger_first());
    }
}

/// The work of one variant on one item sequence: the sort, where the
/// variant is a sorted one, and the solve.
pub fn run_variant(solver: &Solver, sorted: bool, items: Vec<Item>) -> (r: Result<
    Vec<Container>,
    UnfittableItem,
>)
    ensures
        all_fit(items@, solver.settings().container_size as nat) <==> r is Ok,
        r matches Ok(containers) ==> {
            &&& bins_of(containers@) == solver.packing(arranged(items@, sorted))
            &&& all_sized(containers@, solver.settings().container_size)
            &&& within_capacity(bins_of(containers@), solver.settings().container_size as nat)
            &&& bins_of(containers@).flatten().to_multiset() == items@.to_multiset()
        },
        r matches Err(e) ==> is_first_unfittable(
            e,
            arranged(items@, sorted),
            solver.settings().container_size,
        ),
{
    let mut items = items;
    let ghost given = items@;
    if sorted {
        sort_descending(&mut items);
    }
    proof {
        let capacity = solver.settings().container_size as nat;
        lemma_arranged_keeps_items(given, sorted);
        if all_fit(given, capacity) {
            lemma_same_items_all_fit(given, items@, capacity);
        }
        if all_fit(items@, capacity) {
            lemma_same_items_all_fit(items@, given, capacity);
        }
    }
    solver.solve(items)
}

/// Runs one variant on one item sequence and times it: the sort is part of
/// what is timed. The sample holds the quality against `optimal`.
pub fn measure(solver: &Solver, sorted: bool, items: Vec<Item>, optimal: u32) -> (r: Result<
    Sample,
    UnfittableItem,
>)
    ensures
        all_fit(items@, solver.settings().container_size as nat) <==> r is Ok,
        r matches Ok(sample) ==> {
            &&& sample.quality.containers == solver.packing(arranged(items@, sorted)).len()
            &&& sample.quality.optimal == optimal
        },
        r matches Err(e) ==> is_first_unfittable(
            e,
            arranged(items@, sorted),
            solver.settings().container_size,
        ),
{
    let now = Instant::now();
    let result = run_variant(solver, sorted, items);
    let elapsed_us = now.elapsed().as_micros();
    match result {
        Ok(containers) => {
            proof {
                assert(bins_of(containers@).len() == containers@.len());
            }
            Ok(Sample { quality: Quality::new(containers.len(), optimal), elapsed_us })
        },
        Err(e) => Err(e),
    }
}

/// One generation, as far as the samples depend on it: what was drawn, and
/// the order in which the items were handed out.
pub struct Trial {
    pub draws: Seq<u32>,
    pub seen: Seq<Item>,
}

/// `trial` is what one generation for `settings` may be: admissible draws,
/// and the items generated from them in some order.
pub open spec fn is_trial(settings: Settings, trial: Trial) -> bool {
    &&& drawn_for(settings, trial.draws)
    &&& trial.seen.to_multiset() == generated_items(settings, trial.draws).to_multiset()
}

/// `sample` holds the quality that the variant (`name`, `sorted`) reaches on
/// `trial`: the containers of its packing over the containers that
/// generating opened.
pub open spec fn sample_on(
    settings: Settings,
    name: Seq<char>,
    sorted: bool,
    trial: Trial,
    sample: Sample,
) -> bool {
    &&& solver_named(name, settings) matches Some(solver)
    &&& sample.quality.containers == solver.packing(arranged(trial.seen, sorted)).len()
    &&& sample.quality.optimal == containers_opened(settings, trial.draws)
}

/// `samples` are the samples of one iteration: one per variant, all on the
/// one trial `trial`.
pub open spec fn iteration_samples(
    settings: Settings,
    solvers: Seq<SolverListItem>,
    trial: Trial,
    samples: Seq<Sample>,
) -> bool {
    &&& is_trial(settings, trial)
    &&& samples.len() == solvers.len()
    &&& forall|v: int|
        0 <= v < solvers.len() ==> sample_on(
            settings,
            solvers[v].id@,
            solvers[v].sorted,
            trial,
            #[trigger] samples[v],
        )
}

/// On items that fill the opened containers exactly, no variant gets by
/// with fewer containers than were opened: where no size of zero can be
/// drawn, the quality of every sample is at least one. It is exactly one
/// where the variant used as many containers as were opened, and only there.
pub proof fn lemma_quality_at_least_one(
    settings: Settings,
    name: Seq<char>,
    sorted: bool,
    trial: Trial,
    sample: Sample,
)
    requires
        settings.valid(),
        settings.item_size_min > 0,
        is_trial(settings, trial),
        sample_on(settings, name, sorted, trial, sample),
    ensures
        sample.quality.at_least_one(),
        sample.quality.wf(),
        sample.quality.is_one() <==> sample.quality.containers == containers_opened(
            settings,
            trial.draws,
        ),
{
    let capacity = settings.container_size as nat;
    let solver = solver_named(name, settings)->0;
    let order = arranged(trial.seen, sorted);
    let generated = generated_items(settings, trial.draws);
    lemma_arranged_keeps_items(trial.seen, sorted);
    lemma_generated_bounds(settings, trial.draws);
    lemma_positive_draws_use_every_opening(settings, trial.draws);
    lemma_generated_total(settings, trial.draws);
    lemma_complete_run_leaves_nothing(settings, trial.draws);
    lemma_same_items_all_fit(generated, order, capacity);
    match solver {
        Solver::NextFit(_) => {
            lemma_next_fit_within_capacity(order, capacity);
            lemma_next_fit_keeps_items(order, capacity);
        },
        Solver::FirstFit(_) => {
            lemma_first_fit_within_capacity(order, capacity);
            lemma_first_fit_keeps_items(order, capacity);
        },
    }
    lemma_no_packing_beats_the_fill(
        solver.packing(order),
        generated,
        capacity,
        containers_opened(settings, trial.draws),
    );
}

/// The cell that a sample is folded into: `before` itself, or, where
/// `before` has no iteration yet, the fresh cell of the variant.
pub open spec fn started(
    before: ProblemResultView,
    name: Seq<char>,
    sorted: bool,
    settings: Settings,
) -> ProblemResultView {
    if before.iterations == 0 {
        ProblemResultView::fresh(name, sorted, settings)
    } else {
        before
    }
}

/// One iteration of one scenario: generates a fresh item sequence, runs
/// every variant on a copy of it, and folds each variant's sample into its
/// cell, which is `results[first_cell + v]` for the variant at `v`. Hands
/// back the samples, one per variant.
pub fn run_iteration(
    generator: &Generator,
    solvers: &Vec<SolverListItem>,
    results: &mut Vec<ProblemResult>,
    first_cell: usize,
    rng: &mut ThreadRng,
) -> (samples: Vec<Sample>)
    requires
        generator.settings.valid(),
        forall|v: int| 0 <= v < solvers@.len() ==> known_solver((#[trigger] solvers@[v]).id@),
        first_cell + solvers@.len() <= old(results)@.len(),
        forall|v: int|
            0 <= v < solvers@.len() ==> (#[trigger] old(results)@[first_cell + v])@.wf() && old(
                results,
            )@[first_cell + v].iterations < u32::MAX,
    ensures
        final(results)@.len() == old(results)@.len(),
        forall|c: int|
            0 <= c < first_cell || first_cell + solvers@.len() <= c < old(results)@.len()
                ==> #[trigger] final(results)@[c] == old(results)@[c],
        forall|v: int|
            0 <= v < solvers@.len() ==> (#[trigger] final(results)@[first_cell + v])@ == started(
                old(results)@[first_cell + v]@,
                solvers@[v].id@,
                solvers@[v].sorted,
                generator.settings,
            ).with_sample(samples@[v]),
        exists|trial: Trial| #[trigger] iteration_samples(generator.settings, solvers@, trial, samples@),
        generator.settings.item_size_min > 0 ==> forall|v: int|
            0 <= v < samples@.len() ==> (#[trigger] samples@[v]).quality.at_least_one(),
{
    let settings = generator.settings;
    let generator_results = generator.generate(rng);
    let items: Vec<Item> = generator_results.items;
    let optimal = generator_results.optimal_container_count;
    let ghost draws = choose|draws: Seq<u32>|
        #[trigger] is_generation(settings, draws, items@, optimal as nat);
    let ghost trial = Trial { draws, seen: items@ };

    let mut samples: Vec<Sample> = Vec::new();
    let mut solver_n: usize = 0;
    while solver_n < solvers.len()
        invariant
            settings == generator.settings,
            settings.valid(),
            is_trial(settings, trial),
            trial.seen == items@,
            solver_n <= solvers@.len(),
            forall|v: int| 0 <= v < solvers@.len() ==> known_solver((#[trigger] solvers@[v]).id@),
            first_cell + solvers@.len() <= old(results)@.len(),
            results@.len() == old(results)@.len(),
            samples@.len() == solver_n,
            all_fit(items@, settings.container_size as nat),
            optimal == containers_opened(settings, trial.draws),
            forall|c: int|
                0 <= c < first_cell || first_cell + solver_n <= c < old(results)@.len()
                    ==> #[trigger] results@[c] == old(results)@[c],
            forall|v: int|
                0 <= v < solvers@.len() ==> (#[trigger] old(results)@[first_cell + v])@.wf()
                    && old(results)@[first_cell + v].iterations < u32::MAX,
            forall|v: int|
                0 <= v < solver_n ==> (#[trigger] results@[first_cell + v])@ == started(
                    old(results)@[first_cell + v]@,
                    solvers@[v].id@,
                    solvers@[v].sorted,
                    settings,
                ).with_sample(samples@[v]),
            forall|v: int|
                0 <= v < solver_n ==> sample_on(
                    settings,
                    solvers@[v].id@,
                    solvers@[v].sorted,
                    trial,
                    #[trigger] samples@[v],
                ),
            settings.item_size_min > 0 ==> forall|v: int|
                0 <= v < solver_n ==> (#[trigger] samples@[v]).quality.at_least_one(),
        decreases solvers@.len() - solver_n,
    {
        let solver_list_item = &solvers[solver_n];
        let sorted = solver_list_item.sorted;
        let chosen = generate_solver(solver_list_item.id.clone(), settings);
        proof {
            lemma_solver_named(solver_list_item.id@, settings);
        }
        let solver = chosen.unwrap();
        assert(first_cell + solver_n < results.len());
        let result_i = first_cell + solver_n;
        let ghost cells = results@;
        if results[result_i].iterations == 0 {
            results[result_i] = ProblemResult::new(solver.get_name(), sorted, &settings);
        }
        let ghost begun = results@;
        let items_copy: Vec<Item> = items.clone();
        assert(items_copy@ =~= items@);
        let sample = measure(&solver, sorted, items_copy, optimal).unwrap();
        results[result_i].record(sample);
        samples.push(sample);
        proof {
            assert forall|c: int|
                0 <= c < first_cell || first_cell + solver_n + 1 <= c < old(results)@.len()
                    implies #[trigger] results@[c] == old(results)@[c] by {
                assert(results@[c] == begun[c]);
                assert(begun[c] == cells[c]);
            }
            assert forall|v: int| 0 <= v < solver_n + 1 implies (#[trigger] results@[first_cell
                + v])@ == started(
                old(results)@[first_cell + v]@,
                solvers@[v].id@,
                solvers@[v].sorted,
                settings,
            ).with_sample(samples@[v]) by {
                if v < solver_n {
                    assert(results@[first_cell + v] == begun[first_cell + v]);
                    assert(begun[first_cell + v] == cells[first_cell + v]);
                }
            }
            if settings.item_size_min > 0 {
                lemma_quality_at_least_one(settings, solver_list_item.id@, sorted, trial, sample);
            }
        }
        solver_n += 1;
    }
    proof {
        assert(iteration_samples(settings, solvers@, trial, samples@));
    }
    samples
}

/// The cell of a variant after `samples`: untouched where there are none,
/// else the fresh cell with each of them folded in, in order.
pub open spec fn cell_after(
    settings: Settings,
    name: Seq<char>,
    sorted: bool,
    samples: Seq<Sample>,
) -> ProblemResultView {
    if samples.len() == 0 {
        ProblemResultView::untouched()
    } else {
        ProblemResultView::fresh(name, sorted, settings).with_samples(samples)
    }
}

/// `samples` are the samples of the variant (`name`, `sorted`) on `trials`,
/// one per trial and in their order, and `cell` is its cell after them.
pub open spec fn is_history(
    settings: Settings,
    name: Seq<char>,
    sorted: bool,
    trials: Seq<Trial>,
    samples: Seq<Sample>,
    cell: ProblemResultView,
) -> bool {
    &&& samples.len() == trials.len()
    &&& cell == cell_after(settings, name, sorted, samples)
    &&& forall|k: int|
        0 <= k < samples.len() ==> sample_on(settings, name, sorted, trials[k], #[trigger] samples[k])
}

/// `cell` is the cell of the variant (`name`, `sorted`) after its samples on
/// `trials`, whatever their times were.
pub open spec fn has_history(
    settings: Settings,
    name: Seq<char>,
    sorted: bool,
    trials: Seq<Trial>,
    cell: ProblemResultView,
) -> bool {
    exists|samples: Seq<Sample>|
        #[trigger] is_history(settings, name, sorted, trials, samples, cell)
}

/// `row` holds the cells of the variants `solvers` after `iterations`
/// iterations of the scenario `settings`, whose generations were `trials`.
pub open spec fn scenario_ran(
    settings: Settings,
    solvers: Seq<SolverListItem>,
    iterations: nat,
    trials: Seq<Trial>,
    row: Seq<ProblemResult>,
) -> bool {
    &&& trials.len() == iterations
    &&& forall|k: int| 0 <= k < trials.len() ==> is_trial(settings, #[trigger] trials[k])
    &&& row.len() == solvers.len()
    &&& forall|v: int|
        0 <= v < solvers.len() ==> has_history(
            settings,
            solvers[v].id@,
            solvers[v].sorted,
            trials,
            (#[trigger] row[v])@,
        )
}

/// `row` holds the cells of the variants `solvers` after `iterations`
/// iterations of the scenario `settings`, each iteration on one generation
/// that all variants shared.
pub open spec fn scenario_done(
    settings: Settings,
    solvers: Seq<SolverListItem>,
    iterations: nat,
    row: Seq<ProblemResult>,
) -> bool {
    exists|trials: Seq<Trial>| #[trigger] scenario_ran(settings, solvers, iterations, trials, row)
}

/// Folding samples in counts them, and never counts more optimal ones than
/// there are.
pub proof fn lemma_with_samples_counts(start: ProblemResultView, samples: Seq<Sample>)
    requires
        start.wf(),
    ensures
        start.with_samples(samples).iterations == start.iterations + samples.len(),
        start.with_samples(samples).wf(),
    decreases samples.len(),
{
    if samples.len() > 0 {
        lemma_with_samples_counts(start, samples.drop_last());
    }
}

/// One more sample, folded into the cell that the earlier ones left.
proof fn lemma_cell_after_push(
    settings: Settings,
    name: Seq<char>,
    sorted: bool,
    samples: Seq<Sample>,
    sample: Sample,
)
    ensures
        cell_after(settings, name, sorted, samples).iterations == samples.len(),
        cell_after(settings, name, sorted, samples).wf(),
        started(cell_after(settings, name, sorted, samples), name, sorted, settings).with_sample(
            sample,
        ) == cell_after(settings, name, sorted, samples.push(sample)),
{
    let fresh = ProblemResultView::fresh(name, sorted, settings);
    lemma_with_samples_counts(fresh, samples);
    assert(samples.push(sample).drop_last() =~= samples);
    if samples.len() == 0 {
        assert(fresh.with_samples(samples) == fresh);
    }
}

/// After at least one iteration of a scenario in which no size of zero can
/// be drawn, the best and the worst quality of a cell are at least one, and
/// the cell has counted every iteration.
pub proof fn lemma_cell_quality_at_least_one(
    settings: Settings,
    name: Seq<char>,
    sorted: bool,
    trials: Seq<Trial>,
    cell: ProblemResultView,
)
    requires
        settings.valid(),
        settings.item_size_min > 0,
        trials.len() > 0,
        forall|k: int| 0 <= k < trials.len() ==> is_trial(settings, #[trigger] trials[k]),
        has_history(settings, name, sorted, trials, cell),
    ensures
        cell.quality_best_case.at_least_one(),
        cell.quality_worst_case.at_least_one(),
        cell.iterations == trials.len(),
        cell.optimal_solutions_found <= cell.iterations,
{
    let samples = choose|samples: Seq<Sample>|
        #[trigger] is_history(settings, name, sorted, trials, samples, cell);
    let fresh = ProblemResultView::fresh(name, sorted, settings);
    assert forall|k: int| 0 <= k < samples.len() implies (#[trigger] samples[k]).quality.wf()
        && samples[k].quality.at_least_one() by {
        lemma_quality_at_least_one(settings, name, sorted, trials[k], samples[k]);
    }
    lemma_with_samples_counts(fresh, samples);
    lemma_running_extremes(fresh, samples);
    assert(samples[0].quality.at_most(cell.quality_worst_case));
}

/// All iterations of one scenario. The cells of its variants are
/// `results[first_cell + v]`, untouched so far. Each iteration generates
/// anew, and each cell ends as the cell after its variant's samples on
/// those generations.
pub fn run_scenario(
    settings: &Settings,
    solvers: &Vec<SolverListItem>,
    iterations: u32,
    results: &mut Vec<ProblemResult>,
    first_cell: usize,
    rng: &mut ThreadRng,
)
    requires
        settings.valid(),
        forall|v: int| 0 <= v < solvers@.len() ==> known_solver((#[trigger] solvers@[v]).id@),
        first_cell + solvers@.len() <= old(results)@.len(),
        forall|v: int|
            0 <= v < solvers@.len() ==> (#[trigger] old(results)@[first_cell + v])@
                == ProblemResultView::untouched(),
    ensures
        final(results)@.len() == old(results)@.len(),
        forall|c: int|
            0 <= c < first_cell || first_cell + solvers@.len() <= c < old(results)@.len()
                ==> #[trigger] final(results)@[c] == old(results)@[c],
        scenario_done(
            *settings,
            solvers@,
            iterations as nat,
            final(results)@.subrange(first_cell as int, first_cell + solvers@.len()),
        ),
{
    let generator: Generator = Generator { settings: *settings };
    let ghost mut trials: Seq<Trial> = Seq::empty();
    let ghost mut histories: Seq<Seq<Sample>> = Seq::new(solvers@.len(), |v: int| Seq::empty());
    let mut done: u32 = 0;
    while done < iterations
        invariant
            generator.settings == *settings,
            settings.valid(),
            done <= iterations,
            forall|v: int| 0 <= v < solvers@.len() ==> known_solver((#[trigger] solvers@[v]).id@),
            first_cell + solvers@.len() <= old(results)@.len(),
            results@.len() == old(results)@.len(),
            histories.len() == solvers@.len(),
            trials.len() == done,
            forall|k: int| 0 <= k < trials.len() ==> is_trial(*settings, #[trigger] trials[k]),
            forall|c: int|
                0 <= c < first_cell || first_cell + solvers@.len() <= c < old(results)@.len()
                    ==> #[trigger] results@[c] == old(results)@[c],
            forall|v: int|
                0 <= v < solvers@.len() ==> is_history(
                    *settings,
                    solvers@[v].id@,
                    solvers@[v].sorted,
                    trials,
                    #[trigger] histories[v],
                    results@[first_cell + v]@,
                ),
        decreases iterations - done,
    {
        let ghost before = results@;
        proof {
            assert forall|v: int| 0 <= v < solvers@.len() implies (#[trigger] before[first_cell
                + v])@.wf() && before[first_cell + v].iterations < u32::MAX by {
                assert(is_history(
                    *settings,
                    solvers@[v].id@,
                    solvers@[v].sorted,
                    trials,
                    histories[v],
                    before[first_cell + v]@,
                ));
                lemma_cell_after_push(
                    *settings,
                    solvers@[v].id@,
                    solvers@[v].sorted,
                    histories[v],
                    arbitrary(),
                );
            }
        }
        let samples = run_iteration(&generator, solvers, results, first_cell, rng);
        proof {
            let trial = choose|trial: Trial|
                #[trigger] iteration_samples(*settings, solvers@, trial, samples@);
            let earlier_trials = trials;
            let earlier = histories;
            trials = earlier_trials.push(trial);
            histories = Seq::new(solvers@.len(), |v: int| earlier[v].push(samples@[v]));
            assert forall|k: int| 0 <= k < trials.len() implies is_trial(
                *settings,
                #[trigger] trials[k],
            ) by {
                if k < earlier_trials.len() {
                    assert(trials[k] == earlier_trials[k]);
                }
            }
            assert forall|v: int| 0 <= v < solvers@.len() implies is_history(
                *settings,
                solvers@[v].id@,
                solvers@[v].sorted,
                trials,
                #[trigger] histories[v],
                results@[first_cell + v]@,
            ) by {
                let name = solvers@[v].id@;
                let sorted = solvers@[v].sorted;
                assert(is_history(
                    *settings,
                    name,
                    sorted,
                    earlier_trials,
                    earlier[v],
                    before[first_cell + v]@,
                ));
                lemma_cell_after_push(*settings, name, sorted, earlier[v], samples@[v]);
                assert(results@[first_cell + v]@ == started(
                    before[first_cell + v]@,
                    name,
                    sorted,
                    *settings,
                ).with_sample(samples@[v]));
                assert(sample_on(*settings, name, sorted, trial, samples@[v]));
                assert forall|k: int| 0 <= k < histories[v].len() implies sample_on(
                    *settings,
                    name,
                    sorted,
                    trials[k],
                    #[trigger] histories[v][k],
                ) by {
                    if k < earlier[v].len() {
                        assert(histories[v][k] == earlier[v][k]);
                        assert(trials[k] == earlier_trials[k]);
                    }
                }
            }
        }
        done += 1;
    }
    proof {
        let row = results@.subrange(first_cell as int, first_cell + solvers@.len());
        assert forall|v: int| 0 <= v < solvers@.len() implies has_history(
            *settings,
            solvers@[v].id@,
            solvers@[v].sorted,
            trials,
            (#[trigger] row[v])@,
        ) by {
            assert(row[v] == results@[first_cell + v]);
            assert(is_history(
                *settings,
                solvers@[v].id@,
                solvers@[v].sorted,
                trials,
                histories[v],
                results@[first_cell + v]@,
            ));
        }
        assert(scenario_ran(*settings, solvers@, iterations as nat, trials, row));
    }
}

/// The row of a scenario lies within the rows of all scenarios.
proof fn lemma_row_bounds(s: int, rows: int, width: int)
    requires
        0 <= s < rows,
        0 <= width,
    ensures
        0 <= s * width,
        (s + 1) * width == s * width + width,
        s * width + width <= rows * width,
{
    assert(0 <= s * width) by (nonlinear_arith)
        requires
            0 <= s,
            0 <= width,
    ;
    assert((s + 1) * width == s * width + width) by (nonlinear_arith);
    assert((s + 1) * width <= rows * width) by (nonlinear_arith)
        requires
            s + 1 <= rows,
            0 <= width,
    ;
}

/// The position of the earliest variant whose `id` names no heuristic of
/// this library, if there is one.
pub fn find_unknown_solver(solvers: &Vec<SolverListItem>) -> (found: Option<usize>)
    ensures
        found is None <==> forall|v: int|
            0 <= v < solvers@.len() ==> known_solver((#[trigger] solvers@[v]).id@),
        found matches Some(position) ==> {
            &&& position < solvers@.len()
            &&& !known_solver(solvers@[position as int].id@)
            &&& forall|v: int| 0 <= v < position ==> known_solver((#[trigger] solvers@[v]).id@)
        },
{
    let mut position: usize = 0;
    while position < solvers.len()
        invariant
            position <= solvers@.len(),
            forall|v: int| 0 <= v < position ==> known_solver((#[trigger] solvers@[v]).id@),
        decreases solvers@.len() - position,
    {
        if !is_known_solver(&solvers[position].id) {
            return Some(position);
        }
        position += 1;
    }
    None
}

/// The cells of scenario `s` among the results of a run with `width`
/// variants: scenarios outermost, so the cell of variant `v` stands at
/// `s * width + v`.
pub open spec fn row_of(results: Seq<ProblemResult>, s: int, width: int) -> Seq<ProblemResult> {
    results.subrange(s * width, s * width + width)
}

/// The whole benchmark. A variant that names no known heuristic is rejected
/// before anything is generated or solved. Otherwise every scenario is run
/// for `iterations` iterations, each on freshly generated items that all
/// variants share, and the result holds one cell per scenario and variant,
/// scenarios outermost.
pub fn run(input: &ProgramInput, rng: &mut ThreadRng) -> (r: Result<
    Vec<ProblemResult>,
    UnknownSolver,
>)
    requires
        forall|s: int| 0 <= s < input.settings@.len() ==> (#[trigger] input.settings@[s]).valid(),
    ensures
        r is Ok <==> forall|v: int|
            0 <= v < input.solvers@.len() ==> known_solver((#[trigger] input.solvers@[v]).id@),
        r matches Err(e) ==> {
            &&& e.position < input.solvers@.len()
            &&& !known_solver(input.solvers@[e.position as int].id@)
            &&& forall|v: int|
                0 <= v < e.position ==> known_solver((#[trigger] input.solvers@[v]).id@)
        },
        r matches Ok(results) ==> {
            &&& results@.len() == input.settings@.len() * input.solvers@.len()
            &&& forall|s: int|
                0 <= s < input.settings@.len() ==> scenario_done(
                    #[trigger] input.settings@[s],
                    input.solvers@,
                    input.iterations as nat,
                    row_of(results@, s, input.solvers@.len() as int),
                )
        },
{
    match find_unknown_solver(&input.solvers) {
        Some(position) => {
            return Err(UnknownSolver { position });
        },
        None => {},
    }
    let settings_length = input.settings.len();
    let solvers_length = input.solvers.len();
    let ghost width = solvers_length as int;
    let mut results: Vec<ProblemResult> = Vec::new();

    let mut a: usize = 0;
    while a < settings_length
        invariant
            a <= settings_length,
            solvers_length == width,
            results@.len() == a * width,
            forall|c: int|
                0 <= c < results@.len() ==> (#[trigger] results@[c])@
                    == ProblemResultView::untouched(),
        decreases settings_length - a,
    {
        let mut b: usize = 0;
        while b < solvers_length
            invariant
                b <= solvers_length,
                solvers_length == width,
                results@.len() == a * width + b,
                forall|c: int|
                    0 <= c < results@.len() ==> (#[trigger] results@[c])@
                        == ProblemResultView::untouched(),
            decreases solvers_length - b,
        {
            results.push(ProblemResult::default());
            b += 1;
        }
        proof {
            lemma_row_bounds(a as int, settings_length as int, width);
        }
        a += 1;
    }

    let mut settings_n: usize = 0;
    while settings_n < settings_length
        invariant
            settings_n <= settings_length,
            settings_length == input.settings@.len(),
            solvers_length == input.solvers@.len(),
            solvers_length == width,
            results@.len() == settings_length * width,
            forall|s: int|
                0 <= s < input.settings@.len() ==> (#[trigger] input.settings@[s]).valid(),
            forall|v: int|
                0 <= v < input.solvers@.len() ==> known_solver(
                    (#[trigger] input.solvers@[v]).id@,
                ),
            forall|c: int|
                settings_n * width <= c < results@.len() ==> (#[trigger] results@[c])@
                    == ProblemResultView::untouched(),
            forall|s: int|
                0 <= s < settings_n ==> scenario_done(
                    #[trigger] input.settings@[s],
                    input.solvers@,
                    input.iterations as nat,
                    row_of(results@, s, width),
                ),
        decreases settings_length - settings_n,
    {
        proof {
            lemma_row_bounds(settings_n as int, settings_length as int, width);
            assert(settings_n * solvers_length <= results.len());
        }
        let first_cell = settings_n * solvers_length;
        let ghost before = results@;
        run_scenario(
            &input.settings[settings_n],
            &input.solvers,
            input.iterations,
            &mut results,
            first_cell,
            rng,
        );
        proof {
            assert forall|s: int| 0 <= s < settings_n + 1 implies scenario_done(
                #[trigger] input.settings@[s],
                input.solvers@,
                input.iterations as nat,
                row_of(results@, s, width),
            ) by {
                if s < settings_n {
                    lemma_row_bounds(s, settings_n as int, width);
                    assert(row_of(results@, s, width) =~= row_of(before, s, width));
                }
            }
        }
        settings_n += 1;
    }
    Ok(results)
}

} // verus!
