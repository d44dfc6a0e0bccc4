use bin_packing::bench::{
    find_unknown_solver, measure, run, run_iteration, run_scenario, run_variant, ProgramInput,
    SolverListItem, UnknownSolver,
};
use bin_packing::container::{Container, Item};
use bin_packing::generator::Generator;
use bin_packing::ordering::sort_descending;
use bin_packing::settings::Settings;
use bin_packing::solver::{generate_solver, UnfittableItem};
use bin_packing::stats::{ProblemResult, Quality};

fn scenario(min: u32, max: u32, limit: u32, size: u32) -> Settings {
    Settings { item_size_min: min, item_size_max: max, item_limit: limit, container_size: size }
}

fn variant(id: &str, sorted: bool) -> SolverListItem {
    SolverListItem { id: id.to_string(), sorted }
}

fn items(sizes: &[u32]) -> Vec<Item> {
    sizes.iter().map(|&size| Item { size }).collect()
}

fn sizes(containers: &[Container]) -> Vec<Vec<u32>> {
    containers.iter().map(|c| c.contents().iter().map(|i| i.size).collect()).collect()
}

fn four_variants() -> Vec<SolverListItem> {
    vec![
        variant("Next Fit", false),
        variant("Next Fit", true),
        variant("First Fit", false),
        variant("First Fit", true),
    ]
}

#[test]
fn sorting_puts_the_largest_first() {
    let mut v = items(&[3, 9, 1, 9, 4, 0, 7]);
    sort_descending(&mut v);
    assert_eq!(v, items(&[9, 9, 7, 4, 3, 1, 0]));
    let mut empty: Vec<Item> = Vec::new();
    sort_descending(&mut empty);
    assert!(empty.is_empty());
}

#[test]
fn a_sorted_variant_packs_the_largest_first() {
    let solver = generate_solver("Next Fit".to_string(), scenario(1, 9, 4, 9)).unwrap();
    let unsorted = run_variant(&solver, false, items(&[3, 6, 3, 6])).unwrap();
    assert_eq!(sizes(&unsorted), vec![vec![3, 6], vec![3, 6]]);
    let sorted = run_variant(&solver, true, items(&[3, 6, 3, 6])).unwrap();
    assert_eq!(sizes(&sorted), vec![vec![6], vec![6, 3], vec![3]]);
}

#[test]
fn a_sorted_first_fit() {
    let solver = generate_solver("First Fit".to_string(), scenario(1, 9, 6, 10)).unwrap();
    let sorted = run_variant(&solver, true, items(&[2, 7, 3, 8, 5, 5])).unwrap();
    assert_eq!(sizes(&sorted), vec![vec![8, 2], vec![7, 3], vec![5, 5]]);
    let unsorted = run_variant(&solver, false, items(&[2, 7, 3, 8, 5, 5])).unwrap();
    assert_eq!(sizes(&unsorted), vec![vec![2, 7], vec![3, 5], vec![8], vec![5]]);
}

#[test]
fn a_variant_fails_on_the_item_it_meets_first() {
    let solver = generate_solver("First Fit".to_string(), scenario(1, 9, 4, 5)).unwrap();
    assert_eq!(
        run_variant(&solver, false, items(&[1, 6, 9])).err(),
        Some(UnfittableItem { position: 1, item: Item { size: 6 }, container_size: 5 })
    );
    assert_eq!(
        run_variant(&solver, true, items(&[1, 6, 9])).err(),
        Some(UnfittableItem { position: 0, item: Item { size: 9 }, container_size: 5 })
    );
}

#[test]
fn measuring_gives_the_quality() {
    let solver = generate_solver("Next Fit".to_string(), scenario(1, 9, 4, 9)).unwrap();
    let sample = measure(&solver, true, items(&[3, 6, 3, 6]), 2).unwrap();
    assert_eq!(sample.quality, Quality { containers: 3, optimal: 2 });
    let sample = measure(&solver, false, items(&[3, 6, 3, 6]), 2).unwrap();
    assert_eq!(sample.quality, Quality { containers: 2, optimal: 2 });
    assert!(sample.quality.is_optimal());
    let failed = measure(&solver, false, items(&[3, 10]), 2);
    assert_eq!(
        failed.err(),
        Some(UnfittableItem { position: 1, item: Item { size: 10 }, container_size: 9 })
    );
}

#[test]
fn unknown_solvers_are_found() {
    assert_eq!(find_unknown_solver(&four_variants()), None);
    assert_eq!(find_unknown_solver(&Vec::new()), None);
    let list = vec![variant("Next Fit", false), variant("Best Fit", true), variant("Worst", true)];
    assert_eq!(find_unknown_solver(&list), Some(1));
}

#[test]
fn an_unknown_solver_stops_the_run() {
    let input = ProgramInput {
        solvers: vec![variant("First Fit", false), variant("Next Fit", true), variant("", false)],
        settings: vec![scenario(1, 8, 10, 10)],
        iterations: 3,
    };
    let r = run(&input, &mut rand::thread_rng());
    assert_eq!(r.err(), Some(UnknownSolver { position: 2 }));
}

#[test]
fn one_iteration_samples_every_variant() {
    let settings = scenario(1, 8, 60, 10);
    let generator = Generator { settings };
    let solvers = four_variants();
    let mut results: Vec<ProblemResult> = (0..6).map(|_| ProblemResult::default()).collect();
    let mut rng = rand::thread_rng();
    let samples = run_iteration(&generator, &solvers, &mut results, 1, &mut rng);
    assert_eq!(samples.len(), 4);
    assert_eq!(results.len(), 6);
    assert_eq!(results[0].iterations, 0);
    assert_eq!(results[5].iterations, 0);
    assert_eq!(results[0].solver_name, "");
    for v in 0..4 {
        let cell = &results[1 + v];
        assert_eq!(cell.solver_name, solvers[v].id);
        assert_eq!(cell.solver_sorted, solvers[v].sorted);
        assert_eq!(cell.item_limit, 60);
        assert_eq!(cell.iterations, 1);
        assert_eq!(cell.quality_best_case, samples[v].quality);
        assert_eq!(cell.quality_worst_case, samples[v].quality);
        assert_eq!(cell.time_us_best_case, samples[v].elapsed_us);
        assert_eq!(cell.time_us_worst_case, samples[v].elapsed_us);
        assert_eq!(samples[v].quality.optimal, samples[0].quality.optimal);
        assert!(samples[v].quality.containers >= samples[v].quality.optimal as usize);
    }
    assert!(samples[2].quality.containers <= samples[0].quality.containers);
    assert!(samples[3].quality.containers <= samples[1].quality.containers);

    let again = run_iteration(&generator, &solvers, &mut results, 1, &mut rng);
    for v in 0..4 {
        let cell = &results[1 + v];
        assert_eq!(cell.iterations, 2);
        assert!(!again[v].quality.is_below(&cell.quality_best_case));
        assert!(!cell.quality_worst_case.is_below(&again[v].quality));
        assert!(cell.time_us_best_case <= cell.time_us_worst_case);
    }
}

#[test]
fn one_scenario_runs_all_its_iterations() {
    let settings = scenario(2, 6, 30, 12);
    let solvers = four_variants();
    let mut results: Vec<ProblemResult> = (0..4).map(|_| ProblemResult::default()).collect();
    run_scenario(&settings, &solvers, 7, &mut results, 0, &mut rand::thread_rng());
    for v in 0..4 {
        assert_eq!(results[v].iterations, 7);
        assert_eq!(results[v].solver_name, solvers[v].id);
        assert!(results[v].optimal_solutions_found <= 7);
    }
}

#[test]
fn the_run_fills_one_cell_per_scenario_and_variant() {
    let input = ProgramInput {
        solvers: four_variants(),
        settings: vec![scenario(1, 8, 50, 10), scenario(10, 60, 80, 100), scenario(1, 3, 5, 4)],
        iterations: 6,
    };
    let results = run(&input, &mut rand::thread_rng()).unwrap();
    assert_eq!(results.len(), 12);
    for (s, settings) in input.settings.iter().enumerate() {
        for (v, solver) in input.solvers.iter().enumerate() {
            let cell = &results[s * 4 + v];
            assert_eq!(cell.solver_name, solver.id);
            assert_eq!(cell.solver_sorted, solver.sorted);
            assert_eq!(cell.item_size_min, settings.item_size_min);
            assert_eq!(cell.item_size_max, settings.item_size_max);
            assert_eq!(cell.item_limit, settings.item_limit);
            assert_eq!(cell.container_size, settings.container_size);
            assert_eq!(cell.iterations, 6);
            assert!(cell.optimal_solutions_found <= 6);
            let best = cell.quality_best_case;
            let worst = cell.quality_worst_case;
            assert!(best.containers >= best.optimal as usize);
            assert!(worst.containers >= worst.optimal as usize);
            assert!(!worst.is_below(&best));
            assert!(cell.time_us_best_case <= cell.time_us_worst_case);
            if cell.optimal_solutions_found > 0 {
                assert!(best.is_optimal());
            }
            if cell.optimal_solutions_found == 6 {
                assert!(worst.is_optimal());
            }
        }
    }
}

#[test]
fn a_run_without_iterations_leaves_the_cells_untouched() {
    let input = ProgramInput {
        solvers: four_variants(),
        settings: vec![scenario(1, 8, 50, 10), scenario(10, 60, 80, 100)],
        iterations: 0,
    };
    let results = run(&input, &mut rand::thread_rng()).unwrap();
    assert_eq!(results.len(), 8);
    for cell in &results {
        assert_eq!(cell.solver_name, "");
        assert_eq!(cell.iterations, 0);
        assert_eq!(cell.container_size, 0);
        assert_eq!(cell.time_us_best_case, u128::MAX);
    }
}

#[test]
fn a_run_without_scenarios_or_variants_is_empty() {
    let none = ProgramInput { solvers: four_variants(), settings: Vec::new(), iterations: 3 };
    assert!(run(&none, &mut rand::thread_rng()).unwrap().is_empty());
    let none = ProgramInput {
        solvers: Vec::new(),
        settings: vec![scenario(1, 8, 50, 10)],
        iterations: 3,
    };
    assert!(run(&none, &mut rand::thread_rng()).unwrap().is_empty());
}

#[test]
fn perfectly_packable_items_are_solved_optimally() {
    // every draw is the whole container, so every packing is optimal
    let input = ProgramInput {
        solvers: four_variants(),
        settings: vec![scenario(10, 11, 25, 10)],
        iterations: 4,
    };
    let results = run(&input, &mut rand::thread_rng()).unwrap();
    for cell in &results {
        assert_eq!(cell.optimal_solutions_found, 4);
        assert_eq!(cell.quality_best_case, Quality { containers: 25, optimal: 25 });
        assert_eq!(cell.quality_worst_case, Quality { containers: 25, optimal: 25 });
    }
}
