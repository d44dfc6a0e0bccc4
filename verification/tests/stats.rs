use bin_packing::settings::Settings;
use bin_packing::stats::{ProblemResult, Quality, Sample};

fn sample(containers: usize, optimal: u32, elapsed_us: u128) -> Sample {
    Sample { quality: Quality::new(containers, optimal), elapsed_us }
}

fn same_ratio(a: Quality, b: Quality) -> bool {
    !a.is_below(&b) && !b.is_below(&a)
}

fn fresh() -> ProblemResult {
    let settings =
        Settings { item_size_min: 1, item_size_max: 8, item_limit: 20, container_size: 10 };
    ProblemResult::new("First Fit".to_string(), true, &settings)
}

#[test]
fn quality_is_compared_as_a_ratio() {
    assert!(Quality::new(3, 2).is_below(&Quality::new(2, 1)));
    assert!(!Quality::new(2, 1).is_below(&Quality::new(3, 2)));
    assert!(Quality::new(5, 4).is_below(&Quality::new(6, 4)));
    assert!(!Quality::new(1, 1).is_below(&Quality::new(2, 2)));
    assert!(!Quality::new(2, 2).is_below(&Quality::new(1, 1)));
    assert!(Quality::new(0, 1).is_below(&Quality::new(1, 1000)));
}

#[test]
fn quality_over_zero_is_above_every_other() {
    assert!(Quality::new(usize::MAX, 1).is_below(&Quality::new(1, 0)));
    assert!(!Quality::new(1, 0).is_below(&Quality::new(usize::MAX, 1)));
    assert!(!Quality::new(1, 0).is_below(&Quality::new(2, 0)));
}

#[test]
fn quality_compares_the_largest_terms() {
    let a = Quality::new(usize::MAX, u32::MAX);
    let b = Quality::new(usize::MAX - 1, u32::MAX);
    assert!(b.is_below(&a));
    assert!(!a.is_below(&b));
}

#[test]
fn quality_is_optimal_where_the_counts_agree() {
    assert!(Quality::new(4, 4).is_optimal());
    assert!(!Quality::new(5, 4).is_optimal());
    assert!(!Quality::new(1, 0).is_optimal());
    assert_eq!(Quality::new(7, 3), Quality { containers: 7, optimal: 3 });
}

#[test]
fn an_untouched_cell() {
    let cell = ProblemResult::default();
    assert_eq!(cell.solver_name, "");
    assert!(!cell.solver_sorted);
    assert_eq!(
        (cell.item_size_min, cell.item_size_max, cell.item_limit, cell.container_size),
        (0, 0, 0, 0)
    );
    assert_eq!(cell.iterations, 0);
    assert_eq!(cell.optimal_solutions_found, 0);
    assert_eq!(cell.quality_best_case, Quality { containers: usize::MAX, optimal: 1 });
    assert_eq!(cell.quality_worst_case, Quality { containers: 0, optimal: 1 });
    assert_eq!(cell.time_us_best_case, u128::MAX);
    assert_eq!(cell.time_us_worst_case, 0);
}

#[test]
fn a_fresh_cell_describes_its_variant() {
    let cell = fresh();
    assert_eq!(cell.solver_name, "First Fit");
    assert!(cell.solver_sorted);
    assert_eq!(
        (cell.item_size_min, cell.item_size_max, cell.item_limit, cell.container_size),
        (1, 8, 20, 10)
    );
    assert_eq!(cell.iterations, 0);
    assert_eq!(cell.optimal_solutions_found, 0);
    assert_eq!(cell.quality_best_case, Quality { containers: usize::MAX, optimal: 1 });
    assert_eq!(cell.quality_worst_case, Quality { containers: 0, optimal: 1 });
    assert_eq!(cell.time_us_best_case, u128::MAX);
    assert_eq!(cell.time_us_worst_case, 0);
}

#[test]
fn the_first_sample_is_best_and_worst() {
    let mut cell = fresh();
    cell.record(sample(5, 4, 120));
    assert_eq!(cell.iterations, 1);
    assert_eq!(cell.optimal_solutions_found, 0);
    assert_eq!(cell.quality_best_case, Quality::new(5, 4));
    assert_eq!(cell.quality_worst_case, Quality::new(5, 4));
    assert_eq!(cell.time_us_best_case, 120);
    assert_eq!(cell.time_us_worst_case, 120);
    assert_eq!(cell.solver_name, "First Fit");
    assert_eq!(cell.container_size, 10);
}

#[test]
fn running_extremes_of_four_samples() {
    // qualities 1.0, 1.25, 1.0, 1.5
    let samples = [sample(4, 4, 30), sample(5, 4, 10), sample(4, 4, 40), sample(6, 4, 20)];
    let mut cell = fresh();
    for s in samples {
        cell.record(s);
    }
    assert_eq!(cell.iterations, 4);
    assert_eq!(cell.optimal_solutions_found, 2);
    assert_eq!(cell.quality_best_case, Quality::new(4, 4));
    assert_eq!(cell.quality_worst_case, Quality::new(6, 4));
    assert_eq!(cell.time_us_best_case, 10);
    assert_eq!(cell.time_us_worst_case, 40);
    let best = cell.quality_best_case.containers as f32 / cell.quality_best_case.optimal as f32;
    let worst = cell.quality_worst_case.containers as f32 / cell.quality_worst_case.optimal as f32;
    assert_eq!(best, 1.0);
    assert_eq!(worst, 1.5);
}

#[test]
fn running_extremes_do_not_depend_on_the_order() {
    let samples = [
        sample(4, 4, 30),
        sample(10, 8, 10),
        sample(3, 3, 40),
        sample(6, 4, 20),
        sample(9, 6, 25),
    ];
    let orders: [[usize; 5]; 4] =
        [[0, 1, 2, 3, 4], [4, 3, 2, 1, 0], [2, 0, 4, 1, 3], [3, 4, 0, 2, 1]];
    for order in orders {
        let mut cell = fresh();
        for k in order {
            cell.record(samples[k]);
        }
        assert_eq!(cell.iterations, 5);
        assert_eq!(cell.optimal_solutions_found, 2);
        assert!(same_ratio(cell.quality_best_case, Quality::new(1, 1)));
        assert!(same_ratio(cell.quality_worst_case, Quality::new(3, 2)));
        assert_eq!(cell.time_us_best_case, 10);
        assert_eq!(cell.time_us_worst_case, 40);
    }
}

#[test]
fn of_equal_ratios_the_earlier_stays() {
    let mut cell = fresh();
    cell.record(sample(2, 2, 5));
    cell.record(sample(3, 3, 5));
    assert_eq!(cell.quality_best_case, Quality::new(2, 2));
    assert_eq!(cell.quality_worst_case, Quality::new(2, 2));
}

#[test]
fn a_quality_over_zero_moves_the_worst_case_only() {
    let mut cell = fresh();
    cell.record(sample(1, 0, 7));
    assert_eq!(cell.iterations, 1);
    assert_eq!(cell.optimal_solutions_found, 0);
    assert_eq!(cell.quality_best_case, Quality { containers: usize::MAX, optimal: 1 });
    assert_eq!(cell.quality_worst_case, Quality::new(1, 0));
}
