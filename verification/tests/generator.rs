use bin_packing::container::Item;
use bin_packing::generator::Generator;
use bin_packing::settings::Settings;
use bin_packing::solver::{SolverFirstFit, SolverNextFit};

fn scenario(min: u32, max: u32, limit: u32, size: u32) -> Settings {
    Settings { item_size_min: min, item_size_max: max, item_limit: limit, container_size: size }
}

fn sizes(items: &[Item]) -> Vec<u32> {
    items.iter().map(|i| i.size).collect()
}

fn total(items: &[Item]) -> u64 {
    items.iter().map(|i| i.size as u64).sum()
}

#[test]
fn settings_validity() {
    assert!(scenario(1, 5, 10, 10).is_valid());
    assert!(scenario(0, 1, 0, 1).is_valid());
    assert!(scenario(1, 50, 10, 10).is_valid());
    assert!(!scenario(5, 5, 10, 10).is_valid());
    assert!(!scenario(6, 5, 10, 10).is_valid());
    assert!(!scenario(1, 5, 10, 0).is_valid());
}

#[test]
fn next_size_keeps_a_draw_that_fits() {
    let g = Generator { settings: scenario(1, 8, 5, 10) };
    assert_eq!(g.next_size(0, 7, false), 7);
    assert_eq!(g.next_size(3, 7, false), 7);
    assert_eq!(g.next_size(9, 1, false), 1);
}

#[test]
fn next_size_cuts_a_draw_that_overflows() {
    let g = Generator { settings: scenario(1, 8, 5, 10) };
    assert_eq!(g.next_size(4, 7, false), 6);
    assert_eq!(g.next_size(9, 2, false), 1);
}

#[test]
fn next_size_fills_the_container_with_the_last_item() {
    let g = Generator { settings: scenario(1, 8, 5, 10) };
    assert_eq!(g.next_size(3, 2, true), 7);
    assert_eq!(g.next_size(0, 2, true), 10);
}

#[test]
fn next_size_near_the_largest_capacity() {
    let g = Generator { settings: scenario(1, u32::MAX, 5, u32::MAX) };
    assert_eq!(g.next_size(u32::MAX - 1, u32::MAX - 1, false), 1);
    assert_eq!(g.next_size(1, u32::MAX - 1, false), u32::MAX - 1);
}

#[test]
fn build_forces_the_last_item() {
    let g = Generator { settings: scenario(1, 8, 3, 10) };
    let r = g.build(&vec![3, 4, 5]);
    assert_eq!(sizes(&r.items), vec![3, 4, 3]);
    assert_eq!(r.optimal_container_count, 1);
}

#[test]
fn build_cuts_overflowing_draws() {
    let g = Generator { settings: scenario(1, 8, 4, 10) };
    let r = g.build(&vec![6, 6, 6, 6]);
    assert_eq!(sizes(&r.items), vec![6, 4, 6, 4]);
    assert_eq!(r.optimal_container_count, 2);
    assert_eq!(total(&r.items), 20);
}

#[test]
fn build_opens_a_container_after_an_exact_fill() {
    let g = Generator { settings: scenario(1, 8, 3, 10) };
    let r = g.build(&vec![5, 5, 2]);
    assert_eq!(sizes(&r.items), vec![5, 5, 10]);
    assert_eq!(r.optimal_container_count, 2);
}

#[test]
fn build_before_the_limit_leaves_a_remainder() {
    let g = Generator { settings: scenario(1, 8, 5, 10) };
    let r = g.build(&vec![3, 4]);
    assert_eq!(sizes(&r.items), vec![3, 4]);
    assert_eq!(r.optimal_container_count, 1);
    assert_eq!(total(&r.items), 10 - 3);
}

#[test]
fn build_of_nothing() {
    let g = Generator { settings: scenario(1, 8, 0, 10) };
    let r = g.build(&Vec::new());
    assert!(r.items.is_empty());
    assert_eq!(r.optimal_container_count, 0);
}

#[test]
fn build_counts_a_container_for_an_item_of_size_zero() {
    let g = Generator { settings: scenario(0, 5, 3, 10) };
    let r = g.build(&vec![0, 0, 4]);
    assert_eq!(sizes(&r.items), vec![0, 0, 10]);
    assert_eq!(r.optimal_container_count, 3);
}

#[test]
fn build_with_sizes_above_the_capacity() {
    let g = Generator { settings: scenario(20, 30, 4, 10) };
    let r = g.build(&vec![25, 21, 29, 20]);
    assert_eq!(sizes(&r.items), vec![10, 10, 10, 10]);
    assert_eq!(r.optimal_container_count, 4);
}

#[test]
fn draws_lie_in_the_size_range() {
    let g = Generator { settings: scenario(3, 9, 500, 20) };
    let mut rng = rand::thread_rng();
    let draws = g.draw_sizes(&mut rng);
    assert_eq!(draws.len(), 500);
    assert!(draws.iter().all(|&d| 3 <= d && d < 9));
    assert!(draws.iter().any(|&d| d != draws[0]));
}

#[test]
fn generated_items_fill_the_counted_containers() {
    let mut rng = rand::thread_rng();
    for settings in [
        scenario(1, 8, 100, 10),
        scenario(1, 2, 7, 3),
        scenario(5, 100, 250, 50),
        scenario(1, 11, 1, 10),
        scenario(10, 11, 40, 10),
        scenario(1, 1000, 333, 1000),
    ] {
        let g = Generator { settings };
        for _ in 0..20 {
            let r = g.generate(&mut rng);
            assert_eq!(r.items.len() as u32, settings.item_limit);
            assert!(r.items.iter().all(|i| i.size <= settings.container_size));
            assert_eq!(
                total(&r.items),
                r.optimal_container_count as u64 * settings.container_size as u64
            );
        }
    }
}

#[test]
fn generating_nothing() {
    let g = Generator { settings: scenario(1, 8, 0, 10) };
    let r = g.generate(&mut rand::thread_rng());
    assert!(r.items.is_empty());
    assert_eq!(r.optimal_container_count, 0);
}

#[test]
fn generate_shuffles_what_build_lays_out() {
    let settings = scenario(3, 4, 400, 10);
    let g = Generator { settings };
    let unshuffled = g.build(&vec![3; 400]);
    assert_eq!(sizes(&unshuffled.items[..8]), vec![3, 3, 3, 1, 3, 3, 3, 1]);
    let r = g.generate(&mut rand::thread_rng());
    assert_eq!(r.optimal_container_count, unshuffled.optimal_container_count);
    assert_eq!(r.optimal_container_count, 100);
    let mut a = sizes(&r.items);
    let mut b = sizes(&unshuffled.items);
    assert_ne!(a, b);
    a.sort();
    b.sort();
    assert_eq!(a, b);
}

#[test]
fn the_counted_containers_are_reached_and_not_beaten() {
    let settings = scenario(2, 9, 200, 12);
    let g = Generator { settings };
    let mut rng = rand::thread_rng();
    for _ in 0..10 {
        let draws = g.draw_sizes(&mut rng);
        let laid_out = g.build(&draws);
        let count = laid_out.optimal_container_count as usize;
        let reached = SolverNextFit { settings }.solve(laid_out.items.clone()).unwrap();
        assert_eq!(reached.len(), count);
        assert!(reached.iter().all(|c| c.occupied() == 12));
        let mut shuffled = laid_out.items.clone();
        shuffled.reverse();
        assert!(SolverNextFit { settings }.solve(shuffled.clone()).unwrap().len() >= count);
        assert!(SolverFirstFit { settings }.solve(shuffled).unwrap().len() >= count);
    }
}
