use vectordb::storage::growth::{Granularity, GrowthScheme, HorizontalPolicy, Vertiorizon};
use vectordb::storage::shape::{LevelShape, TreeShape};

const KIB: u64 = 1024;

fn tree(level_bytes: &[u64]) -> TreeShape {
    TreeShape {
        levels: level_bytes
            .iter()
            .map(|&bytes| {
                if bytes == 0 {
                    LevelShape::default()
                } else {
                    LevelShape::from_sizes(&[bytes])
                }
            })
            .collect(),
    }
}

fn scheme() -> Vertiorizon {
    Vertiorizon::new(2, 8, KIB, 4, HorizontalPolicy::Leveling)
}

#[test]
fn the_layout_is_a_horizontal_part_over_two_vertical_levels() {
    let scheme = scheme();
    assert_eq!(scheme.max_levels(), Some(4), "2 horizontal + 2 vertical");
    assert_eq!(scheme.first_vertical_level(), 2);
    assert_eq!(scheme.largest_level(), 3);
}

#[test]
fn the_first_vertical_ratio_is_t_over_root_two() {
    let scheme = scheme();
    let expected = 8.0 / std::f64::consts::SQRT_2;
    let horizontal = scheme.horizontal_capacity_bytes() as f64;
    assert_eq!(
        scheme.first_vertical_capacity_bytes(),
        (horizontal * expected) as u64
    );

    let t = 8.0;
    let optimised = |ratio: f64| ratio + (t * t / ratio + 1.0) / 2.0;
    assert!(
        optimised(expected) < optimised(t),
        "8 over the root of two should cost less than 8: {:.3} vs {:.3}",
        optimised(expected),
        optimised(t)
    );
    assert!((optimised(expected) - (std::f64::consts::SQRT_2 * t + 0.5)).abs() < 1e-9);
}

#[test]
fn the_ratios_still_multiply_to_t_squared() {
    let scheme = scheme();
    let horizontal = scheme.horizontal_capacity_bytes() as f64;
    let largest = scheme.largest_capacity_bytes() as f64;
    assert!((largest / horizontal - 64.0).abs() < 0.01, "the square of 8 is 64");

    let first = scheme.first_vertical_capacity_bytes() as f64;
    let second_ratio = largest / first;
    assert!(
        (first / horizontal * second_ratio - 64.0).abs() < 0.1,
        "the two vertical ratios must multiply to the square of the ratio"
    );
}

#[test]
fn a_full_horizontal_part_drains_in_one_merge() {
    let mut scheme = scheme();
    let request = scheme
        .next_compaction(&tree(&[2 * KIB, 3 * KIB, 0, 0]))
        .expect("a drain");

    assert_eq!(request.first_level, 0);
    assert_eq!(request.last_level, 1, "every horizontal level goes at once");
    assert_eq!(request.target_level, 2);
    assert!(request.spans_multiple_levels());
    assert_eq!(request.granularity, Granularity::Full);
}

#[test]
fn an_unfilled_horizontal_part_uses_its_own_schedule() {
    let mut scheme = scheme();
    let shape = tree(&[KIB, KIB, 0, 0]);

    let mut saw_internal = false;
    for _ in 0..20 {
        scheme.note_flush();
        while let Some(request) = scheme.next_compaction(&shape) {
            assert!(
                request.target_level < scheme.first_vertical_level(),
                "an unfilled horizontal part must not reach the vertical part"
            );
            saw_internal = true;
        }
    }
    assert!(saw_internal, "the horizontal schedule never fired");
}

#[test]
fn the_vertical_part_compacts_partially() {
    let mut scheme = scheme();
    let over = scheme.first_vertical_capacity_bytes() + KIB;
    let request = scheme
        .next_compaction(&tree(&[0, 0, over, 0]))
        .expect("a request");

    assert_eq!(request.first_level, 2);
    assert_eq!(request.target_level, 3);
    assert!(!request.spans_multiple_levels());
    assert_eq!(
        request.granularity,
        Granularity::Partial,
        "partial compaction between the largest levels is what cuts space \
         amplification and write stalls"
    );
}

#[test]
fn draining_takes_priority_over_internal_compaction() {
    let mut scheme = scheme();
    scheme.note_flush();
    let request = scheme
        .next_compaction(&tree(&[4 * KIB, 4 * KIB, 0, 0]))
        .expect("a request");
    assert!(request.spans_multiple_levels(), "expected a drain");
}

#[test]
fn a_full_largest_level_grows_the_tree_at_the_next_drain() {
    let mut scheme = scheme();
    let starting_n = scheme.n();

    let full_largest = scheme.largest_capacity_bytes() + KIB;
    assert_eq!(
        scheme.next_compaction(&tree(&[0, 0, 0, full_largest])),
        None
    );
    assert_eq!(scheme.n(), starting_n, "the resize must wait for a drain");

    let request = scheme
        .next_compaction(&tree(&[4 * KIB, KIB, 0, full_largest]))
        .expect("a drain");
    assert!(request.spans_multiple_levels());
    assert!(
        scheme.n() > starting_n,
        "n should have grown from {starting_n} to something larger"
    );
}

#[test]
fn resizing_grows_n_gradually() {
    let mut scheme = Vertiorizon::new(2, 10, KIB, 100, HorizontalPolicy::Leveling);
    scheme.resize_pending = true;
    scheme.apply_resize();
    assert_eq!(scheme.n(), 110, "n * (1 + 1/T) with n = 100, T = 10");
}

#[test]
fn a_small_n_still_grows() {
    let mut scheme = Vertiorizon::new(2, 10, KIB, 1, HorizontalPolicy::Leveling);
    scheme.apply_resize();
    assert!(scheme.n() > 1, "n must not be stuck at 1");
}

#[test]
fn the_horizontal_part_can_schedule_for_tiering() {
    let mut scheme = Vertiorizon::new(3, 4, KIB, 8, HorizontalPolicy::Tiering);
    assert_eq!(scheme.max_levels(), Some(5));

    let shape = tree(&[KIB, KIB, KIB, 0, 0]);
    let mut fired = 0;
    for _ in 0..40 {
        scheme.note_flush();
        while let Some(request) = scheme.next_compaction(&shape) {
            assert!(request.target_level <= scheme.first_vertical_level());
            fired += 1;
        }
    }
    assert!(fired > 0, "the tiering schedule never fired");
}

#[test]
fn vertiorizon_an_empty_tree_needs_no_compaction() {
    let mut scheme = scheme();
    assert_eq!(scheme.next_compaction(&TreeShape::default()), None);
    assert_eq!(scheme.next_compaction(&tree(&[0, 0, 0, 0])), None);
}
