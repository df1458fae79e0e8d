use vectordb::storage::growth::{
    Granularity, GrowthScheme, HorizontalLeveling, HorizontalTiering,
};
use vectordb::storage::shape::{LevelShape, TreeShape};

fn full_tree(levels: usize) -> TreeShape {
    TreeShape {
        levels: (0..levels)
            .map(|_| LevelShape::from_sizes(&[1024]))
            .collect(),
    }
}

fn compaction_schedule(scheme: &mut HorizontalTiering, flushes: usize) -> Vec<usize> {
    let tree = full_tree(scheme.levels());
    let mut fired = Vec::new();
    for flush in 1..=flushes {
        scheme.note_flush();
        while let Some(request) = scheme.next_compaction(&tree) {
            assert_eq!(request.granularity, Granularity::Full);
            if request.first_level == 0 {
                fired.push(flush);
            }
        }
    }
    fired
}

#[test]
fn reproduces_the_papers_horizontal_tiering_trace() {
    let mut scheme = HorizontalTiering::new(2, 1, 1);
    scheme.counters = vec![3, 3];
    scheme.k = 3;

    let fired = compaction_schedule(&mut scheme, 6);
    assert_eq!(
        fired,
        vec![3, 5, 6],
        "compactions belong at flushes 3, 5 and 6"
    );
}

#[test]
fn horizontal_tiering_counters_follow_the_papers_values() {
    let mut scheme = HorizontalTiering::new(2, 1, 1);
    scheme.counters = vec![3, 3];
    let tree = full_tree(2);

    for _ in 0..2 {
        scheme.note_flush();
        assert_eq!(scheme.next_compaction(&tree), None);
    }
    assert_eq!(scheme.counters(), &[1, 3], "two flushes consumed two counts");

    scheme.note_flush();
    assert_eq!(scheme.next_compaction(&tree).map(|r| r.first_level), Some(0));
    assert_eq!(
        scheme.counters(),
        &[2, 2],
        "C_2 decrements to 2 and C_1 resets to that value"
    );

    scheme.note_flush();
    assert_eq!(scheme.next_compaction(&tree), None);
    scheme.note_flush();
    assert_eq!(scheme.next_compaction(&tree).map(|r| r.first_level), Some(0));
    assert_eq!(scheme.counters(), &[1, 1]);
}

#[test]
fn compaction_frequency_increases_as_the_level_fills() {
    let mut scheme = HorizontalTiering::new(2, 1, 1);
    scheme.counters = vec![6, 6];
    scheme.k = 6;

    let fired = compaction_schedule(&mut scheme, 21);
    let gaps: Vec<usize> = fired.windows(2).map(|pair| pair[1] - pair[0]).collect();

    assert!(
        gaps.windows(2).all(|pair| pair[1] <= pair[0]),
        "gaps must never grow under tiering: {gaps:?}"
    );
    assert!(
        gaps.first().unwrap() > gaps.last().unwrap(),
        "the schedule must actually speed up: {gaps:?}"
    );
}

#[test]
fn the_two_horizontal_schedules_run_in_opposite_directions() {

    let mut tiering = HorizontalTiering::new(2, 1, 1);
    tiering.counters = vec![6, 6];
    let tiering_gaps: Vec<usize> = compaction_schedule(&mut tiering, 21)
        .windows(2)
        .map(|pair| pair[1] - pair[0])
        .collect();

    let mut leveling = HorizontalLeveling::new(2);
    let tree = full_tree(2);
    let mut leveling_fired = Vec::new();
    for flush in 1..=21 {
        leveling.note_flush();
        while let Some(request) = leveling.next_compaction(&tree) {
            if request.first_level == 0 {
                leveling_fired.push(flush);
            }
        }
    }
    let leveling_gaps: Vec<usize> = leveling_fired
        .windows(2)
        .map(|pair| pair[1] - pair[0])
        .collect();

    assert!(leveling_gaps.last() > leveling_gaps.first(), "leveling slows down");
    assert!(tiering_gaps.last() < tiering_gaps.first(), "tiering speeds up");
}

#[test]
fn the_initial_counter_follows_the_papers_formula() {
    assert_eq!(HorizontalTiering::initial_counter(2, 1, 10), 4);
    assert_eq!(HorizontalTiering::initial_counter(2, 1, 11), 5);
    assert_eq!(HorizontalTiering::initial_counter(2, 1, 6), 3);

    let small = HorizontalTiering::initial_counter(3, 1024, 1024 * 100);
    let large = HorizontalTiering::initial_counter(3, 1024, 1024 * 100_000);
    assert!(large > small);
}

#[test]
fn the_schedule_restarts_instead_of_underflowing() {
    let mut scheme = HorizontalTiering::new(2, 1, 6);
    let starting_k = scheme.k();
    let tree = full_tree(2);

    for _ in 0..200 {
        scheme.note_flush();
        while let Some(request) = scheme.next_compaction(&tree) {
            assert!(request.first_level < 2);
        }
    }

    assert!(
        scheme.k() > starting_k,
        "the schedule should have restarted at a larger k"
    );
    assert!(
        scheme.counters().iter().any(|&counter| counter > 0),
        "counters must be replenished, not stuck at zero"
    );
}

#[test]
fn horizontal_tiering_the_deepest_level_never_compacts_onward() {
    let mut scheme = HorizontalTiering::new(3, 1, 100);
    let tree = full_tree(3);

    for _ in 0..300 {
        scheme.note_flush();
        while let Some(request) = scheme.next_compaction(&tree) {
            assert!(
                request.first_level < 2,
                "level {} is the deepest and cannot compact",
                request.first_level
            );
        }
    }
}

#[test]
fn horizontal_tiering_an_empty_level_does_not_fire_or_disturb_the_counters() {
    let mut scheme = HorizontalTiering::new(2, 1, 1);
    scheme.counters = vec![1, 3];
    let empty = TreeShape {
        levels: vec![LevelShape::default(), LevelShape::default()],
    };

    scheme.note_flush();
    assert_eq!(scheme.next_compaction(&empty), None);
    assert_eq!(
        scheme.counters(),
        &[0, 3],
        "the flush decrement stands, but no compaction bookkeeping happened"
    );
}

#[test]
fn the_initial_counter_has_no_upper_bound() {
    // 10_953 * 10_954 / 2 = 59_989_581 is too few, 10_954 * 10_955 / 2 is enough.
    assert_eq!(HorizontalTiering::new(2, 1, 60_000_000).k(), 10_954);
    assert_eq!(HorizontalTiering::initial_counter(2, 1, 59_989_581), 10_953);
    assert_eq!(HorizontalTiering::initial_counter(2, 1, 59_989_582), 10_954);
    // The largest data size: 6_074_000_999 * 6_074_001_000 / 2 is just below it.
    assert_eq!(HorizontalTiering::initial_counter(2, 1, u64::MAX), 6_074_001_000);
    assert_eq!(HorizontalTiering::initial_counter(64, 1, u64::MAX), 22);
}
