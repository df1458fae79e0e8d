use vectordb::storage::growth::{Granularity, GrowthScheme, HorizontalLeveling};
use vectordb::storage::shape::{LevelShape, TreeShape};

fn full_tree(levels: usize) -> TreeShape {
    TreeShape {
        levels: (0..levels)
            .map(|_| LevelShape::from_sizes(&[1024]))
            .collect(),
    }
}

fn compaction_schedule(scheme: &mut HorizontalLeveling, flushes: usize) -> Vec<usize> {
    let tree = full_tree(scheme.levels());
    let mut fired = Vec::new();
    for flush in 1..=flushes {
        scheme.note_flush();
        while let Some(request) = scheme.next_compaction(&tree) {
            assert_eq!(
                request.granularity,
                Granularity::Full,
                "the horizontal scheme is defined on full compaction"
            );
            if request.first_level == 0 {
                fired.push(flush);
            }
        }
    }
    fired
}

#[test]
fn reproduces_the_papers_horizontal_trace() {
    let mut scheme = HorizontalLeveling::new(2);
    let fired = compaction_schedule(&mut scheme, 6);
    assert_eq!(
        fired,
        vec![1, 3, 6],
        "compactions belong at flushes 1, 3 and 6"
    );
}

#[test]
fn horizontal_counters_follow_the_papers_values() {
    let mut scheme = HorizontalLeveling::new(2);
    let tree = full_tree(2);

    scheme.note_flush();
    assert_eq!(scheme.counters(), &[1, 0], "after the first flush");
    assert_eq!(scheme.next_compaction(&tree).map(|r| r.first_level), Some(0));
    assert_eq!(scheme.counters(), &[0, 1], "C_1 resets, C_2 increments");

    scheme.note_flush();
    assert_eq!(scheme.next_compaction(&tree), None, "1 > 1 is false");

    scheme.note_flush();
    assert_eq!(scheme.counters(), &[2, 1]);
    assert_eq!(scheme.next_compaction(&tree).map(|r| r.first_level), Some(0));
    assert_eq!(scheme.counters(), &[0, 2]);
}

#[test]
fn compaction_frequency_decreases_as_the_tree_grows() {
    let mut scheme = HorizontalLeveling::new(2);
    let fired = compaction_schedule(&mut scheme, 60);

    assert_eq!(&fired[..6], &[1, 3, 6, 10, 15, 21]);

    let gaps: Vec<usize> = fired.windows(2).map(|pair| pair[1] - pair[0]).collect();
    assert!(
        gaps.windows(2).all(|pair| pair[1] >= pair[0]),
        "gaps between compactions must never shrink: {gaps:?}"
    );
    assert!(
        gaps.last().unwrap() > gaps.first().unwrap(),
        "the schedule must actually slow down over time"
    );
}

#[test]
fn the_schedule_differs_from_a_fixed_frequency() {
    let mut scheme = HorizontalLeveling::new(2);
    let fired = compaction_schedule(&mut scheme, 30);
    let gaps: Vec<usize> = fired.windows(2).map(|pair| pair[1] - pair[0]).collect();
    assert!(
        gaps.iter().collect::<std::collections::HashSet<_>>().len() > 1,
        "a fixed compaction frequency would give identical gaps: {gaps:?}"
    );
}

#[test]
fn deeper_levels_compact_too() {
    let mut scheme = HorizontalLeveling::new(3);
    let tree = full_tree(3);
    let mut deep_fired = 0;

    for _ in 0..40 {
        scheme.note_flush();
        while let Some(request) = scheme.next_compaction(&tree) {
            if request.first_level == 1 {
                deep_fired += 1;
            }
        }
    }
    assert!(deep_fired > 0, "level 1 should have compacted into level 2");
}

#[test]
fn horizontal_the_deepest_level_never_compacts_onward() {
    let mut scheme = HorizontalLeveling::new(3);
    let tree = full_tree(3);

    for _ in 0..200 {
        scheme.note_flush();
        while let Some(request) = scheme.next_compaction(&tree) {
            assert!(
                request.first_level < 2,
                "level {} is the deepest and cannot compact",
                request.first_level
            );
        }
    }
}

#[test]
fn horizontal_an_empty_level_does_not_fire_or_disturb_the_counters() {
    let mut scheme = HorizontalLeveling::new(2);
    let empty = TreeShape {
        levels: vec![LevelShape::default(), LevelShape::default()],
    };

    scheme.note_flush();
    assert_eq!(scheme.next_compaction(&empty), None);
    assert_eq!(
        scheme.counters(),
        &[1, 0],
        "the counters must not advance for a compaction that did not happen"
    );
}

#[test]
fn one_flush_yields_at_most_one_compaction_per_level() {
    let mut scheme = HorizontalLeveling::new(4);
    let tree = full_tree(4);

    for _ in 0..50 {
        scheme.note_flush();
        let mut seen = Vec::new();
        while let Some(request) = scheme.next_compaction(&tree) {
            assert!(
                !seen.contains(&request.first_level),
                "level {} fired twice in one flush: {seen:?}",
                request.first_level
            );
            seen.push(request.first_level);
        }
        assert!(
            seen.windows(2).all(|pair| pair[0] < pair[1]),
            "the pass must ascend: {seen:?}"
        );
    }
}
