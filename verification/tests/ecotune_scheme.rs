use vectordb::storage::compaction::EcoTuneConfig;
use vectordb::storage::growth::{EcoTune, GrowthScheme};
use vectordb::storage::shape::{LevelShape, TreeShape};

const TOP_LEVEL: usize = 0;
const MAIN_LEVEL: usize = 1;
const LAST_LEVEL: usize = 2;

fn tree(level_bytes: &[u64]) -> TreeShape {
    TreeShape {
        levels: level_bytes
            .iter()
            .map(|&bytes| {
                if bytes == 0 {
                    LevelShape::default()
                } else {
                    LevelShape::from_sizes(&[bytes])
                }
            })
            .collect(),
    }
}

fn tree_with_main_runs(top: u64, runs: usize) -> TreeShape {
    TreeShape {
        levels: vec![
            if top == 0 {
                LevelShape::default()
            } else {
                LevelShape::from_sizes(&[top])
            },
            LevelShape::from_sizes(&vec![100u64; runs]),
            LevelShape::default(),
        ],
    }
}

fn scheme() -> EcoTune {
    EcoTune::new(
        EcoTuneConfig {
            runs_per_round: 8,
            long_range_ratio: 549_755_813_888,
            ..EcoTuneConfig::default()
        },
        1024,
    )
}

#[test]
fn the_mapped_tree_has_three_levels() {
    assert_eq!(scheme().max_levels(), Some(3));
    assert_eq!(scheme().name(), "ecotune");
}

#[test]
fn a_full_top_level_drains_into_main() {
    let mut scheme = scheme();
    scheme.note_flush();
    assert_eq!(
        scheme.next_compaction(&tree(&[512, 0, 0])),
        None,
        "an under-full top level should be left alone"
    );

    scheme.note_flush();
    let request = scheme
        .next_compaction(&tree(&[2048, 0, 0]))
        .expect("a drain");
    assert_eq!(request.first_level, TOP_LEVEL);
    assert_eq!(request.target_level, MAIN_LEVEL);
    assert_eq!(scheme.position(), 1, "the drain creates one unit run");
}

#[test]
fn the_top_level_is_never_compacted_into_itself() {
    let mut scheme = scheme();
    for _ in 0..50 {
        scheme.note_flush();
        while let Some(request) = scheme.next_compaction(&tree_with_main_runs(2048, 3)) {
            assert!(
                !(request.first_level == TOP_LEVEL && request.target_level == TOP_LEVEL),
                "the top level must never merge into itself: {request:?}"
            );
        }
    }
}

#[test]
fn a_scheduled_merge_stays_inside_the_main_level() {
    let mut scheme = scheme();
    let Some(&(position, width)) = scheme.schedule.first() else {
        panic!("the schedule placed no merges");
    };
    scheme.position = position;

    scheme.note_flush();
    let request = scheme
        .next_compaction(&tree_with_main_runs(0, 4))
        .expect("a merge");

    assert_eq!(request.first_level, MAIN_LEVEL);
    assert_eq!(request.target_level, MAIN_LEVEL);
    assert_eq!(
        request.merge_units,
        Some(width),
        "the width is in unit runs, taken straight from the schedule"
    );
}

#[test]
fn a_single_main_run_is_not_merged_with_itself() {
    let mut scheme = scheme();
    let Some(&(position, _)) = scheme.schedule.first() else {
        panic!("the schedule placed no merges");
    };
    scheme.position = position;

    scheme.note_flush();
    let request = scheme.next_compaction(&tree_with_main_runs(0, 1));
    assert!(
        request.is_none_or(|request| request.target_level != MAIN_LEVEL),
        "one run in the main level is nothing to merge"
    );
}

#[test]
fn the_round_ends_with_a_global_compaction() {
    let mut scheme = scheme();
    scheme.position = scheme.round_length();

    scheme.note_flush();
    let request = scheme
        .next_compaction(&tree(&[1024, 4096, 0]))
        .expect("a global compaction");

    assert_eq!(request.first_level, TOP_LEVEL);
    assert_eq!(
        request.last_level, LAST_LEVEL,
        "the last level is a source too, so it collapses to one run"
    );
    assert_eq!(request.target_level, LAST_LEVEL);
    assert!(request.spans_multiple_levels());
    assert_eq!(scheme.position(), 0, "the round restarts");
}

#[test]
fn an_empty_round_end_yields_no_job() {
    let mut scheme = scheme();
    scheme.position = scheme.round_length();
    scheme.note_flush();
    assert_eq!(scheme.next_compaction(&tree(&[0, 0, 0])), None);
}

#[test]
fn each_flush_yields_at_most_one_action() {
    let mut scheme = scheme();
    for _ in 0..100 {
        scheme.note_flush();
        let mut actions = 0;
        while scheme.next_compaction(&tree_with_main_runs(4096, 3)).is_some() {
            actions += 1;
            assert!(actions <= 1, "a flush produced {actions} actions");
        }
    }
}

#[test]
fn the_position_cycles_within_the_round() {
    let mut scheme = scheme();
    let round = scheme.round_length();
    for _ in 0..500 {
        scheme.note_flush();
        while scheme.next_compaction(&tree_with_main_runs(4096, 3)).is_some() {}
        assert!(
            scheme.position() <= round,
            "position {} escaped the round length {round}",
            scheme.position()
        );
    }
}
