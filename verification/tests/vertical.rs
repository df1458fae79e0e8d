use vectordb::storage::growth::{CompactionRequest, Granularity, GrowthScheme, Vertical};
use vectordb::storage::shape::{LevelShape, TreeShape};

const MIB: u64 = 1024 * 1024;

fn level_of(request: Option<CompactionRequest>) -> Option<usize> {
    request.map(|request| request.first_level)
}

fn tree(level_bytes: &[u64]) -> TreeShape {
    TreeShape {
        levels: level_bytes
            .iter()
            .map(|&bytes| {
                if bytes == 0 {
                    LevelShape::default()
                } else {
                    LevelShape::from_sizes(&[bytes])
                }
            })
            .collect(),
    }
}

#[test]
fn capacities_grow_geometrically_from_the_buffer_size() {
    let scheme = Vertical::new(MIB, 10);
    assert_eq!(scheme.level_capacity_bytes(0), 10 * MIB);
    assert_eq!(scheme.level_capacity_bytes(1), 100 * MIB);
    assert_eq!(scheme.level_capacity_bytes(2), 1000 * MIB);
}

#[test]
fn capacities_ignore_the_data_size() {
    let scheme = Vertical::new(MIB, 10);
    let small = tree(&[MIB]);
    let huge = tree(&[MIB, 1000 * MIB, 100_000 * MIB]);
    assert_eq!(scheme.level_capacity_bytes(1), 100 * MIB);
    assert_eq!(Vertical::new(MIB, 10).next_compaction(&small), None);
    assert!(Vertical::new(MIB, 10).next_compaction(&huge).is_some());
}

#[test]
fn compaction_is_partial_below_level_zero() {
    let mut scheme = Vertical::new(1, 2);

    let at_level_zero = scheme.next_compaction(&tree(&[9])).expect("a request");
    assert_eq!(at_level_zero.first_level, 0);
    assert_eq!(at_level_zero.target_level, 1);
    assert!(!at_level_zero.spans_multiple_levels());
    assert_eq!(
        at_level_zero.granularity,
        Granularity::Full,
        "level 0 runs overlap arbitrarily and cannot be sliced by key range"
    );

    let deeper = scheme.next_compaction(&tree(&[0, 99])).expect("a request");
    assert_eq!(deeper.first_level, 1);
    assert_eq!(deeper.granularity, Granularity::Partial);
}

#[test]
fn levels_are_added_as_data_grows() {
    let scheme = Vertical::new(MIB, 10);
    assert_eq!(scheme.levels_needed(0), 1);
    assert_eq!(scheme.levels_needed(10 * MIB), 1);
    assert_eq!(scheme.levels_needed(10 * MIB + 1), 2);
    assert_eq!(scheme.levels_needed(100 * MIB), 2);
    assert_eq!(scheme.levels_needed(100 * MIB + 1), 3);
}

#[test]
fn level_count_is_logarithmic_in_the_data_size() {
    let scheme = Vertical::new(MIB, 10);
    let base = scheme.levels_needed(10 * MIB);
    assert_eq!(scheme.levels_needed(10_000 * MIB) - base, 3);
    assert_eq!(scheme.levels_needed(10_000_000 * MIB) - base, 6);
}

#[test]
fn reproduces_the_papers_vertical_trace() {
    let mut scheme = Vertical::new(1, 2);
    assert_eq!(scheme.level_capacity_bytes(0), 2);
    assert_eq!(scheme.level_capacity_bytes(1), 4);

    scheme.note_flush();
    assert_eq!(level_of(scheme.next_compaction(&tree(&[1]))), None);

    scheme.note_flush();
    assert_eq!(level_of(scheme.next_compaction(&tree(&[2]))), Some(0));

    scheme.note_flush();
    assert_eq!(level_of(scheme.next_compaction(&tree(&[1, 2]))), None);

    scheme.note_flush();
    assert_eq!(level_of(scheme.next_compaction(&tree(&[2, 2]))), Some(0));
    assert_eq!(level_of(scheme.next_compaction(&tree(&[0, 4]))), Some(1));
    assert_eq!(level_of(scheme.next_compaction(&tree(&[0, 0, 4]))), None);
}

#[test]
fn the_shallowest_over_capacity_level_is_picked_first() {
    let mut scheme = Vertical::new(1, 2);
    assert_eq!(
        level_of(scheme.next_compaction(&tree(&[3, 9]))),
        Some(0),
        "data should move down one step at a time"
    );
}

#[test]
fn an_empty_level_never_triggers() {
    let mut scheme = Vertical::new(1, 2);
    assert_eq!(scheme.next_compaction(&tree(&[0, 0, 0])), None);
    assert_eq!(scheme.next_compaction(&TreeShape::default()), None);
}
