use vectordb::storage::shape::{is_deepest_level, FileShape, LevelShape, RunShape, TreeShape};
use vectordb::storage::Key;

fn k(s: &str) -> Key {
    s.as_bytes().to_vec()
}

fn file(index: usize, bytes: u64, min: &str, max: &str) -> FileShape {
    FileShape {
        index,
        bytes,
        min_key: Some(k(min)),
        max_key: Some(k(max)),
    }
}

fn run(index: usize, bytes: u64, min: &str, max: &str) -> RunShape {
    RunShape {
        index,
        files: vec![file(0, bytes, min, max)],
        units: 1,
    }
}

#[test]
fn overlap_detection_handles_touching_and_disjoint_ranges() {
    let left = run(0, 100, "a", "m");
    let right = run(1, 100, "n", "z");
    let straddling = run(2, 100, "f", "t");
    let touching = run(3, 100, "m", "q");

    assert!(!left.overlaps(&right));
    assert!(left.overlaps(&straddling));
    assert!(
        left.overlaps(&touching),
        "ranges sharing an endpoint overlap: the key 'm' is in both"
    );
    assert!(left.overlaps(&left));
}

#[test]
fn an_empty_run_overlaps_nothing() {
    let empty = RunShape {
        index: 0,
        files: Vec::new(),
        units: 1,
    };
    assert!(!empty.overlaps(&run(1, 100, "a", "z")));
    assert!(!run(1, 100, "a", "z").overlaps(&empty));
    assert!(!empty.overlaps_range(&k("a"), &k("z")));
}

#[test]
fn a_multi_file_run_reports_its_full_span() {
    let subject = RunShape {
        index: 0,
        files: vec![
            file(0, 10, "a", "c"),
            file(1, 10, "d", "m"),
            file(2, 10, "n", "z"),
        ],
        units: 1,
    };

    assert_eq!(subject.min_key(), Some(&k("a")));
    assert_eq!(subject.max_key(), Some(&k("z")));
    assert_eq!(subject.bytes(), 30);
    assert_eq!(subject.file_count(), 3);
}

#[test]
fn only_the_files_intersecting_a_range_are_selected() {
    let subject = RunShape {
        index: 0,
        files: vec![
            file(0, 10, "a", "c"),
            file(1, 10, "d", "m"),
            file(2, 10, "n", "z"),
        ],
        units: 1,
    };

    assert_eq!(subject.files_overlapping(&k("e"), &k("f")), vec![1]);
    assert_eq!(subject.files_overlapping(&k("c"), &k("e")), vec![0, 1]);
    assert_eq!(subject.files_overlapping(&k("a"), &k("z")), vec![0, 1, 2]);
    assert!(subject.files_overlapping(&k("A"), &k("B")).is_empty());
}

#[test]
fn tree_shape_reports_sizes_and_the_bottom_level() {
    let tree = TreeShape {
        levels: vec![
            LevelShape::from_sizes(&[10, 20]),
            LevelShape::from_sizes(&[300]),
            LevelShape::default(),
        ],
    };

    assert_eq!(tree.level_bytes(0), 30);
    assert_eq!(tree.run_count(0), 2);
    assert_eq!(tree.level_bytes(99), 0);
    assert_eq!(tree.total_bytes(), 330);
    assert_eq!(
        tree.bottom_level(),
        Some(1),
        "an empty trailing level is not the bottom"
    );
}

#[test]
fn an_empty_tree_has_no_bottom_level() {
    assert_eq!(TreeShape::default().bottom_level(), None);
}

#[test]
fn the_deepest_level_is_the_one_with_nothing_under_it() {
    let tree = TreeShape {
        levels: vec![
            LevelShape::from_sizes(&[10]),
            LevelShape::from_sizes(&[100]),
            LevelShape::from_sizes(&[1000]),
        ],
    };

    assert!(!is_deepest_level(&tree, 0));
    assert!(!is_deepest_level(&tree, 1));
    assert!(is_deepest_level(&tree, 2));
    assert!(
        is_deepest_level(&tree, 3),
        "writing below the current bottom creates the new bottom"
    );
    assert!(is_deepest_level(&TreeShape::default(), 0));
}

#[test]
fn trailing_empty_levels_do_not_confuse_the_check() {
    let tree = TreeShape {
        levels: vec![
            LevelShape::from_sizes(&[10]),
            LevelShape::default(),
            LevelShape::from_sizes(&[1000]),
        ],
    };
    assert!(
        !is_deepest_level(&tree, 1),
        "level 2 still holds data below level 1"
    );
    assert!(is_deepest_level(&tree, 2));
}
