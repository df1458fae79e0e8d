use vectordb::storage::compaction::{Leveling, MergePolicy};
use vectordb::storage::growth::Vertical;
use vectordb::storage::shape::{FileShape, LevelShape, RunShape, TreeShape};
use vectordb::storage::Key;

const KIB: u64 = 1024;

fn k(s: &str) -> Key {
    s.as_bytes().to_vec()
}

fn run(index: usize, bytes: u64, min: &str, max: &str) -> RunShape {
    RunShape {
        index,
        files: vec![FileShape {
            index: 0,
            bytes,
            min_key: Some(k(min)),
            max_key: Some(k(max)),
        }],
        units: 1,
    }
}

fn growth() -> Vertical {
    Vertical::new(KIB, 10)
}

#[test]
fn leveling_an_empty_tree_needs_no_compaction() {
    assert_eq!(Leveling::default().pick(&TreeShape::default(), &growth()), None);
}

#[test]
fn level_zero_below_its_trigger_is_left_alone() {
    let tree = TreeShape {
        levels: vec![LevelShape::from_sizes(&[10, 10, 10])],
    };
    assert_eq!(
        Leveling::new(4).pick(&tree, &growth()),
        None,
        "three runs is under a trigger of four"
    );
}

#[test]
fn level_zero_compacts_all_its_runs_at_once() {
    let tree = TreeShape {
        levels: vec![LevelShape::from_sizes(&[10, 10, 10, 10])],
    };

    let job = Leveling::new(4).pick(&tree, &growth()).expect("a job");
    assert_eq!(job.source_level, 0);
    assert_eq!(job.target_level, 1);
    assert_eq!(
        job.source_runs,
        vec![0, 1, 2, 3],
        "level 0 runs overlap arbitrarily, so they must all go together"
    );
}

#[test]
fn level_zero_takes_priority_over_deeper_levels() {
    let tree = TreeShape {
        levels: vec![
            LevelShape::from_sizes(&[10, 10, 10, 10]),
            LevelShape::from_sizes(&[100 * KIB]),
        ],
    };

    let job = Leveling::new(4).pick(&tree, &growth()).expect("a job");
    assert_eq!(job.source_level, 0);
}

#[test]
fn a_level_within_its_budget_is_left_alone() {
    let tree = TreeShape {
        levels: vec![
            LevelShape::default(),
            LevelShape::from_sizes(&[9 * KIB]),
        ],
    };
    assert_eq!(Leveling::new(4).pick(&tree, &growth()), None);
}

#[test]
fn a_level_over_its_budget_is_compacted_downward() {
    let tree = TreeShape {
        levels: vec![
            LevelShape::default(),
            LevelShape::from_sizes(&[11 * KIB]),
        ],
    };

    let job = Leveling::new(4).pick(&tree, &growth()).expect("a job");
    assert_eq!(job.source_level, 1);
    assert_eq!(job.target_level, 2);
}

#[test]
fn shallower_levels_are_compacted_first() {
    let tree = TreeShape {
        levels: vec![
            LevelShape::default(),
            LevelShape::from_sizes(&[11 * KIB]),
            LevelShape::from_sizes(&[200 * KIB]),
        ],
    };

    let job = Leveling::new(4).pick(&tree, &growth()).expect("a job");
    assert_eq!(
        job.source_level, 1,
        "data should move down one step at a time"
    );
}

#[test]
fn only_overlapping_target_runs_are_included() {
    let tree = TreeShape {
        levels: vec![
            LevelShape::default(),
            LevelShape {
                runs: vec![run(0, 11 * KIB, "d", "f")],
            },
            LevelShape {
                runs: vec![
                    run(0, KIB, "a", "c"),
                    run(1, KIB, "e", "g"),
                    run(2, KIB, "x", "z"),
                ],
            },
        ],
    };

    let job = Leveling::new(4).pick(&tree, &growth()).expect("a job");
    assert_eq!(job.source_level, 1);
    assert_eq!(
        job.target_runs,
        vec![1],
        "only the run whose range intersects d..f should be rewritten"
    );
}

#[test]
fn a_source_overlapping_nothing_merges_into_an_empty_target() {
    let tree = TreeShape {
        levels: vec![
            LevelShape::default(),
            LevelShape {
                runs: vec![run(0, 11 * KIB, "m", "n")],
            },
            LevelShape {
                runs: vec![run(0, KIB, "a", "c"), run(1, KIB, "x", "z")],
            },
        ],
    };

    let job = Leveling::new(4).pick(&tree, &growth()).expect("a job");
    assert!(
        job.target_runs.is_empty(),
        "a disjoint run moves down without rewriting anything"
    );
}

#[test]
fn tombstones_are_dropped_only_when_writing_to_the_bottom() {
    let shallow = TreeShape {
        levels: vec![LevelShape::from_sizes(&[10, 10, 10, 10])],
    };
    let job = Leveling::new(4).pick(&shallow, &growth()).expect("a job");
    assert!(
        job.drop_tombstones,
        "nothing lives below level 1 here, so tombstones can go"
    );

    let deep = TreeShape {
        levels: vec![
            LevelShape::from_sizes(&[10, 10, 10, 10]),
            LevelShape::from_sizes(&[KIB]),
            LevelShape::from_sizes(&[100 * KIB]),
        ],
    };
    let job = Leveling::new(4).pick(&deep, &growth()).expect("a job");
    assert!(
        !job.drop_tombstones,
        "a tombstone dropped above level 2 would resurrect deleted keys"
    );
}

#[test]
fn repeated_compaction_terminates() {
    let policy = Leveling::new(4);
    let growth = growth();

    let mut tree = TreeShape {
        levels: vec![LevelShape::from_sizes(&[KIB; 8])],
    };

    for step in 0..100 {
        let Some(job) = policy.pick(&tree, &growth) else {
            assert!(step > 0, "the first tree was already over budget");
            return;
        };

        let moved: u64 = job
            .source_runs
            .iter()
            .map(|&index| tree.levels[job.source_level].runs[index].bytes())
            .sum();

        tree.levels[job.source_level].runs.clear();
        while tree.levels.len() <= job.target_level {
            tree.levels.push(LevelShape::default());
        }
        let target = &mut tree.levels[job.target_level];
        let existing: u64 = target.runs.iter().map(|run| run.bytes()).sum();
        *target = LevelShape::from_sizes(&[existing + moved]);
    }
    panic!("compaction did not converge after 100 steps");
}

#[test]
fn leveling_reports_one_run_per_level() {
    assert_eq!(Leveling::default().runs_per_level(), 1);
    assert_eq!(Leveling::default().name(), "leveling");
}
