use vectordb::storage::compaction::{Leveling, MergePolicy, Tiering};
use vectordb::storage::growth::{CompactionRequest, Granularity};
use vectordb::storage::shape::{FileShape, LevelShape, RunShape, TreeShape};

fn full(level: usize) -> CompactionRequest {
    CompactionRequest::single(level, Granularity::Full)
}

fn run(index: usize, bytes: u64, min: &str, max: &str) -> RunShape {
    RunShape {
        index,
        files: vec![FileShape {
            index: 0,
            bytes,
            min_key: Some(min.as_bytes().to_vec()),
            max_key: Some(max.as_bytes().to_vec()),
        }],
        units: 1,
    }
}

#[test]
fn both_policies_satisfy_the_trait() {
    let tree = TreeShape {
        levels: vec![
            LevelShape::from_sizes(&[100, 100]),
            LevelShape::from_sizes(&[900]),
        ],
    };
    plans_level_zero(&Leveling::default(), &tree);
    plans_level_zero(&Tiering::new(4), &tree);
}

fn plans_level_zero<P: MergePolicy>(policy: &P, tree: &TreeShape) {
    assert!(!policy.name().is_empty());
    let job = policy.plan(tree, full(0)).expect("level 0 holds data");
    assert_eq!(job.sources[0].level, 0);
    assert_eq!(job.target_level, 1);
    assert!(!job.sources.is_empty());
}

#[test]
fn an_empty_level_yields_no_job() {
    let tree = TreeShape {
        levels: vec![LevelShape::default(), LevelShape::from_sizes(&[900])],
    };
    assert_eq!(Leveling::default().plan(&tree, full(0)), None);
    assert_eq!(Tiering::new(4).plan(&tree, full(0)), None);
    assert_eq!(
        Leveling::default().plan(&tree, full(99)),
        None,
        "a level that does not exist"
    );
}

#[test]
fn leveling_rewrites_the_target_and_tiering_does_not() {
    let tree = TreeShape {
        levels: vec![
            LevelShape {
                runs: vec![run(0, 100, "a", "z")],
            },
            LevelShape {
                runs: vec![run(0, 900, "a", "z")],
            },
        ],
    };

    let leveling = Leveling::default().plan(&tree, full(0)).expect("job");
    let tiering = Tiering::new(4).plan(&tree, full(0)).expect("job");

    assert_eq!(leveling.targets.len(), 1);
    assert!(tiering.targets.is_empty());
    assert!(
        tiering.input_file_count() < leveling.input_file_count(),
        "tiering moves the same data while touching less"
    );
}
