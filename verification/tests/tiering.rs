use vectordb::storage::compaction::{MergePolicy, Tiering};
use vectordb::storage::growth::{CompactionRequest, Granularity};
use vectordb::storage::shape::{LevelShape, TreeShape};

fn request(granularity: Granularity) -> CompactionRequest {
    CompactionRequest::single(0, granularity)
}

#[test]
fn all_source_runs_merge_into_one_appended_run() {
    let tree = TreeShape {
        levels: vec![
            LevelShape::from_sizes(&[100; 4]),
            LevelShape::from_sizes(&[900, 900]),
        ],
    };

    let job = Tiering::new(4).plan(&tree, request(Granularity::Full)).expect("job");
    assert_eq!(job.sources[0].runs.len(), 4);
    assert!(
        job.targets.is_empty(),
        "tiering never rewrites the level it writes into"
    );
    assert_eq!(job.input_run_count(), 4);
}

#[test]
fn a_partial_request_still_merges_the_whole_level() {
    let tree = TreeShape {
        levels: vec![
            LevelShape::from_sizes(&[100; 4]),
            LevelShape::from_sizes(&[900]),
        ],
    };

    let full = Tiering::new(4).plan(&tree, request(Granularity::Full)).expect("job");
    let partial = Tiering::new(4)
        .plan(&tree, request(Granularity::Partial))
        .expect("job");
    assert_eq!(full, partial);
}

#[test]
fn tombstones_are_dropped_only_into_an_empty_bottom_level() {
    let empty_target = TreeShape {
        levels: vec![LevelShape::from_sizes(&[100; 4])],
    };
    assert!(
        Tiering::new(4)
            .plan(&empty_target, request(Granularity::Full))
            .expect("job")
            .drop_tombstones,
        "nothing exists below, so nothing can be resurrected"
    );
}

#[test]
fn tombstones_are_kept_when_the_target_level_still_holds_older_runs() {
    let tree = TreeShape {
        levels: vec![
            LevelShape::from_sizes(&[100; 4]),
            LevelShape::from_sizes(&[900]),
        ],
    };

    let job = Tiering::new(4).plan(&tree, request(Granularity::Full)).expect("job");
    assert!(
        job.targets.is_empty(),
        "the surviving target run is exactly the danger"
    );
    assert!(
        !job.drop_tombstones,
        "that run can hold values these tombstones delete"
    );
}

#[test]
fn the_run_limit_is_reported() {
    assert_eq!(Tiering::new(8).runs_per_level(), 8);
    assert_eq!(Tiering::default().runs_per_level(), 4);
    assert_eq!(Tiering::default().name(), "tiering");
}
