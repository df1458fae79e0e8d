use vectordb::storage::compaction::{propagate_monkey, Fluid, Leveling, MergePolicy, Tiering};
use vectordb::storage::growth::{CompactionRequest, Granularity};
use vectordb::storage::shape::{FileShape, LevelShape, RunShape, TreeShape};

fn run(index: usize, bytes: u64, min: &str, max: &str) -> RunShape {
    RunShape {
        index,
        files: vec![FileShape {
            index: 0,
            bytes,
            min_key: Some(min.as_bytes().to_vec()),
            max_key: Some(max.as_bytes().to_vec()),
        }],
        units: 1,
    }
}

fn tree() -> TreeShape {
    TreeShape {
        levels: vec![
            LevelShape {
                runs: vec![run(0, 100, "a", "m"), run(1, 100, "b", "n")],
            },
            LevelShape {
                runs: vec![run(0, 900, "a", "z")],
            },
            LevelShape {
                runs: vec![run(0, 4000, "a", "z")],
            },
        ],
    }
}

fn request() -> CompactionRequest {
    CompactionRequest::single(0, Granularity::Full)
}

#[test]
fn k_of_one_plans_exactly_what_leveling_plans() {
    let tree = tree();
    let fluid = Fluid::uniform(1, 10);
    assert_eq!(
        fluid.plan(&tree, request()),
        Leveling::default().plan(&tree, request()),
        "K=1 must be leveling"
    );
}

#[test]
fn k_of_t_plans_exactly_what_tiering_plans() {
    let tree = tree();
    let fluid = Fluid::uniform(10, 10);
    assert_eq!(
        fluid.plan(&tree, request()),
        Tiering::new(10).plan(&tree, request()),
        "K=T must be tiering"
    );
}

#[test]
fn the_endpoints_differ_from_each_other() {
    let tree = tree();
    assert_ne!(
        Fluid::uniform(1, 10).plan(&tree, request()),
        Fluid::uniform(10, 10).plan(&tree, request()),
    );
}

#[test]
fn leveling_rewrites_the_target_and_tiering_appends() {
    let tree = tree();
    let levelled = Fluid::uniform(1, 10).plan(&tree, request()).expect("plan");
    let tiered = Fluid::uniform(10, 10).plan(&tree, request()).expect("plan");
    assert!(
        !levelled.targets.is_empty(),
        "leveling merges into the target"
    );
    assert!(tiered.targets.is_empty(), "tiering appends");
}

#[test]
fn the_target_levels_policy_decides_not_the_sources() {
    let tree = tree();
    let fluid = Fluid::new(vec![10, 1], 10);
    let plan = fluid.plan(&tree, request()).expect("plan");
    assert!(
        !plan.targets.is_empty(),
        "target level K=1 should merge, whatever the source's K"
    );

    let fluid = Fluid::new(vec![1, 10], 10);
    let plan = fluid.plan(&tree, request()).expect("plan");
    assert!(plan.targets.is_empty(), "target level K>1 should append");
}

#[test]
fn policies_are_clamped_to_the_size_ratio() {
    let fluid = Fluid::new(vec![0, 99, 4], 10);
    assert_eq!(fluid.policies(), &[1, 10, 4]);
}

#[test]
fn levels_beyond_the_vector_take_the_default() {
    let fluid = Fluid::new(vec![8, 6], 10);
    assert_eq!(fluid.policy_for(0), 8);
    assert_eq!(fluid.policy_for(1), 6);
    assert_eq!(fluid.policy_for(2), 1);
    assert_eq!(fluid.policy_for(50), 1);
}

#[test]
fn runs_per_level_reports_the_maximum() {
    let fluid = Fluid::new(vec![1, 7, 3], 10);
    assert_eq!(fluid.runs_per_level(), 7);
}

#[test]
fn a_propagated_policy_vector_is_accepted_whole() {
    let policies = propagate_monkey(9, 7, 10, 4);
    let fluid = Fluid::new(policies, 10);
    assert_eq!(fluid.policies(), &[9, 7, 3, 1]);
    assert!(!fluid.is_leveled(0), "shallow levels stay lazy");
    assert!(fluid.is_leveled(3), "the deepest tightens to leveling");
}

#[test]
fn a_uniform_policy_holds_for_every_level() {
    for (given, held) in [(0, 1), (1, 1), (4, 4), (10, 10), (99, 10)] {
        let fluid = Fluid::uniform(given, 10);
        assert_eq!(fluid.policies(), &[held]);
        assert_eq!(fluid.policy_for(0), held);
        assert_eq!(fluid.policy_for(50), held);
    }
}
