use vectordb::storage::compaction::{propagate_monkey, propagate_uniform};

#[test]
fn uniform_repeats_the_learned_policy() {
    assert_eq!(propagate_uniform(5, 4), vec![5, 5, 5, 5]);
    assert_eq!(propagate_uniform(1, 3), vec![1, 1, 1]);
}

#[test]
fn uniform_never_emits_an_invalid_policy() {
    assert_eq!(propagate_uniform(0, 2), vec![1, 1]);
}

#[test]
fn monkey_reproduces_the_papers_worked_example() {
    let policies = propagate_monkey(9, 7, 10, 4);
    assert_eq!(policies, vec![9, 7, 3, 1], "the worked example gives 9, 7, about 3, about 1");
}

#[test]
fn the_unrounded_values_match_the_papers_arithmetic() {
    let inner: f64 = 1.0 / 49.0 + 10.0 * (1.0 / 49.0 - 1.0 / 81.0);
    let k3 = 1.0 / inner.sqrt();
    assert!(
        (k3 - 3.146).abs() < 0.01,
        "expected about 3.15 before rounding, got {k3:.3}"
    );

    let inner: f64 = 1.0 / 9.0 + 10.0 * (1.0 / 9.0 - 1.0 / 49.0);
    let k4 = 1.0 / inner.sqrt();
    assert!(
        (k4 - 0.991).abs() < 0.01,
        "expected about 0.99 before clamping, got {k4:.3}"
    );
}

#[test]
fn policies_never_increase_with_depth() {
    for (one, two) in [(10usize, 9usize), (8, 5), (6, 6), (4, 2)] {
        let policies = propagate_monkey(one, two, 10, 6);
        for pair in policies.windows(2) {
            assert!(
                pair[1] <= pair[0],
                "policies rose with depth: {policies:?} from ({one}, {two})"
            );
        }
    }
}

#[test]
fn policies_stay_within_one_and_the_size_ratio() {
    for ratio in [2usize, 4, 10, 16] {
        for one in 1..=ratio {
            for two in 1..=one {
                let policies = propagate_monkey(one, two, ratio, 8);
                for &k in &policies {
                    assert!(
                        (1..=ratio).contains(&k),
                        "policy {k} outside [1, {ratio}] from ({one}, {two})"
                    );
                }
            }
        }
    }
}

#[test]
fn equal_inputs_hold_the_policy_flat() {
    let policies = propagate_monkey(6, 6, 10, 5);
    assert_eq!(policies, vec![6, 6, 6, 6, 6]);
}

#[test]
fn a_steep_drop_bottoms_out_at_leveling() {
    let policies = propagate_monkey(10, 2, 10, 6);
    assert_eq!(policies[0], 10);
    assert_eq!(policies[1], 2);
    assert!(
        policies[2..].iter().all(|&k| k == 1),
        "should saturate at leveling: {policies:?}"
    );
}

#[test]
fn an_increasing_pair_saturates_rather_than_producing_nonsense() {
    let policies = propagate_monkey(3, 9, 10, 5);
    assert_eq!(policies[0], 3);
    assert_eq!(policies[1], 9);
    assert!(policies[2..].iter().all(|&k| k == 1), "{policies:?}");
}

#[test]
fn degenerate_inputs_are_handled() {
    assert!(propagate_monkey(5, 3, 10, 0).is_empty());
    assert_eq!(propagate_monkey(5, 3, 10, 1), vec![5]);
    assert_eq!(propagate_monkey(5, 3, 10, 2), vec![5, 3]);
    assert_eq!(propagate_monkey(5, 3, 1, 3), vec![1, 1, 1]);
}

#[test]
fn any_size_ratio_is_accepted() {
    let most = usize::MAX;
    assert_eq!(propagate_monkey(most, most, most, 4), vec![most; 4]);
    assert_eq!(propagate_monkey(most, most - 1, most, 3)[2], 10_650_232_656_628_343_400);
    assert_eq!(propagate_monkey(most, 1 << 63, most, 3)[2], 2_479_700_525);
    assert_eq!(
        propagate_monkey(1_000_000_000_000, 999_999_999_999, 1_000_000_000_000_000, 3)[2],
        22_355_091_700
    );
    assert_eq!(propagate_monkey(1_000_000, 999_999, 1_000_000, 3)[2], 577_350);
    assert_eq!(propagate_monkey(1, most, most, 4), vec![1, most, 1, 1]);
    assert_eq!(propagate_monkey(5, 5, 0, 3), vec![1, 1, 1]);
}
