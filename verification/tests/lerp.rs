use vectordb::storage::compaction::{Lerp, LerpConfig, Mission, Policy};

/// A fixed-point number in units of 2^-40.
fn fixed(value: f64) -> u64 {
    (value * 1_099_511_627_776.0).round() as u64
}

/// The number that a fixed-point number stands for.
fn plain(value: u64) -> f64 {
    value as f64 / 1_099_511_627_776.0
}

fn latency(policy: Policy, read_ratio: f64, size_ratio: usize) -> f64 {
    let k = policy as f64;
    read_ratio * k + (1.0 - read_ratio) * size_ratio as f64 / k
}

fn optimal(read_ratio: f64, size_ratio: usize) -> Policy {
    if read_ratio <= 0.0 {
        return size_ratio;
    }
    let exact = ((1.0 - read_ratio) * size_ratio as f64 / read_ratio).sqrt();
    (exact.round() as usize).clamp(1, size_ratio)
}

fn converge(read_ratio: f64, missions: usize, config: LerpConfig) -> (Lerp, Policy) {
    let mut lerp = Lerp::new(config);
    let mut policy = lerp.policy();
    for _ in 0..missions {
        let observed = latency(policy, read_ratio, config.size_ratio);
        policy = lerp.observe(Mission {
            read_ratio: fixed(read_ratio),
            latency: fixed(observed),
        });
    }
    (lerp, policy)
}

#[test]
fn the_cost_model_has_the_optimum_it_claims() {
    for &ratio in &[0.1f64, 0.3, 0.5, 0.9] {
        let best = optimal(ratio, 10);
        let cost = latency(best, ratio, 10);
        for k in 1..=10 {
            assert!(
                latency(k, ratio, 10) >= cost - 1e-9,
                "K={k} beats the analytic optimum {best} at {ratio}"
            );
        }
    }
}

#[test]
fn a_write_heavy_workload_learns_to_compact_lazily() {
    let config = LerpConfig::default();
    let (_, policy) = converge(0.1, 400, config);
    let want = optimal(0.1, config.size_ratio);
    assert!(
        policy >= want - 1,
        "expected a lazy policy near {want}, settled at {policy}"
    );
}

#[test]
fn a_read_heavy_workload_learns_to_compact_aggressively() {
    let config = LerpConfig::default();
    let (_, policy) = converge(0.9, 400, config);
    let want = optimal(0.9, config.size_ratio);
    assert!(
        policy <= want + 1,
        "expected an aggressive policy near {want}, settled at {policy}"
    );
}

#[test]
fn the_two_extremes_settle_in_different_places() {
    let config = LerpConfig::default();
    let (_, write_heavy) = converge(0.1, 400, config);
    let (_, read_heavy) = converge(0.9, 400, config);
    assert!(
        write_heavy > read_heavy,
        "write-heavy settled at {write_heavy}, read-heavy at {read_heavy}; \
         the learner is not responding to the workload"
    );
}

#[test]
fn the_learner_follows_a_shifting_workload() {
    let config = LerpConfig::default();
    let mut lerp = Lerp::new(config);
    let mut policy = lerp.policy();

    let run = |lerp: &mut Lerp, policy: &mut Policy, ratio: f64, missions: usize| {
        for _ in 0..missions {
            let observed = latency(*policy, ratio, config.size_ratio);
            *policy = lerp.observe(Mission {
                read_ratio: fixed(ratio),
                latency: fixed(observed),
            });
        }
        *policy
    };

    let after_writes = run(&mut lerp, &mut policy, 0.1, 300);
    let after_reads = run(&mut lerp, &mut policy, 0.9, 300);
    let after_writes_again = run(&mut lerp, &mut policy, 0.1, 300);

    assert!(
        after_reads < after_writes,
        "shifting to reads should tighten the policy: {after_writes} to {after_reads}"
    );
    assert!(
        after_writes_again > after_reads,
        "shifting back to writes should loosen it again: {after_reads} to {after_writes_again}"
    );
}

#[test]
fn a_state_is_remembered_across_a_workload_shift() {
    let config = LerpConfig {
        exploration: fixed(0.0),
        min_exploration: fixed(0.0),
        ..Default::default()
    };
    let (mut lerp, settled) = converge(0.9, 300, config);

    lerp.observe(Mission {
        read_ratio: fixed(0.1),
        latency: fixed(latency(lerp.policy(), 0.1, config.size_ratio)),
    });
    let returned = lerp.observe(Mission {
        read_ratio: fixed(0.9),
        latency: fixed(latency(lerp.policy(), 0.9, config.size_ratio)),
    });
    assert!(
        returned.abs_diff(settled) <= 1,
        "returning to a known workload jumped from {settled} to {returned}"
    );
}

#[test]
fn the_policy_moves_by_at_most_one_per_mission() {
    let config = LerpConfig {
        exploration: fixed(1.0),
        min_exploration: fixed(1.0),
        initial_policy: 5,
        ..Default::default()
    };
    let mut lerp = Lerp::new(config);
    let mut policy = lerp.policy();
    for _ in 0..500 {
        let next = lerp.observe(Mission {
            read_ratio: fixed(0.5),
            latency: fixed(latency(policy, 0.5, config.size_ratio)),
        });
        assert!(
            next.abs_diff(policy) <= 1,
            "policy jumped {policy} to {next}"
        );
        policy = next;
    }
}

#[test]
fn the_policy_stays_within_one_and_the_size_ratio() {
    let config = LerpConfig {
        exploration: fixed(1.0),
        min_exploration: fixed(1.0),
        size_ratio: 6,
        ..Default::default()
    };
    let mut lerp = Lerp::new(config);
    for _ in 0..1000 {
        let policy = lerp.observe(Mission {
            read_ratio: fixed(0.5),
            latency: fixed(1.0),
        });
        assert!((1..=6).contains(&policy), "policy {policy} out of range");
    }
}

#[test]
fn exploration_decays_to_its_floor_and_stops() {
    let config = LerpConfig::default();
    let (lerp, _) = converge(0.5, 1000, config);
    assert!(
        (plain(lerp.exploration()) - plain(config.min_exploration)).abs() < 1e-9,
        "exploration should rest at its floor, got {}",
        lerp.exploration()
    );
}

#[test]
fn exploration_never_reaches_zero() {
    let config = LerpConfig::default();
    let (lerp, _) = converge(0.5, 5000, config);
    assert!(plain(lerp.exploration()) > 0.0);
}

#[test]
fn learning_is_reproducible_from_a_seed() {
    let config = LerpConfig::default();
    let (_, first) = converge(0.3, 200, config);
    let (_, second) = converge(0.3, 200, config);
    assert_eq!(first, second);

    let (_, other_seed) = converge(0.3, 200, LerpConfig { seed: 99, ..config });
    assert!((1..=config.size_ratio).contains(&other_seed));
}

#[test]
fn the_learned_policy_propagates_to_every_level() {
    let config = LerpConfig::default();
    let (lerp, policy) = converge(0.5, 200, config);
    assert_eq!(lerp.policies(4), vec![policy; 4]);
}

#[test]
fn missions_are_counted() {
    let config = LerpConfig::default();
    let (lerp, _) = converge(0.5, 37, config);
    assert_eq!(lerp.missions(), 37);
}

#[test]
fn degenerate_configurations_are_handled() {
    let mut lerp = Lerp::new(LerpConfig {
        size_ratio: 1,
        ..Default::default()
    });
    assert_eq!(
        lerp.observe(Mission {
            read_ratio: fixed(0.5),
            latency: fixed(1.0)
        }),
        1
    );
    let lerp = Lerp::new(LerpConfig {
        size_ratio: 4,
        initial_policy: 99,
        ..Default::default()
    });
    assert_eq!(lerp.policy(), 4);
}

#[test]
fn long_latencies_are_learned_from_like_short_ones() {
    let config = LerpConfig::default();
    let settle = |read_ratio: f64| {
        let mut lerp = Lerp::new(config);
        let mut policy = lerp.policy();
        for _ in 0..400 {
            let observed = latency(policy, read_ratio, config.size_ratio);
            policy = lerp.observe(Mission {
                read_ratio: fixed(read_ratio),
                latency: fixed(observed) << 17,
            });
        }
        policy
    };
    assert!(settle(0.1) >= optimal(0.1, config.size_ratio) - 1);
    assert!(settle(0.9) <= optimal(0.9, config.size_ratio) + 1);
}
