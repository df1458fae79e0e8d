use vectordb::storage::compaction::{EcoTuneConfig, EcoTunePolicy};

/// A fixed-point number in units of 2^-40.
fn fixed(value: f64) -> u64 {
    (value * 1_099_511_627_776.0).round() as u64
}

/// The number that a fixed-point number stands for.
fn plain(value: u64) -> f64 {
    value as f64 / 1_099_511_627_776.0
}

/// The number of queries that a score stands for.
fn queries(score: i128) -> f64 {
    score as f64 / (1_099_511_627_776.0 * 1_099_511_627_776.0)
}

fn config() -> EcoTuneConfig {
    EcoTuneConfig::default()
}

#[test]
fn query_speed_matches_the_formula() {
    let config = EcoTuneConfig {
        long_range_ratio: fixed(0.5),
        false_positive_rate: fixed(0.02),
        ..config()
    };
    let expected = 1.0 / (5.0 * 0.5 + 0.5 * 1.02);
    assert!((plain(config.query_speed(3)) - expected).abs() < 1e-12);
}

#[test]
fn query_speed_falls_as_runs_accumulate() {
    let config = config();
    let speeds: Vec<f64> = (0..10).map(|e| plain(config.query_speed(e))).collect();
    assert!(
        speeds.windows(2).all(|pair| pair[1] < pair[0]),
        "query speed must strictly decrease in the run count: {speeds:?}"
    );
}

#[test]
fn without_range_scans_the_run_count_is_irrelevant() {
    let config = EcoTuneConfig {
        long_range_ratio: fixed(0.0),
        ..config()
    };
    assert!((plain(config.query_speed(1)) - plain(config.query_speed(50))).abs() < 1e-12);
}

#[test]
fn the_merge_query_speed_is_scaled_by_beta() {
    let config = EcoTuneConfig {
        mlc_query_factor: fixed(0.25),
        ..config()
    };
    assert!((plain(config.mlc_query_speed(4)) - 0.25 * plain(config.query_speed(4))).abs() < 1e-12);
}

#[test]
fn the_base_case_matches_the_paper() {
    let config = config();
    let policy = EcoTunePolicy::solve(config);
    let expected = 6.0 * plain(config.rewrite_time) * plain(config.mlc_query_speed(2));
    let score = queries(policy.decision(2, 1, 5).expect("a decision").score);
    assert!((score - expected).abs() < 1e-12);
}

#[test]
fn the_root_problem_accounts_for_the_global_compaction() {
    let config = EcoTuneConfig {
        runs_per_round: 7,
        last_level_ratio: 3,
        ..config()
    };
    let policy = EcoTunePolicy::solve(config);
    assert!(
        policy.decision(0, 7, 21).is_some(),
        "the round is the problem (0, 7, 21)"
    );
}

#[test]
fn the_pending_parameter_threads_through_as_in_figure_six() {
    let config = EcoTuneConfig {
        runs_per_round: 7,
        last_level_ratio: 3,
        ..config()
    };
    let policy = EcoTunePolicy::solve(config);

    let root = policy.decision(0, 7, 21).expect("root");
    let x = root.merge_width;
    let expected_right = if x == 1 {
        (1, 6, 22)
    } else {
        (1, 7 - x, 21 + x)
    };
    assert!(
        policy.decision(expected_right.0, expected_right.1, expected_right.2).is_some(),
        "expected the right sub-problem {expected_right:?} to have been solved"
    );
}

#[test]
fn the_score_is_positive_and_finite() {
    let policy = EcoTunePolicy::solve(config());
    assert!(queries(policy.score()).is_finite());
    assert!(queries(policy.score()) > 0.0);
}

#[test]
fn the_optimum_beats_never_merging() {
    let config = config();
    let policy = EcoTunePolicy::solve(config);

    let runs = config.runs_per_round;
    let mut lazy = plain(config.tm_interval) * plain(config.query_speed(0));
    for e in 1..runs {
        lazy += plain(config.tm_interval) * plain(config.query_speed(e));
    }
    lazy += (config.last_level_ratio * runs + runs) as f64
        * plain(config.rewrite_time)
        * plain(config.mlc_query_speed(runs - 1));

    assert!(
        queries(policy.score()) >= lazy - 1e-9,
        "optimal {} should be at least the lazy policy's {lazy}",
        queries(policy.score())
    );
}

#[test]
fn merge_frequency_decreases_through_the_round() {
    let config = EcoTuneConfig {
        runs_per_round: 12,
        long_range_ratio: fixed(0.02),
        rewrite_time: fixed(0.02),
        ..config()
    };
    let policy = EcoTunePolicy::solve(config);
    let chosen = policy.chosen_merges();
    assert!(chosen.len() >= 3, "expected several merges: {chosen:?}");

    let mut gaps = Vec::new();
    let mut previous = 0usize;
    for merge in &chosen {
        gaps.push(merge.after_unit_runs - previous);
        previous = merge.after_unit_runs;
    }

    assert!(
        gaps.windows(2).all(|pair| pair[1] >= pair[0]),
        "the policy should get lazier, so gaps must never shrink: {gaps:?} \
         from {chosen:?}"
    );
    assert!(
        gaps.last() > gaps.first(),
        "the policy must actually slow down over the round: {gaps:?}"
    );
}

#[test]
fn cheap_merges_and_heavy_scans_rediscover_leveling() {
    let config = EcoTuneConfig {
        runs_per_round: 10,
        long_range_ratio: fixed(0.6),
        rewrite_time: fixed(0.001),
        ..config()
    };
    let chosen = EcoTunePolicy::solve(config).chosen_merges();

    assert_eq!(
        chosen.len(),
        config.runs_per_round - 2,
        "a merge at every opportunity: {chosen:?}"
    );
    assert!(
        chosen
            .iter()
            .all(|merge| merge.width == merge.after_unit_runs),
        "each merge should absorb everything so far, keeping one run: {chosen:?}"
    );
}

#[test]
fn range_heavy_workloads_merge_at_least_as_much() {
    let scan_heavy = EcoTunePolicy::solve(EcoTuneConfig {
        runs_per_round: 10,
        long_range_ratio: fixed(0.9),
        ..config()
    });
    let point_heavy = EcoTunePolicy::solve(EcoTuneConfig {
        runs_per_round: 10,
        long_range_ratio: fixed(0.02),
        ..config()
    });

    let merged = |policy: &EcoTunePolicy| -> usize {
        policy.schedule().iter().map(|merge| merge.width).sum()
    };
    assert!(
        merged(&scan_heavy) >= merged(&point_heavy),
        "scan-heavy merged {} units, point-heavy {}",
        merged(&scan_heavy),
        merged(&point_heavy)
    );
}

#[test]
fn expensive_merges_are_declined() {
    let cheap = EcoTunePolicy::solve(EcoTuneConfig {
        runs_per_round: 10,
        rewrite_time: fixed(0.001),
        long_range_ratio: fixed(0.8),
        ..config()
    });
    let ruinous = EcoTunePolicy::solve(EcoTuneConfig {
        runs_per_round: 10,
        rewrite_time: fixed(5.0),
        long_range_ratio: fixed(0.8),
        ..config()
    });

    let widest = |policy: &EcoTunePolicy| -> usize {
        policy
            .schedule()
            .iter()
            .map(|merge| merge.width)
            .max()
            .unwrap_or(0)
    };
    assert!(
        widest(&ruinous) <= widest(&cheap),
        "a ruinous rewrite cost should not merge more widely than a cheap one"
    );
}

#[test]
fn a_single_run_round_is_handled() {
    let policy = EcoTunePolicy::solve(EcoTuneConfig {
        runs_per_round: 1,
        ..config()
    });
    assert!(queries(policy.score()).is_finite());
    let schedule = policy.schedule();
    assert_eq!(schedule.len(), 1, "just the round-ending merge: {schedule:?}");
}

#[test]
fn the_schedule_is_internally_consistent() {
    for runs in [2usize, 5, 9, 14] {
        let policy = EcoTunePolicy::solve(EcoTuneConfig {
            runs_per_round: runs,
            ..config()
        });
        let schedule = policy.schedule();

        assert!(
            schedule
                .windows(2)
                .all(|pair| pair[0].after_unit_runs <= pair[1].after_unit_runs),
            "the timeline must be ordered: {schedule:?}"
        );
        for merge in &schedule {
            assert!(merge.width >= 1);
            assert!(
                merge.after_unit_runs <= runs,
                "a merge cannot happen after more runs than the round creates: \
                 {merge:?} with R = {runs}"
            );
        }
    }
}

#[test]
fn a_large_round_solves_quickly() {
    let policy = EcoTunePolicy::solve(EcoTuneConfig {
        runs_per_round: 40,
        last_level_ratio: 4,
        ..config()
    });
    assert!(queries(policy.score()).is_finite());
    assert!(!policy.schedule().is_empty());
}

#[test]
fn a_last_level_may_be_many_rounds_large() {
    let config = EcoTuneConfig { last_level_ratio: 100_000, ..config() };
    let policy = EcoTunePolicy::solve(config);
    let merges = policy.schedule();
    let last = merges.last().expect("a merge");
    assert!(last.is_global);
    assert_eq!(last.after_unit_runs, 8);
    assert_eq!(last.width, 800_008);
}
