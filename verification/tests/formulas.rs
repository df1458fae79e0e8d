use vectordb::storage::compaction::{
    propagate_monkey, propagate_uniform, EcoTuneConfig, EcoTunePolicy, Lerp, LerpConfig, Mission,
};
use vectordb::storage::growth::{
    binomial, saturating_geometric, GrowthScheme, HorizontalLeveling, HorizontalTiering, Vertical,
};
use vectordb::storage::shape::{LevelShape, TreeShape};
use vectordb::workload::{
    encode_key, KeyDistribution, KeyGenerator, Operation, Rng, Workload, WorkloadSpec,
};

const UNIT: u64 = 1 << 40;

#[test]
fn the_generator_gives_known_numbers() {
    let mut rng = Rng::new(1);
    assert_eq!(rng.next_u64(), 5_180_492_295_206_395_165);
    assert_eq!(rng.next_u64(), 12_380_297_144_915_551_517);
    assert_eq!(rng.next_u64(), 13_389_498_078_930_870_103);
    assert_eq!(Rng::new(0).next_u64(), 973_819_730_272_012_410);
    let mut rng = Rng::new(42);
    assert_eq!(rng.next_draw(), 3_054_208_537_211_764);
    assert_eq!(rng.next_draw(), 7_045_934_290_401_125);
    let mut rng = Rng::new(42);
    let draws: Vec<u64> = (0..6).map(|_| rng.below(10)).collect();
    assert_eq!(draws, vec![0, 8, 6, 5, 8, 5]);
    assert_eq!(rng.below(0), 0);
}

#[test]
fn a_bounded_draw_is_the_first_that_is_accepted() {
    for bound in [1u64, 3, 1 << 40, (1 << 63) + 1, u64::MAX / 3 * 2, u64::MAX] {
        let limit = u64::MAX - u64::MAX % bound;
        let mut rng = Rng::new(77);
        let mut copy = Rng::new(77);
        let mut refused = 0;
        for _ in 0..50 {
            let mut number = copy.next_u64();
            while number >= limit {
                refused += 1;
                number = copy.next_u64();
            }
            assert_eq!(rng.below(bound), number % bound);
        }
        assert_eq!(rng.next_u64(), copy.next_u64(), "as many numbers were used up");
        assert_eq!(refused > 0, bound == (1 << 63) + 1 || bound == u64::MAX / 3 * 2);
    }
}

#[test]
fn keys_follow_their_distribution() {
    let mut rng = Rng::new(9);
    let mut sequential = KeyGenerator::new(KeyDistribution::Sequential, 3);
    let ids: Vec<u64> = (0..7).map(|_| sequential.next(&mut rng)).collect();
    assert_eq!(ids, vec![0, 1, 2, 0, 1, 2, 0]);
    assert_eq!(KeyGenerator::new(KeyDistribution::Uniform, 0).key_count(), 1);

    let half = 1u64 << 52;
    let skewed = KeyDistribution::Zipfian { theta: UNIT / 2 };
    let mut generator = KeyGenerator::skewed(skewed, 3, vec![half, half + half / 2]);
    let mut draws = Rng::new(5);
    let mut copy = Rng::new(5);
    for _ in 0..100 {
        let draw = copy.next_draw();
        let id = generator.next(&mut draws);
        let expected = if draw < half {
            0
        } else if draw < half + half / 2 {
            1
        } else {
            2
        };
        assert_eq!(id, expected);
    }
    assert_eq!(encode_key(258), vec![0, 0, 0, 0, 0, 0, 1, 2]);
}

#[test]
fn a_workload_is_known_from_its_seed() {
    let spec = WorkloadSpec {
        key_count: 100,
        value_bytes: 2,
        distribution: KeyDistribution::Uniform,
        get_ratio: 5 * UNIT,
        put_ratio: 3 * UNIT,
        delete_ratio: UNIT,
        scan_ratio: UNIT,
        scan_length: 9,
        seed: 42,
    };
    let operations = Workload::new(spec).take(6);
    assert_eq!(
        operations,
        vec![
            Operation::Put { key: encode_key(0), value: vec![0xAB; 2] },
            Operation::Scan { key: encode_key(46), length: 9 },
            Operation::Delete { key: encode_key(78) },
            Operation::Get { key: encode_key(62) },
            Operation::Put { key: encode_key(36), value: vec![0xAB; 2] },
            Operation::Get { key: encode_key(17) },
        ]
    );
    assert_eq!(operations[1].kind(), "scan");
    assert_eq!(spec.label(), "uniform-2B-g500p300d100s100");

    let none = WorkloadSpec { get_ratio: 0, put_ratio: 0, delete_ratio: 0, scan_ratio: 0, ..spec };
    for operation in Workload::new(none).take(20) {
        assert_eq!(operation.kind(), "put");
    }
}

#[test]
fn speeds_and_scores_are_what_the_cost_says() {
    let config = EcoTuneConfig {
        runs_per_round: 1,
        last_level_ratio: 2,
        tm_interval: UNIT,
        rewrite_time: UNIT / 4,
        long_range_ratio: UNIT / 2,
        false_positive_rate: 0,
        mlc_query_factor: UNIT / 2,
    };
    // The cost is (e + 2) / 2 + 1 / 2.
    assert_eq!(config.query_speed(1), UNIT / 2);
    assert_eq!(config.query_speed(5), UNIT / 4);
    assert_eq!(config.mlc_query_speed(1), UNIT / 4);
    // The last run of a round: it and two units more are rewritten.
    let policy = EcoTunePolicy::solve(config);
    let speed = config.query_speed(0) as i128;
    let merging = config.mlc_query_speed(0) as i128;
    let decision = policy.decision(0, 1, 2).expect("the round");
    assert_eq!(decision.score, 3 * (UNIT as i128 / 4) * merging);
    assert!(policy.score() >= decision.score);
    assert_eq!(speed, UNIT as i128 * 2 / 3);
    assert!(policy.chosen_merges().is_empty());
}

#[test]
fn exploration_decays_by_its_factor() {
    let mut lerp = Lerp::new(LerpConfig::default());
    assert_eq!(lerp.exploration(), 549_755_813_888);
    let policy = lerp.observe(Mission { read_ratio: UNIT / 2, latency: 3 * UNIT });
    assert_eq!(lerp.policy(), policy);
    assert_eq!(lerp.missions(), 1);
    assert_eq!(lerp.exploration(), 533_263_139_471);
    assert_eq!(lerp.policies(3), vec![policy; 3]);
}

#[test]
fn policies_propagate_by_their_formulas() {
    assert_eq!(propagate_uniform(4, 3), vec![4, 4, 4]);
    assert_eq!(propagate_uniform(4, 0), Vec::<usize>::new());
    let monkey = propagate_monkey(4, 2, 4, 5);
    assert_eq!(monkey.len(), 5);
    for pair in monkey.windows(2) {
        assert!(pair[1] <= pair[0], "a policy rose: {monkey:?}");
    }
}

#[test]
fn capacities_grow_by_the_ratio() {
    let growth = Vertical::new(1000, 10);
    let capacities: Vec<u64> = (0..4).map(|level| growth.level_capacity_bytes(level)).collect();
    assert_eq!(capacities, vec![10_000, 100_000, 1_000_000, 10_000_000]);
    assert_eq!(saturating_geometric(3, 2, 4), 48);
    assert_eq!(saturating_geometric(3, 2, 100), u64::MAX);
    assert_eq!(binomial(10, 3), 120);
    assert_eq!(binomial(3, 10), 0);
    assert_eq!(binomial(200, 100), u64::MAX);
}

fn full_tree(levels: usize) -> TreeShape {
    TreeShape {
        levels: (0..levels).map(|_| LevelShape::from_sizes(&[1024])).collect(),
    }
}

#[test]
fn counters_that_count_up_tell_the_flushes() {
    for levels in 2..=4usize {
        let tree = full_tree(levels);
        let mut scheme = HorizontalLeveling::new(levels);
        for flush in 1..=200u64 {
            scheme.note_flush();
            while scheme.next_compaction(&tree).is_some() {}
            let told: u64 = scheme
                .counters()
                .iter()
                .enumerate()
                .map(|(i, &count)| binomial(count + i as u64, i as u64 + 1))
                .sum();
            assert_eq!(told, flush, "{:?}", scheme.counters());
        }
    }
}

#[test]
fn counters_that_count_down_last_as_long_as_they_allow() {
    for (levels, k) in [(2usize, 3u64), (3, 4), (4, 3), (5, 2)] {
        let tree = full_tree(levels);
        let mut scheme = HorizontalTiering::new(levels, 1, 1);
        scheme.counters = vec![k; levels];
        scheme.k = k;
        let flushes = binomial(k + levels as u64 - 1, levels as u64);
        for flush in 1..=flushes {
            scheme.note_flush();
            while scheme.next_compaction(&tree).is_some() {}
            let run_out = scheme.counters().iter().all(|&count| count == 0);
            assert_eq!(run_out, flush == flushes, "flush {flush} of {flushes}");
        }
    }
}
