use std::collections::HashMap;

use vectordb::workload::{
    encode_key, KeyDistribution, KeyGenerator, Operation, Rng, Workload, WorkloadSpec,
};

/// A fixed-point number in units of 2^-40.
fn fixed(value: f64) -> u64 {
    (value * 1_099_511_627_776.0).round() as u64
}

/// A draw between zero and one.
fn next_f64(rng: &mut Rng) -> f64 {
    rng.next_draw() as f64 / (1u64 << 53) as f64
}

fn zeta(n: u64, theta: f64) -> f64 {
    (1..=n).map(|i| 1.0 / (i as f64).powf(theta)).sum()
}

/// Up to which draw each of `key_count` keys takes, the hottest first, in units
/// of 2^-53.
fn zipfian_shares(theta: f64, key_count: u64) -> Vec<u64> {
    let zeta_n = zeta(key_count, theta);
    let zeta_2 = zeta(2, theta);
    let alpha = 1.0 / (1.0 - theta);
    let eta = (1.0 - (2.0 / key_count as f64).powf(1.0 - theta)) / (1.0 - zeta_2 / zeta_n);
    let key_of = |draw: u64| -> u64 {
        let u = draw as f64 / (1u64 << 53) as f64;
        let uz = u * zeta_n;
        if uz < 1.0 {
            return 0;
        }
        if uz < 1.0 + 0.5f64.powf(theta) {
            return 1;
        }
        let id = (key_count as f64 * (eta * u - eta + 1.0).powf(alpha)) as u64;
        id.min(key_count - 1)
    };
    let mut shares = Vec::new();
    let mut start = 0u64;
    for key in 1..key_count {
        let (mut low, mut high) = (start, 1u64 << 53);
        while low < high {
            let middle = low + (high - low) / 2;
            if key_of(middle) >= key {
                high = middle;
            } else {
                low = middle + 1;
            }
        }
        shares.push(low);
        start = low;
    }
    shares
}

fn zipfian(theta: f64, key_count: u64) -> KeyGenerator {
    let distribution = KeyDistribution::Zipfian { theta: fixed(theta) };
    KeyGenerator::skewed(distribution, key_count, zipfian_shares(theta, key_count))
}

fn workload(spec: WorkloadSpec) -> Workload {
    let shares = match spec.distribution {
        KeyDistribution::Zipfian { .. } => zipfian_shares(0.99, spec.key_count),
        _ => Vec::new(),
    };
    Workload::skewed(spec, shares)
}

#[test]
fn the_same_seed_gives_the_same_stream() {
    let first: Vec<u64> = (0..100)
        .scan(Rng::new(7), |r, _| Some(r.next_u64()))
        .collect();
    let second: Vec<u64> = (0..100)
        .scan(Rng::new(7), |r, _| Some(r.next_u64()))
        .collect();
    assert_eq!(first, second);

    let different: Vec<u64> = (0..100)
        .scan(Rng::new(8), |r, _| Some(r.next_u64()))
        .collect();
    assert_ne!(first, different, "different seeds must diverge");
}

#[test]
fn a_zero_seed_does_not_stick() {
    let mut rng = Rng::new(0);
    let values: Vec<u64> = (0..10).map(|_| rng.next_u64()).collect();
    assert!(
        values.iter().any(|&v| v != 0),
        "xorshift seeded at zero stays at zero forever"
    );
}

#[test]
fn floats_stay_in_the_unit_interval() {
    let mut rng = Rng::new(1);
    for _ in 0..10_000 {
        let value = next_f64(&mut rng);
        assert!((0.0..1.0).contains(&value), "{value} escaped [0, 1)");
    }
}

#[test]
fn bounded_draws_are_close_to_uniform() {
    let mut rng = Rng::new(99);
    let buckets = 10u64;
    let draws = 200_000;
    let mut counts = vec![0usize; buckets as usize];
    for _ in 0..draws {
        counts[rng.below(buckets) as usize] += 1;
    }

    let expected = draws as f64 / buckets as f64;
    for (bucket, &count) in counts.iter().enumerate() {
        let deviation = (count as f64 - expected).abs() / expected;
        assert!(
            deviation < 0.05,
            "bucket {bucket} got {count}, expected about {expected}"
        );
    }
}

#[test]
fn a_bound_of_one_or_zero_is_handled() {
    let mut rng = Rng::new(3);
    assert_eq!(rng.below(1), 0);
    assert_eq!(rng.below(0), 0);
}

#[test]
fn sequential_keys_ascend_and_wrap() {
    let mut rng = Rng::new(1);
    let mut keys = KeyGenerator::new(KeyDistribution::Sequential, 5);
    let drawn: Vec<u64> = (0..12).map(|_| keys.next(&mut rng)).collect();
    assert_eq!(drawn, vec![0, 1, 2, 3, 4, 0, 1, 2, 3, 4, 0, 1]);
}

#[test]
fn uniform_keys_cover_the_space() {
    let mut rng = Rng::new(5);
    let mut keys = KeyGenerator::new(KeyDistribution::Uniform, 1000);
    let mut seen = vec![false; 1000];
    for _ in 0..20_000 {
        seen[keys.next(&mut rng) as usize] = true;
    }
    let covered = seen.iter().filter(|&&s| s).count();
    assert!(covered > 990, "only {covered} of 1000 keys were ever drawn");
}

#[test]
fn zipfian_keys_concentrate_on_a_hot_set() {
    let mut rng = Rng::new(11);
    let key_count = 10_000u64;
    let mut keys = zipfian(0.99, key_count);

    let draws = 100_000;
    let mut counts: HashMap<u64, usize> = HashMap::new();
    for _ in 0..draws {
        *counts.entry(keys.next(&mut rng)).or_default() += 1;
    }

    let mut frequencies: Vec<usize> = counts.values().copied().collect();
    frequencies.sort_unstable_by(|a, b| b.cmp(a));

    let hot_set = (key_count as f64 * 0.01) as usize;
    let hot_traffic: usize = frequencies.iter().take(hot_set).sum();
    let share = hot_traffic as f64 / draws as f64;

    assert!(
        share > 0.25,
        "the hottest 1% of keys took only {:.1}% of traffic; that is not skewed",
        share * 100.0
    );
}

#[test]
fn zipfian_keys_stay_inside_the_key_space() {
    let mut rng = Rng::new(13);
    let key_count = 500u64;
    let mut keys = zipfian(0.8, key_count);
    for _ in 0..50_000 {
        let id = keys.next(&mut rng);
        assert!(id < key_count, "{id} is outside a {key_count}-key space");
    }
}

#[test]
fn a_higher_theta_is_more_skewed() {
    fn hot_share(theta: f64) -> f64 {
        let mut rng = Rng::new(17);
        let key_count = 5_000u64;
        let mut keys = zipfian(theta, key_count);
        let draws = 50_000;
        let mut counts: HashMap<u64, usize> = HashMap::new();
        for _ in 0..draws {
            *counts.entry(keys.next(&mut rng)).or_default() += 1;
        }
        let mut frequencies: Vec<usize> = counts.values().copied().collect();
        frequencies.sort_unstable_by(|a, b| b.cmp(a));
        frequencies.iter().take(50).sum::<usize>() as f64 / draws as f64
    }

    assert!(
        hot_share(0.99) > hot_share(0.5),
        "theta = 0.99 should concentrate more than theta = 0.5"
    );
}

#[test]
fn key_encoding_preserves_numeric_order() {
    let ids = [0u64, 1, 255, 256, 65_535, 65_536, u64::MAX / 2, u64::MAX];
    for pair in ids.windows(2) {
        assert!(
            encode_key(pair[0]) < encode_key(pair[1]),
            "{} should encode below {}",
            pair[0],
            pair[1]
        );
    }
    assert_eq!(encode_key(1).len(), 8);
}

#[test]
fn the_operation_mix_matches_the_requested_ratios() {
    let spec = WorkloadSpec {
        key_count: 1000,
        get_ratio: fixed(0.5),
        put_ratio: fixed(0.3),
        delete_ratio: fixed(0.1),
        scan_ratio: fixed(0.1),
        ..WorkloadSpec::default()
    };
    let mut workload = workload(spec);

    let draws = 100_000;
    let mut counts: HashMap<&'static str, usize> = HashMap::new();
    for _ in 0..draws {
        *counts.entry(workload.generate().kind()).or_default() += 1;
    }

    for (kind, expected) in [("get", 0.5), ("put", 0.3), ("delete", 0.1), ("scan", 0.1)] {
        let actual = counts[kind] as f64 / draws as f64;
        assert!(
            (actual - expected).abs() < 0.01,
            "{kind} was {actual:.3}, expected {expected}"
        );
    }
}

#[test]
fn ratios_are_normalised() {
    let spec = WorkloadSpec {
        get_ratio: fixed(2.0),
        put_ratio: fixed(1.0),
        delete_ratio: fixed(1.0),
        scan_ratio: fixed(0.0),
        ..WorkloadSpec::default()
    };
    let mut workload = workload(spec);

    let draws = 40_000;
    let gets = (0..draws)
        .filter(|_| workload.generate().kind() == "get")
        .count();
    let share = gets as f64 / draws as f64;
    assert!(
        (share - 0.5).abs() < 0.02,
        "gets were {share:.3}, expected 0.5"
    );
}

#[test]
fn an_empty_mix_falls_back_to_writes_rather_than_dividing_by_zero() {
    let spec = WorkloadSpec {
        get_ratio: fixed(0.0),
        put_ratio: fixed(0.0),
        delete_ratio: fixed(0.0),
        scan_ratio: fixed(0.0),
        ..WorkloadSpec::default()
    };
    let mut workload = workload(spec);
    assert_eq!(workload.generate().kind(), "put");
}

#[test]
fn a_workload_is_reproducible_from_its_seed() {
    let spec = WorkloadSpec {
        key_count: 500,
        seed: 2024,
        ..WorkloadSpec::default()
    };
    let first = workload(spec).take(1000);
    let second = workload(spec).take(1000);
    assert_eq!(first, second);

    let other = workload(WorkloadSpec { seed: 2025, ..spec }).take(1000);
    assert_ne!(first, other);
}

#[test]
fn values_are_the_requested_size() {
    let mut workload = Workload::new(WorkloadSpec::write_only(
        100,
        3840,
        KeyDistribution::Sequential,
    ));
    match workload.generate() {
        Operation::Put { value, .. } => assert_eq!(value.len(), 3840, "a GIST vector"),
        other => panic!("expected a put, got {other:?}"),
    }
}

#[test]
fn the_preset_mixes_are_what_they_claim() {
    assert_eq!(
        WorkloadSpec::write_only(10, 100, KeyDistribution::Uniform).get_ratio,
        fixed(0.0)
    );
    assert_eq!(
        WorkloadSpec::read_only(10, 100, KeyDistribution::Uniform).put_ratio,
        fixed(0.0)
    );
    assert!(WorkloadSpec::scan_heavy(10, 100, KeyDistribution::Uniform).scan_ratio > fixed(0.5));
}

#[test]
fn labels_capture_the_swept_axes() {
    let spec = WorkloadSpec {
        value_bytes: 512,
        distribution: KeyDistribution::Uniform,
        get_ratio: fixed(0.5),
        put_ratio: fixed(0.5),
        delete_ratio: fixed(0.0),
        scan_ratio: fixed(0.0),
        ..WorkloadSpec::default()
    };
    assert_eq!(spec.label(), "uniform-512B-g50p50d0s0");
}
