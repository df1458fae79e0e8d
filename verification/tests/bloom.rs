use vectordb::storage::bloom::{hash_key, MAX_HASHES};
use vectordb::storage::BloomFilter;

/// Bits of filter per key for a false-positive rate, in units of 2^-52.
fn bits(rate: f64) -> u64 {
    let ln2 = std::f64::consts::LN_2;
    let rate = rate.clamp(f64::MIN_POSITIVE, 0.999_999);
    (-rate.ln() / (ln2 * ln2) * 4_503_599_627_370_496.0).round() as u64
}

fn fill(filter: &BloomFilter) -> f64 {
    let (set, all) = filter.fill_ratio();
    set as f64 / all as f64
}

fn key(i: usize) -> Vec<u8> {
    format!("key{i:08}").into_bytes()
}

#[test]
fn never_reports_a_false_negative() {
    let count = 10_000;
    let mut filter = BloomFilter::with_capacity(count, bits(0.01));
    for i in 0..count {
        filter.insert(&key(i));
    }
    for i in 0..count {
        assert!(
            filter.may_contain(&key(i)),
            "inserted key {i} reported absent"
        );
    }
}

#[test]
fn no_false_negatives_for_awkward_keys() {
    let keys: Vec<Vec<u8>> = vec![
        Vec::new(),
        vec![0],
        vec![0, 0, 0, 0],
        vec![0xFF; 64],
        (0..=255u8).collect(),
        b"a".to_vec(),
        b"ab".to_vec(),
    ];
    let mut filter = BloomFilter::with_capacity(keys.len(), bits(0.01));
    for k in &keys {
        filter.insert(k);
    }
    for k in &keys {
        assert!(filter.may_contain(k), "key {k:?} reported absent");
    }
}

#[test]
fn measured_false_positive_rate_matches_theory() {
    let inserted = 20_000;
    let target = 0.01;

    let mut filter = BloomFilter::with_capacity(inserted, bits(target));
    for i in 0..inserted {
        filter.insert(&key(i));
    }

    let probes = 100_000;
    let false_positives = (0..probes)
        .filter(|i| filter.may_contain(format!("absent{i:08}").as_bytes()))
        .count();
    let measured = false_positives as f64 / probes as f64;

    assert!(
        measured < target * 2.0,
        "measured false-positive rate {measured:.4} is far above the {target} target \
         (fill ratio {:.3}, {} hashes) (are the two derived hashes correlated?)",
        fill(&filter),
        filter.num_hashes(),
    );
    assert!(
        measured > target / 10.0,
        "measured rate {measured:.5} is implausibly low; check the sizing maths"
    );
}

#[test]
fn sizing_follows_the_standard_formulas() {
    let filter = BloomFilter::with_capacity(1000, bits(0.01));
    let bits_per_key = filter.num_bits() as f64 / 1000.0;
    assert!(
        (9.0..=10.5).contains(&bits_per_key),
        "expected ~9.6 bits per key, got {bits_per_key:.2}"
    );
    assert_eq!(filter.num_hashes(), 7);

    let tighter = BloomFilter::with_capacity(1000, bits(0.001));
    assert!(tighter.num_bits() > filter.num_bits());
    assert!(tighter.num_hashes() > filter.num_hashes());
}

#[test]
fn fill_ratio_lands_near_one_half_when_correctly_sized() {
    let count = 10_000;
    let mut filter = BloomFilter::with_capacity(count, bits(0.01));
    for i in 0..count {
        filter.insert(&key(i));
    }
    let ratio = fill(&filter);
    assert!(
        (0.4..=0.6).contains(&ratio),
        "fill ratio {ratio:.3} is not near the expected 0.5"
    );
}

#[test]
fn round_trips_through_encoding() {
    let mut filter = BloomFilter::with_capacity(500, bits(0.01));
    for i in 0..500 {
        filter.insert(&key(i));
    }

    let decoded = BloomFilter::decode(&filter.encode()).expect("decode");
    assert_eq!(decoded, filter);
    for i in 0..500 {
        assert!(decoded.may_contain(&key(i)));
    }
}

#[test]
fn rejects_malformed_encodings() {
    assert!(BloomFilter::decode(&[]).is_err());
    assert!(BloomFilter::decode(&[0, 0, 0]).is_err());

    let mut bytes = 800u32.to_le_bytes().to_vec();
    bytes.extend_from_slice(&7u32.to_le_bytes());
    bytes.extend_from_slice(&[0u8; 8]);
    assert!(BloomFilter::decode(&bytes).is_err());
}

#[test]
fn an_empty_filter_rejects_everything() {
    let filter = BloomFilter::with_capacity(0, bits(0.01));
    assert!(!filter.may_contain(b"anything"));
    assert!(!filter.may_contain(b""));
}

#[test]
fn extreme_rates_do_not_produce_a_degenerate_filter() {
    for rate in [0.0, 1.0, 0.5, 1e-9] {
        let filter = BloomFilter::with_capacity(100, bits(rate));
        assert!(filter.num_bits() > 0);
        assert!(filter.num_bits() % 8 == 0);
        assert!((1..=MAX_HASHES).contains(&filter.num_hashes()));
    }
}

#[test]
fn hash_halves_are_independent() {
    let hashes: Vec<u64> = (0..2000).map(|i| hash_key(&key(i))).collect();

    let high_bits_set: u32 = hashes.iter().map(|h| (h >> 32).count_ones()).sum();
    let expected = 2000 * 16;
    let deviation = (high_bits_set as i64 - expected as i64).abs();
    assert!(
        deviation < 800,
        "high 32 bits are poorly distributed: {high_bits_set} set vs {expected} expected"
    );

    let a = hash_key(b"key00000001");
    let b = hash_key(b"key00000002");
    let differing = (a ^ b).count_ones();
    assert!(
        (16..=48).contains(&differing),
        "avalanche is weak: only {differing} of 64 bits changed"
    );
}

#[test]
fn filters_have_the_size_that_the_formula_gives() {
    let ln2 = std::f64::consts::LN_2;
    for rate in [0.5, 0.1, 0.05, 0.01, 0.003, 0.001, 1e-6, 0.9] {
        for entries in (0..3000usize).chain([10_000, 123_457, 1_000_003]) {
            let filter = BloomFilter::with_capacity(entries, bits(rate));
            let n = entries.max(1) as f64;
            let wanted = (-n * f64::ln(rate) / (ln2 * ln2)).ceil();
            let num_bits = (wanted.max(8.0) as u32).div_ceil(8) * 8;
            let num_hashes = ((num_bits as f64 / n * ln2).round() as u32).clamp(1, MAX_HASHES);
            assert_eq!(filter.num_bits(), num_bits, "{entries} at {rate}");
            assert_eq!(filter.num_hashes(), num_hashes, "{entries} at {rate}");
        }
    }
}
