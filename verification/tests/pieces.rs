use vectordb::storage::coalesce::coalesce_disjoint_runs;
use vectordb::storage::codec::{push_u32, push_u64, read_u32, read_u64};
use vectordb::storage::compaction::{
    all_files, newest_runs_by_units, CompactionJob, EcoTuneConfig, LevelFiles, RunFiles,
};
use vectordb::storage::config::{Growth, Merge};
use vectordb::storage::execute::{count_units, gather, list_levels, rebuild, shape_levels};
use vectordb::storage::growth::{CompactionRequest, Granularity, GrowthScheme, HorizontalPolicy};
use vectordb::storage::manifest::table_filename;
use vectordb::storage::order::{compare_keys, key_before, same_bytes, KeyOrder};
use vectordb::storage::reader::Probe;
use vectordb::storage::run::{write_run, NamedTable, Run, TableOptions};
use vectordb::storage::shape::{LevelShape, TreeShape};
use vectordb::storage::text::{chars_of, find_lines, find_words, push_number, read_number};
use vectordb::storage::{
    BloomFilter, GrowthKind, Key, LsmConfig, LsmTree, MergeIterator, MergeKind, SSTable,
    SSTableWriter, Value,
};

fn put(bytes: &[u8]) -> Value {
    Value::Put(bytes.to_vec())
}

fn run_of(sequence: u64, units: usize, keys: &[&str]) -> Run {
    let options = TableOptions {
        block_target_bytes: 64,
        bloom_bits_per_key: 0,
        target_file_size_bytes: 4,
    };
    let entries: Vec<(Key, Value)> = keys
        .iter()
        .map(|key| (key.as_bytes().to_vec(), put(&sequence.to_le_bytes())))
        .collect();
    write_run(options, 1, sequence, units, &entries)
        .expect("write")
        .expect("a run")
}

#[test]
fn integers_are_little_endian() {
    let mut bytes = Vec::new();
    push_u32(&mut bytes, 0x0102_0304);
    push_u64(&mut bytes, 0x1112_1314_1516_1718);
    assert_eq!(
        bytes,
        vec![4, 3, 2, 1, 0x18, 0x17, 0x16, 0x15, 0x14, 0x13, 0x12, 0x11]
    );
    assert_eq!(read_u32(&bytes, 0), 0x0102_0304);
    assert_eq!(read_u64(&bytes, 4), 0x1112_1314_1516_1718);
}

#[test]
fn keys_compare_as_byte_strings() {
    assert_eq!(compare_keys(b"a", b"ab"), KeyOrder::Less);
    assert_eq!(compare_keys(b"b", b"ab"), KeyOrder::Greater);
    assert_eq!(compare_keys(&[255], &[1, 2, 3]), KeyOrder::Greater);
    assert_eq!(compare_keys(b"same", b"same"), KeyOrder::Equal);
    assert!(key_before(b"", b"a"));
    assert!(!key_before(b"a", b"a"));
    assert!(same_bytes(b"xy", b"xy"));
    assert!(!same_bytes(b"xy", b"x"));
}

#[test]
fn numbers_are_written_and_read() {
    let mut text = String::new();
    push_number(&mut text, 0, 10, 0);
    push_number(&mut text, 255, 16, 8);
    push_number(&mut text, 12345, 10, 2);
    assert_eq!(text, "0000000ff12345");
    let chars = chars_of("+18446744073709551615 18446744073709551616 ff - 0x1");
    assert_eq!(read_number(&chars, 0, 21, 10, u64::MAX), Some(u64::MAX));
    assert_eq!(read_number(&chars, 22, 42, 10, u64::MAX), None);
    assert_eq!(read_number(&chars, 43, 45, 16, 255), Some(255));
    assert_eq!(read_number(&chars, 43, 45, 16, 254), None);
    assert_eq!(read_number(&chars, 43, 45, 10, u64::MAX), None);
    assert_eq!(read_number(&chars, 46, 47, 10, u64::MAX), None);
    assert_eq!(read_number(&chars, 48, 51, 16, u64::MAX), None);
    assert_eq!(read_number(&chars, 3, 3, 10, u64::MAX), None);
}

#[test]
fn texts_fall_into_lines_and_words() {
    let text = chars_of("one two\r\n\n three\t\u{2003}four\n");
    let lines = find_lines(&text, text.len());
    let line = |i: usize| -> String { text[lines[i].0..lines[i].1].iter().collect() };
    assert_eq!(lines.len(), 3);
    assert_eq!(line(0), "one two\r");
    assert_eq!(line(1), "");
    assert_eq!(line(2), " three\t\u{2003}four");
    let words = find_words(&text, lines[2].0, lines[2].1);
    let word = |i: usize| -> String { text[words[i].0..words[i].1].iter().collect() };
    assert_eq!(words.len(), 2);
    assert_eq!(word(0), "three");
    assert_eq!(word(1), "four");
}

#[test]
fn table_names_never_repeat() {
    let mut names = Vec::new();
    for level in [0usize, 1, 99, 100] {
        for sequence in [0u64, 1, 9_999_999_999, 10_000_000_000, u64::MAX] {
            for part in [0usize, 9_999, 10_000] {
                names.push(table_filename(level, sequence, part));
            }
        }
    }
    assert_eq!(names[0], "L00-R0000000000-P0000.sst");
    let count = names.len();
    names.sort();
    names.dedup();
    assert_eq!(names.len(), count);
}

#[test]
fn disjoint_runs_fold_into_one() {
    let mut level = vec![run_of(9, 2, &["m", "n"]), run_of(4, 3, &["a", "b"]), run_of(7, 1, &["x"])];
    coalesce_disjoint_runs(&mut level);
    assert_eq!(level.len(), 1);
    assert_eq!(level[0].sequence(), 9);
    assert_eq!(level[0].units(), 6);
    assert_eq!(level[0].file_count(), 5);
    assert_eq!(level[0].min_key(), Some(&b"a".to_vec()));
    assert_eq!(level[0].max_key(), Some(&b"x".to_vec()));
    assert_eq!(
        level[0].get(b"n").expect("get"),
        Some(put(&9u64.to_le_bytes()))
    );
    assert_eq!(
        level[0].get(b"b").expect("get"),
        Some(put(&4u64.to_le_bytes()))
    );
}

#[test]
fn overlapping_runs_stay_as_they_are() {
    let mut level = vec![run_of(9, 1, &["m", "n"]), run_of(4, 1, &["a", "m"])];
    coalesce_disjoint_runs(&mut level);
    assert_eq!(level.len(), 2);
    assert_eq!(level[0].sequence(), 9);
    assert_eq!(level[1].sequence(), 4);
}

#[test]
fn a_run_in_a_gap_of_another_folds_into_it() {
    let mut level = vec![run_of(9, 1, &["m"]), run_of(4, 1, &["a", "z"])];
    coalesce_disjoint_runs(&mut level);
    assert_eq!(level.len(), 1);
    assert_eq!(level[0].file_count(), 3);
    assert_eq!(level[0].max_key(), Some(&b"z".to_vec()));
    for (key, sequence) in [(b"a", 4u64), (b"m", 9), (b"z", 4)] {
        assert_eq!(
            level[0].get(key).expect("get"),
            Some(put(&sequence.to_le_bytes()))
        );
    }
}

fn job() -> CompactionJob {
    CompactionJob {
        sources: vec![LevelFiles {
            level: 0,
            runs: vec![
                RunFiles { run: 0, files: vec![0] },
                RunFiles { run: 1, files: vec![0] },
            ],
        }],
        target_level: 1,
        targets: vec![RunFiles { run: 0, files: vec![0] }],
        drop_tombstones: false,
    }
}

#[test]
fn a_merge_carries_the_units_of_everything_merged() {
    let levels = vec![
        vec![run_of(5, 2, &["a"]), run_of(4, 3, &["a"])],
        vec![run_of(3, 7, &["a"])],
    ];
    assert_eq!(count_units(&levels, &job()), 12);
    let none = CompactionJob { sources: Vec::new(), targets: Vec::new(), ..job() };
    assert_eq!(count_units(&levels, &none), 1);
}

#[test]
fn a_merge_takes_its_inputs_newest_first() {
    let levels = vec![
        vec![run_of(5, 1, &["a"]), run_of(4, 1, &["a"])],
        vec![run_of(3, 1, &["a"]), run_of(2, 1, &["a"])],
    ];
    let merged = MergeIterator::new(gather(&levels, &job())).collect().expect("merge");
    assert_eq!(merged, vec![(b"a".to_vec(), put(&5u64.to_le_bytes()))]);

    let output = run_of(6, 1, &["a"]);
    let rebuilt = rebuild(levels, &job(), Some(output));
    assert_eq!(rebuilt.len(), 2);
    assert!(rebuilt[0].is_empty());
    let sequences: Vec<u64> = rebuilt[1].iter().map(|run| run.sequence()).collect();
    assert_eq!(sequences, vec![6, 2]);

    let shape = shape_levels(&rebuilt);
    assert_eq!(shape.levels.len(), 2);
    assert_eq!(shape.levels[1].runs.len(), 2);
    assert_eq!(shape.levels[1].runs[1].index, 1);
    let manifest = list_levels(&rebuilt, 8);
    assert_eq!(manifest.next_sequence, 8);
    assert_eq!(manifest.runs.len(), 2);
    assert_eq!(manifest.runs[0].level, 1);
    assert_eq!(manifest.runs[0].sequence, 6);
}

#[test]
fn runs_are_taken_by_units() {
    let mut level = LevelShape::from_sizes(&[10, 10, 10]);
    level.runs[0].units = 2;
    level.runs[1].units = 1;
    level.runs[2].units = 4;
    let tree = TreeShape { levels: vec![level] };
    let taken = |units: usize| -> usize { newest_runs_by_units(&tree, 0, units).len() };
    assert_eq!(all_files(&tree, 0).len(), 3);
    assert_eq!(taken(2), 0, "one run is nothing to merge");
    assert_eq!(taken(3), 2);
    assert_eq!(taken(4), 2, "the next run would be too much");
    assert_eq!(taken(7), 3);
}

#[test]
fn a_lookup_leads_to_one_block_at_most() {
    let mut writer = SSTableWriter::create_with_block_size(32);
    for key in ["b", "d", "f", "h"] {
        writer.append(key.as_bytes(), &put(&[0; 24])).expect("append");
    }
    let table = SSTable::open(writer.finish().0).expect("open");
    assert_eq!(table.block_count(), 4);
    assert_eq!(table.probe(b"d"), Probe::Block(1));
    let absent = (0..1000u32)
        .map(|i| format!("x{i}").into_bytes())
        .find(|key| table.probe(key) == Probe::Rejected)
        .expect("the filter rejects something");
    assert_eq!(table.get(&absent).expect("get"), None);
    assert_eq!((table.blocks_read(), table.bloom_rejections()), (0, 1));
    assert_eq!(table.get(b"d").expect("get"), Some(put(&[0; 24])));
    assert_eq!((table.blocks_read(), table.bloom_rejections()), (1, 1));
    table.reset_counters();
    assert_eq!((table.blocks_read(), table.bloom_rejections()), (0, 0));
    assert_eq!(table.read_block(3).expect("read"), vec![(b"h".to_vec(), put(&[0; 24]))]);
    assert_eq!(table.file_size_bytes(), table.bytes().len() as u64);
    assert_eq!(table.bloom_bytes(), 5);

    let mut bare = SSTableWriter::create_with_block_size(32).with_bloom_bits_per_key(0);
    bare.append(b"m", &put(b"1")).expect("append");
    let bare = SSTable::open(bare.finish().0).expect("open");
    assert_eq!(bare.probe(b"a"), Probe::Outside);
    assert_eq!(bare.probe(b"z"), Probe::Block(0));
    assert_eq!(bare.bloom_bytes(), 0);
}

#[test]
fn a_filter_is_sized_by_its_keys() {
    let filter = BloomFilter::with_capacity(1000, 10 << 52);
    assert_eq!(filter.num_bits(), 10_000);
    assert_eq!(filter.num_hashes(), 7);
    assert_eq!(filter.fill_ratio(), (0, 10_000));
    let none = BloomFilter::with_capacity(0, 0);
    assert_eq!((none.num_bits(), none.num_hashes()), (8, 6));
    let most = BloomFilter::with_capacity(1, 1000 << 52);
    assert_eq!((most.num_bits(), most.num_hashes()), (1000, 30));
}

#[test]
fn schemes_and_policies_have_names() {
    let config = LsmConfig::default();
    assert_eq!(config.growth.name(), "vertical");
    assert_eq!(config.merge.name(), "leveling");
    assert_eq!(MergeKind::Tiering { runs_per_level: 4 }.name(), "tiering");
    let tree = LsmTree::open(config, None, &Vec::new(), Vec::new()).expect("open");
    assert_eq!(tree.growth_name(), "vertical");
    assert_eq!(tree.merge_name(), "leveling");
    assert_eq!(tree.level_count(), 0);
    assert_eq!(tree.config().max_compactions_per_flush, 64);

    let tiering = GrowthKind::HorizontalTiering {
        levels: 3,
        buffer_bytes: 100,
        expected_data_bytes: 1000,
    };
    assert_eq!(tiering.name(), "horizontal-tiering");
    assert!(matches!(tiering.build(), Growth::HorizontalTiering(_)));
    assert_eq!(tiering.build().max_levels(), Some(3));
    let vertiorizon = GrowthKind::Vertiorizon {
        horizontal_levels: 2,
        size_ratio: 4,
        buffer_bytes: 100,
        initial_n: 4,
        policy: HorizontalPolicy::Tiering,
    };
    assert_eq!(vertiorizon.build().name(), "vertiorizon");
    assert!(matches!(MergeKind::Leveling.build(), Merge::Leveling(_)));
}

#[test]
fn configurations_that_nothing_can_be_built_with_are_told() {
    let config = LsmConfig::default();
    assert!(config.is_valid());
    assert!(!LsmConfig { block_target_bytes: 0, ..config.clone() }.is_valid());
    let one_run = MergeKind::Tiering { runs_per_level: 1 };
    assert!(!LsmConfig { merge: one_run, ..config.clone() }.is_valid());
    let flat = GrowthKind::Vertical { buffer_bytes: 1, size_ratio: 1 };
    assert!(!LsmConfig { growth: flat, ..config.clone() }.is_valid());
    assert!(!GrowthKind::HorizontalLeveling { levels: 1 }.is_valid());
    let schedule = EcoTuneConfig::default();
    assert!(!GrowthKind::EcoTune { config: schedule, top_capacity_bytes: 0 }.is_valid());
    let long = EcoTuneConfig { runs_per_round: 32769, ..schedule };
    assert!(!GrowthKind::EcoTune { config: long, top_capacity_bytes: 1 }.is_valid());
    let longest = EcoTuneConfig { runs_per_round: 32768, ..schedule };
    assert!(GrowthKind::EcoTune { config: longest, top_capacity_bytes: 1 }.is_valid());
    let deep = EcoTuneConfig { last_level_ratio: 0x2000_0000, ..schedule };
    assert!(!GrowthKind::EcoTune { config: deep, top_capacity_bytes: 1 }.is_valid());
}

#[test]
fn a_request_lists_its_source_levels() {
    let single = CompactionRequest::single(2, Granularity::Full);
    assert_eq!(single.source_levels(), vec![2]);
    assert!(!single.spans_multiple_levels());
    let span = CompactionRequest { first_level: 1, last_level: 3, ..single };
    assert_eq!(span.source_levels(), vec![1, 2, 3]);
    assert!(span.spans_multiple_levels());
}

#[test]
fn inputs_are_merged_in_the_order_that_a_job_lists_them() {
    let levels = vec![
        vec![run_of(5, 1, &["a"]), run_of(4, 1, &["a", "b"])],
        vec![run_of(3, 1, &["a", "c"])],
    ];
    let oldest_first = CompactionJob {
        sources: vec![
            LevelFiles { level: 1, runs: vec![RunFiles { run: 0, files: vec![0, 1] }] },
            LevelFiles {
                level: 0,
                runs: vec![
                    RunFiles { run: 1, files: vec![1, 0, 1] },
                    RunFiles { run: 0, files: vec![0, 9] },
                    RunFiles { run: 9, files: vec![0] },
                ],
            },
        ],
        targets: Vec::new(),
        ..job()
    };
    let merged = MergeIterator::new(gather(&levels, &oldest_first)).collect().expect("merge");
    assert_eq!(
        merged,
        vec![
            (b"a".to_vec(), put(&3u64.to_le_bytes())),
            (b"b".to_vec(), put(&4u64.to_le_bytes())),
            (b"c".to_vec(), put(&3u64.to_le_bytes())),
        ]
    );
}

#[test]
fn runs_with_ranges_apart_fold_around_an_empty_table() {
    let mut gapped = run_of(4, 1, &["a", "c"]);
    let (bytes, _) = SSTableWriter::create().finish();
    let empty = SSTable::open(bytes).expect("open");
    assert_eq!(empty.min_key(), None);
    gapped.tables.insert(1, NamedTable { name: "empty".to_string(), table: empty });

    let mut apart = vec![run_of(9, 1, &["m"]), gapped];
    coalesce_disjoint_runs(&mut apart);
    assert_eq!(apart.len(), 1);
    assert_eq!(apart[0].file_count(), 4);
}
