use std::cell::RefCell;
use std::rc::Rc;

use vectordb::storage::compaction::{CompactionJob, EcoTuneConfig, LevelFiles, RunFiles};
use vectordb::storage::config::{GrowthKind, LsmConfig, MergeKind};
use vectordb::storage::disk::DiskAction;
use vectordb::storage::execute::{keep_runs, names_taken};
use vectordb::storage::growth::HorizontalPolicy;
use vectordb::storage::lsm::{LsmStats, LsmTree};
use vectordb::storage::manifest::table_filename;
use vectordb::storage::recovery::left_over_files;
use vectordb::storage::run::{write_run, Run, TableOptions};
use vectordb::storage::{Key, Manifest, StorageError, SyncPolicy, UserValue, Value};

/// What a directory holds.
struct Disk {
    files: Vec<(String, Vec<u8>)>,
    manifest: Option<String>,
    log: Vec<u8>,
}

impl Disk {
    fn remove(&mut self, name: &str) {
        self.files.retain(|file| file.0 != name);
    }

    fn perform(&mut self, action: DiskAction) {
        match action {
            DiskAction::WriteTable { name, bytes } => {
                self.remove(&name);
                self.files.push((name, bytes));
            }
            DiskAction::StoreManifest { text } => self.manifest = Some(text),
            DiskAction::TruncateLog { length } => self.log.truncate(length as usize),
            DiskAction::AppendLog { bytes } => self.log.extend_from_slice(&bytes),
            DiskAction::SyncLog => {}
            DiskAction::ResetLog => self.log.clear(),
            DiskAction::RemoveTable { name } => self.remove(&name),
        }
    }
}

#[derive(Clone)]
struct Dir {
    disk: Rc<RefCell<Disk>>,
}

impl Dir {
    fn new() -> Self {
        let disk = Disk { files: Vec::new(), manifest: None, log: Vec::new() };
        Self { disk: Rc::new(RefCell::new(disk)) }
    }

    fn write(&self, name: &str, bytes: &[u8]) {
        self.disk.borrow_mut().files.push((name.to_string(), bytes.to_vec()));
    }

    fn holds(&self, name: &str) -> bool {
        self.disk.borrow().files.iter().any(|file| file.0 == name)
    }
}

/// A tree, and the directory that it is kept in.
struct Db {
    dir: Dir,
    tree: LsmTree,
}

impl Db {
    fn open(dir: &Dir, config: LsmConfig) -> Result<Self, StorageError> {
        let tree = {
            let mut disk = dir.disk.borrow_mut();
            let manifest = Manifest::load(disk.manifest.as_deref())?.unwrap_or_default();
            let names: Vec<String> = disk.files.iter().map(|file| file.0.clone()).collect();
            for name in left_over_files(&manifest, &names) {
                disk.remove(&name);
            }
            LsmTree::open(config, disk.manifest.as_deref(), &disk.files, disk.log.clone())?
        };
        let mut db = Self { dir: dir.clone(), tree };
        db.settle();
        Ok(db)
    }

    fn settle(&mut self) {
        for action in self.tree.take_actions() {
            self.dir.disk.borrow_mut().perform(action);
        }
    }

    fn put(&mut self, key: Key, value: UserValue) -> Result<(), StorageError> {
        let outcome = self.tree.put(key, value);
        self.settle();
        outcome
    }

    fn delete(&mut self, key: Key) -> Result<(), StorageError> {
        let outcome = self.tree.delete(key);
        self.settle();
        outcome
    }

    fn flush(&mut self) -> Result<bool, StorageError> {
        let outcome = self.tree.flush();
        self.settle();
        outcome
    }

    fn compact_until_quiet(&mut self) -> Result<(), StorageError> {
        let outcome = self.tree.compact_until_quiet();
        self.settle();
        outcome
    }

    fn sync(&mut self) {
        self.tree.sync();
        self.settle();
    }

    fn get(&self, key: &[u8]) -> Result<Option<UserValue>, StorageError> {
        self.tree.get(key)
    }

    fn iter(&self) -> std::vec::IntoIter<Result<(Key, UserValue), StorageError>> {
        self.tree.iter().into_iter()
    }

    fn range_from(
        &self,
        start: &[u8],
    ) -> std::vec::IntoIter<Result<(Key, UserValue), StorageError>> {
        self.tree.range_from(start).into_iter()
    }

    fn stats(&self) -> LsmStats {
        self.tree.stats()
    }

    fn reset_io_counters(&self) {
        self.tree.reset_io_counters();
    }
}

/// A fixed-point number in units of 2^-40.
fn fixed(value: f64) -> u64 {
    (value * 1_099_511_627_776.0).round() as u64
}

fn k(s: &str) -> Key {
    s.as_bytes().to_vec()
}

fn v(s: &str) -> UserValue {
    s.as_bytes().to_vec()
}

fn test_config() -> LsmConfig {
    LsmConfig {
        memtable_threshold_bytes: 1024,
        sync_policy: SyncPolicy::Manual,
        block_target_bytes: 256,
        target_file_size_bytes: 4096,
        growth: GrowthKind::Vertical {
            buffer_bytes: 1024,
            size_ratio: 4,
        },
        merge: MergeKind::Leveling,
        ..Default::default()
    }
}

fn tiering_config() -> LsmConfig {
    LsmConfig {
        merge: MergeKind::Tiering { runs_per_level: 4 },
        ..test_config()
    }
}

fn ecotune_config() -> LsmConfig {
    LsmConfig {
        growth: GrowthKind::EcoTune {
            config: EcoTuneConfig {
                runs_per_round: 8,
                last_level_ratio: 3,
                long_range_ratio: fixed(0.4),
                ..EcoTuneConfig::default()
            },
            top_capacity_bytes: 4096,
        },
        merge: MergeKind::Tiering { runs_per_level: 8 },
        ..test_config()
    }
}

fn vertiorizon_config() -> LsmConfig {
    LsmConfig {
        growth: GrowthKind::Vertiorizon {
            horizontal_levels: 2,
            size_ratio: 4,
            buffer_bytes: 1024,
            initial_n: 4,
            policy: HorizontalPolicy::Leveling,
        },
        merge: MergeKind::Leveling,
        ..test_config()
    }
}

fn no_compaction_config() -> LsmConfig {
    LsmConfig {
        growth: GrowthKind::Vertical {
            buffer_bytes: u64::MAX / 4,
            size_ratio: 2,
        },
        ..test_config()
    }
}

#[test]
fn put_and_get_round_trip_in_memory() {
    let dir = Dir::new();
    let mut tree = Db::open(&dir, test_config()).expect("open");

    tree.put(k("alpha"), v("one")).expect("put");
    assert_eq!(tree.get(b"alpha").expect("get"), Some(v("one")));
    assert_eq!(tree.get(b"missing").expect("get"), None);
}

#[test]
fn overwrites_and_deletes_take_effect() {
    let dir = Dir::new();
    let mut tree = Db::open(&dir, test_config()).expect("open");

    tree.put(k("key"), v("first")).expect("put");
    tree.put(k("key"), v("second")).expect("put");
    assert_eq!(tree.get(b"key").expect("get"), Some(v("second")));

    tree.delete(k("key")).expect("delete");
    assert_eq!(tree.get(b"key").expect("get"), None);

    tree.put(k("key"), v("third")).expect("put");
    assert_eq!(tree.get(b"key").expect("get"), Some(v("third")));
}

#[test]
fn a_delete_survives_a_flush_and_still_shadows_older_runs() {
    let dir = Dir::new();
    let mut tree = Db::open(&dir, no_compaction_config()).expect("open");

    tree.put(k("doomed"), v("value")).expect("put");
    tree.flush().expect("flush");
    tree.delete(k("doomed")).expect("delete");
    tree.flush().expect("flush");

    assert_eq!(tree.stats().run_count, 2);
    assert_eq!(
        tree.get(b"doomed").expect("get"),
        None,
        "the tombstone in the newer run must shadow the value in the older one"
    );
}

#[test]
fn newer_runs_shadow_older_ones() {
    let dir = Dir::new();
    let mut tree = Db::open(&dir, no_compaction_config()).expect("open");

    for version in 0..5 {
        tree.put(k("key"), v(&format!("version{version}")))
            .expect("put");
        tree.flush().expect("flush");
    }

    assert_eq!(tree.stats().run_count, 5);
    assert_eq!(tree.get(b"key").expect("get"), Some(v("version4")));
}

#[test]
fn flushing_an_empty_memtable_is_a_no_op() {
    let dir = Dir::new();
    let mut tree = Db::open(&dir, test_config()).expect("open");

    assert!(!tree.flush().expect("flush"));
    assert_eq!(tree.stats().run_count, 0);
}

#[test]
fn vertical_growth_keeps_level_zero_bounded() {
    let dir = Dir::new();
    let mut tree = Db::open(&dir, test_config()).expect("open");

    for i in 0..40 {
        tree.put(format!("key{i:04}").into_bytes(), vec![b'x'; 100])
            .expect("put");
        tree.flush().expect("flush");
    }

    let stats = tree.stats();
    assert!(stats.compaction_count > 0, "compaction never ran");
    assert!(
        stats.level_bytes[0] < 4 * 1024,
        "level 0 holds {} bytes, above its capacity of 4096",
        stats.level_bytes[0]
    );
}

#[test]
fn leveling_maintains_one_run_per_level() {
    let dir = Dir::new();
    let mut tree = Db::open(&dir, test_config()).expect("open");

    for i in 0..500 {
        tree.put(format!("key{i:05}").into_bytes(), vec![b'v'; 60])
            .expect("put");
    }
    tree.flush().expect("flush");

    let stats = tree.stats();
    for (level, &runs) in stats.runs_per_level.iter().enumerate().skip(1) {
        assert!(
            runs <= 1,
            "level {level} holds {runs} runs; leveling permits at most one"
        );
    }
}

#[test]
fn tiering_keeps_runs_per_level_bounded() {
    let dir = Dir::new();
    let mut tree = Db::open(&dir, tiering_config()).expect("open");

    for i in 0..500 {
        tree.put(format!("key{i:05}").into_bytes(), vec![b'v'; 60])
            .expect("put");
    }
    tree.flush().expect("flush");

    assert!(tree.stats().compaction_count > 0, "compaction never ran");
}

#[test]
fn compaction_preserves_contents() {
    for (label, config) in [
        ("vertical-leveling", test_config()),
        ("vertical-tiering", tiering_config()),
        (
            "horizontal-leveling",
            LsmConfig {
                growth: GrowthKind::HorizontalLeveling { levels: 4 },
                ..test_config()
            },
        ),
        (
            "horizontal-tiering",
            LsmConfig {
                growth: GrowthKind::HorizontalTiering {
                    levels: 4,
                    buffer_bytes: 1024,
                    expected_data_bytes: 256 * 1024,
                },
                merge: MergeKind::Tiering { runs_per_level: 4 },
                ..test_config()
            },
        ),
        ("vertiorizon", vertiorizon_config()),
        ("ecotune", ecotune_config()),
        (
            "vertiorizon-tiering",
            LsmConfig {
                growth: GrowthKind::Vertiorizon {
                    horizontal_levels: 2,
                    size_ratio: 4,
                    buffer_bytes: 1024,
                    initial_n: 4,
                    policy: HorizontalPolicy::Tiering,
                },
                merge: MergeKind::Tiering { runs_per_level: 4 },
                ..test_config()
            },
        ),
    ] {
        let dir = Dir::new();
        let mut tree = Db::open(&dir, config).expect("open");

        let mut expected = std::collections::BTreeMap::new();
        let mut state = 987_654_321u64;
        let mut next = || {
            state = state
                .wrapping_mul(6364136223846793005)
                .wrapping_add(1442695040888963407);
            (state >> 33) as usize
        };

        for round in 0..2000 {
            let key = format!("key{:04}", next() % 800).into_bytes();
            if next() % 5 == 0 {
                tree.delete(key.clone()).expect("delete");
                expected.remove(&key);
            } else {
                let value = format!("round{round}").into_bytes();
                tree.put(key.clone(), value.clone()).expect("put");
                expected.insert(key, value);
            }
        }
        tree.flush().expect("flush");

        let stats = tree.stats();
        assert!(
            stats.compaction_count > 0,
            "{label}: compaction never ran, so this proves nothing"
        );

        for (key, value) in &expected {
            assert_eq!(
                tree.get(key).expect("get").as_ref(),
                Some(value),
                "{label}: wrong value for {:?} after compaction",
                String::from_utf8_lossy(key)
            );
        }

        let live: Vec<_> = tree.iter().map(|entry| entry.expect("iter")).collect();
        let expected_live: Vec<_> = expected.into_iter().collect();
        assert_eq!(
            live, expected_live,
            "{label}: iteration disagrees with the expected contents"
        );
    }
}

#[test]
fn deletions_survive_tombstone_dropping() {
    let dir = Dir::new();
    let mut tree = Db::open(&dir, test_config()).expect("open");

    for i in 0..600 {
        tree.put(format!("key{i:04}").into_bytes(), vec![b'v'; 50])
            .expect("put");
    }
    tree.flush().expect("flush");

    for i in (0..600).step_by(3) {
        tree.delete(format!("key{i:04}").into_bytes())
            .expect("delete");
    }
    tree.flush().expect("flush");
    tree.compact_until_quiet().expect("compact");

    for i in 0..600 {
        let key = format!("key{i:04}");
        let expected = if i % 3 == 0 {
            None
        } else {
            Some(vec![b'v'; 50])
        };
        assert_eq!(
            tree.get(key.as_bytes()).expect("get"),
            expected,
            "{key} is wrong after compaction"
        );
    }
}

#[test]
fn compaction_reduces_the_run_count() {
    let dir = Dir::new();
    let mut tree = Db::open(&dir, no_compaction_config()).expect("open");

    for i in 0..12 {
        tree.put(format!("key{i:04}").into_bytes(), vec![b'x'; 600])
            .expect("put");
        tree.flush().expect("flush");
    }
    let before = tree.stats().run_count;
    assert_eq!(before, 12);

    let mut tree = Db::open(&dir, test_config()).expect("reopen");
    tree.compact_until_quiet().expect("compact");
    let after = tree.stats().run_count;

    assert!(
        after < before,
        "compaction should have reduced {before} runs, but left {after}"
    );
    for i in 0..12 {
        assert_eq!(
            tree.get(format!("key{i:04}").as_bytes()).expect("get"),
            Some(vec![b'x'; 600])
        );
    }
}

fn amplification(
    config: LsmConfig,
    key_order: impl Iterator<Item = usize>,
) -> f64 {
    let dir = Dir::new();
    let mut tree = Db::open(&dir, config).expect("open");

    for i in key_order {
        tree.put(format!("key{i:05}").into_bytes(), vec![b'v'; 80])
            .expect("put");
    }
    tree.flush().expect("flush");
    let (written, user) = tree.stats().write_amplification().expect("amplification");
    written as f64 / user as f64
}

#[test]
fn leveling_writes_more_than_tiering_when_runs_overlap() {
    let scattered = || (0..3000).map(|i| (i * 7919) % 3000);

    let leveling = amplification(test_config(), scattered());
    let tiering = amplification(tiering_config(), scattered());

    assert!(
        leveling > tiering,
        "leveling ({leveling:.2}x) should write more than tiering ({tiering:.2}x) \
         when runs overlap"
    );
}

#[test]
fn leveling_pays_for_overlap_not_for_volume() {
    let sequential = amplification(test_config(), 0..3000);
    let scattered = amplification(
        test_config(),
        (0..3000).map(|i| (i * 7919) % 3000),
    );

    assert!(
        scattered > sequential,
        "identical data in scrambled order should cost more ({scattered:.2}x) \
         than in ascending order ({sequential:.2}x), because only then is \
         there overlapping data to rewrite"
    );
}

#[test]
fn unflushed_writes_survive_a_reopen_via_the_log() {
    let dir = Dir::new();

    {
        let mut tree = Db::open(&dir, test_config()).expect("open");
        tree.put(k("alpha"), v("1")).expect("put");
        tree.put(k("bravo"), v("2")).expect("put");
        tree.delete(k("bravo")).expect("delete");
        tree.put(k("charlie"), v("3")).expect("put");
        tree.sync();
    }

    let tree = Db::open(&dir, test_config()).expect("reopen");
    assert_eq!(tree.stats().run_count, 0, "nothing should have flushed");
    assert_eq!(tree.get(b"alpha").expect("get"), Some(v("1")));
    assert_eq!(
        tree.get(b"bravo").expect("get"),
        None,
        "the delete must be replayed too, not just the puts"
    );
    assert_eq!(tree.get(b"charlie").expect("get"), Some(v("3")));
}

#[test]
fn flushed_runs_are_rediscovered_on_reopen() {
    let dir = Dir::new();

    let runs_before_close;
    {
        let mut tree = Db::open(&dir, test_config()).expect("open");
        for i in 0..50 {
            tree.put(format!("key{i:03}").into_bytes(), v("value"))
                .expect("put");
        }
        tree.flush().expect("flush");
        tree.put(k("late"), v("in the log")).expect("put");
        tree.sync();
        runs_before_close = tree.stats().run_count;
    }
    assert!(runs_before_close >= 1);

    let tree = Db::open(&dir, test_config()).expect("reopen");
    assert_eq!(
        tree.stats().run_count,
        runs_before_close,
        "every run must be rediscovered, and none invented"
    );
    for i in 0..50 {
        assert_eq!(
            tree.get(format!("key{i:03}").as_bytes()).expect("get"),
            Some(v("value"))
        );
    }
    assert_eq!(tree.get(b"late").expect("get"), Some(v("in the log")));
}

#[test]
fn state_is_stable_across_repeated_reopens() {
    let dir = Dir::new();
    let rounds = 8;

    for round in 0..rounds {
        let mut tree = Db::open(&dir, test_config()).expect("open");
        for i in 0..40 {
            tree.put(format!("r{round}-k{i:02}").into_bytes(), v("value"))
                .expect("put");
        }
        if round % 2 == 0 {
            tree.flush().expect("flush");
        } else {
            tree.sync();
        }
    }

    let tree = Db::open(&dir, test_config()).expect("final open");
    for round in 0..rounds {
        for i in 0..40 {
            let key = format!("r{round}-k{i:02}");
            assert_eq!(
                tree.get(key.as_bytes()).expect("get"),
                Some(v("value")),
                "{key} was lost across reopens"
            );
        }
    }
    assert_eq!(tree.iter().count(), rounds * 40);
}

#[test]
fn uncommitted_files_are_swept_at_open() {
    let dir = Dir::new();

    {
        let mut tree = Db::open(&dir, test_config()).expect("open");
        tree.put(k("real"), v("data")).expect("put");
        tree.flush().expect("flush");
    }

    let orphan = table_filename(0, 9999, 0);
    dir.write(&orphan, b"not a real SSTable");
    let scratch = "something.tmp";
    dir.write(scratch, b"scratch");

    let tree = Db::open(&dir, test_config()).expect("reopen");
    assert!(!dir.holds(&orphan), "an uncommitted run must be swept");
    assert!(!dir.holds(scratch), "scratch files must be swept");
    assert_eq!(tree.get(b"real").expect("get"), Some(v("data")));
}

#[test]
fn contents_survive_a_reopen_after_compaction() {
    let dir = Dir::new();

    let expected: Vec<(Key, UserValue)> = (0..400)
        .map(|i| (format!("key{i:04}").into_bytes(), vec![b'v'; 70]))
        .collect();

    {
        let mut tree = Db::open(&dir, test_config()).expect("open");
        for (key, value) in &expected {
            tree.put(key.clone(), value.clone()).expect("put");
        }
        tree.flush().expect("flush");
        assert!(tree.stats().compaction_count > 0, "compaction never ran");
    }

    let tree = Db::open(&dir, test_config()).expect("reopen");
    let live: Vec<_> = tree.iter().map(|entry| entry.expect("iter")).collect();
    assert_eq!(live, expected);
}

#[test]
fn sequence_numbers_keep_ascending_across_reopens() {
    let dir = Dir::new();
    let mut highest = 0;

    for _ in 0..4 {
        let mut tree = Db::open(&dir, no_compaction_config()).expect("open");
        tree.put(k("key"), v("value")).expect("put");
        tree.flush().expect("flush");

        let lowest_new = tree
            .tree
            .manifest()
            .runs
            .iter()
            .map(|run| run.sequence)
            .max()
            .expect("a run");
        assert!(
            lowest_new > highest,
            "sequence {lowest_new} was reused after a reopen (previous high {highest})"
        );
        highest = lowest_new;
    }
}

#[test]
fn a_corrupt_manifest_refuses_to_open() {
    let dir = Dir::new();

    {
        let mut tree = Db::open(&dir, test_config()).expect("open");
        tree.put(k("key"), v("value")).expect("put");
        tree.flush().expect("flush");
    }

    let contents = dir.disk.borrow().manifest.clone().expect("a manifest");
    dir.disk.borrow_mut().manifest = Some(contents.replace("next-sequence", "next-sequenceX"));

    assert!(
        Db::open(&dir, test_config()).is_err(),
        "a corrupt manifest must be an error, not a silently empty database"
    );
}

#[test]
fn empty_keys_and_values_are_handled() {
    let dir = Dir::new();
    let mut tree = Db::open(&dir, test_config()).expect("open");

    tree.put(Vec::new(), v("empty key")).expect("put");
    tree.put(k("empty value"), Vec::new()).expect("put");
    tree.flush().expect("flush");

    assert_eq!(tree.get(b"").expect("get"), Some(v("empty key")));
    assert_eq!(
        tree.get(b"empty value").expect("get"),
        Some(Vec::new()),
        "an empty value is a live value, not a miss"
    );
}

#[test]
fn handles_vector_sized_values() {
    let dir = Dir::new();
    let mut tree = Db::open(
        &dir,
        LsmConfig {
            memtable_threshold_bytes: 64 * 1024,
            ..test_config()
        },
    )
    .expect("open");

    let vector: Vec<u8> = (0..128 * 4).map(|i| (i % 251) as u8).collect();
    for i in 0..400 {
        tree.put(format!("vec{i:05}").into_bytes(), vector.clone())
            .expect("put");
    }
    tree.flush().expect("flush");

    assert!(tree.stats().compaction_count > 0);
    for i in 0..400 {
        assert_eq!(
            tree.get(format!("vec{i:05}").as_bytes()).expect("get"),
            Some(vector.clone()),
            "vector {i} did not survive compaction intact"
        );
    }
}

#[test]
fn a_run_is_split_into_files_at_the_target_size() {
    let dir = Dir::new();
    let mut tree = Db::open(
        &dir,
        LsmConfig {
            memtable_threshold_bytes: 4 * 1024 * 1024,
            target_file_size_bytes: 4096,
            ..no_compaction_config()
        },
    )
    .expect("open");

    for i in 0..1000 {
        tree.put(format!("key{i:05}").into_bytes(), vec![b'v'; 100])
            .expect("put");
    }
    tree.flush().expect("flush");

    let stats = tree.stats();
    assert_eq!(stats.run_count, 1, "one flush is one run");
    assert!(
        stats.file_count > 5,
        "~100 KiB of data at a 4 KiB target should span many files, got {}",
        stats.file_count
    );

    for i in 0..1000 {
        assert_eq!(
            tree.get(format!("key{i:05}").as_bytes()).expect("get"),
            Some(vec![b'v'; 100]),
            "key {i} was lost at a file boundary"
        );
    }
}

#[test]
fn partial_compaction_preserves_contents() {
    let dir = Dir::new();
    let mut tree = Db::open(
        &dir,
        LsmConfig {
            target_file_size_bytes: 512,
            ..test_config()
        },
    )
    .expect("open");

    let expected: Vec<(Key, UserValue)> = (0..1200)
        .map(|i| (format!("key{i:05}").into_bytes(), vec![b'v'; 40]))
        .collect();
    for (key, value) in &expected {
        tree.put(key.clone(), value.clone()).expect("put");
    }
    tree.flush().expect("flush");

    let stats = tree.stats();
    assert!(stats.compaction_count > 0, "compaction never ran");
    assert!(
        stats.file_count > stats.run_count,
        "runs should be split across several files for slicing to matter"
    );

    let live: Vec<_> = tree.iter().map(|entry| entry.expect("iter")).collect();
    assert_eq!(live, expected);
}

#[test]
fn vertiorizon_builds_a_two_part_tree() {
    let dir = Dir::new();
    let mut tree = Db::open(&dir, vertiorizon_config()).expect("open");

    for i in 0..6000 {
        let key = format!("key{:05}", (i * 7919) % 6000);
        tree.put(key.into_bytes(), vec![b'v'; 60]).expect("put");
    }
    tree.flush().expect("flush");

    let stats = tree.stats();
    assert!(stats.compaction_count > 0, "compaction never ran");
    assert!(
        stats.level_bytes.len() > 2,
        "expected the vertical part to be populated, got {:?}",
        stats.level_bytes
    );

    let horizontal: u64 = stats.level_bytes.iter().take(2).sum();
    let vertical: u64 = stats.level_bytes.iter().skip(2).sum();
    assert!(
        vertical > horizontal,
        "the vertical part should hold the bulk of the data: {vertical} vs {horizontal}"
    );
    assert!(
        stats.level_bytes.len() <= 4,
        "Vertiorizon is 2 horizontal + 2 vertical levels, got {:?}",
        stats.level_bytes
    );
}

#[test]
fn vertiorizon_keeps_its_horizontal_part_small() {
    let dir = Dir::new();
    let mut tree = Db::open(&dir, vertiorizon_config()).expect("open");

    for i in 0..3000 {
        let key = format!("key{:05}", (i * 7919) % 3000);
        tree.put(key.into_bytes(), vec![b'v'; 60]).expect("put");
    }
    tree.flush().expect("flush");

    let stats = tree.stats();
    let horizontal: u64 = stats.level_bytes.iter().take(2).sum();
    let total: u64 = stats.level_bytes.iter().sum();
    assert!(total > 0, "nothing was written");
    assert!(
        horizontal * 4 < total,
        "the horizontal part holds {horizontal} of {total} bytes, far more than \
         the intended split allows"
    );
}

#[test]
fn a_scan_from_the_start_matches_full_iteration() {
    let dir = Dir::new();
    let mut tree = Db::open(&dir, test_config()).expect("open");

    for i in 0..800 {
        let key = format!("key{:05}", (i * 7919) % 800);
        tree.put(key.into_bytes(), vec![b'v'; 40]).expect("put");
    }
    tree.flush().expect("flush");

    let iterated: Vec<_> = tree.iter().map(|e| e.expect("iter")).collect();
    let scanned: Vec<_> = tree.range_from(b"").map(|e| e.expect("scan")).collect();
    assert_eq!(scanned, iterated);
}

#[test]
fn a_scan_starts_at_the_requested_key_and_ascends() {
    let dir = Dir::new();
    let mut tree = Db::open(&dir, test_config()).expect("open");

    for i in 0..500 {
        tree.put(format!("key{i:05}").into_bytes(), vec![b'v'; 40])
            .expect("put");
    }
    tree.flush().expect("flush");

    let scanned: Vec<Key> = tree
        .range_from(b"key00250")
        .take(10)
        .map(|entry| entry.expect("scan").0)
        .collect();

    assert_eq!(scanned.len(), 10);
    assert_eq!(scanned[0], b"key00250".to_vec());
    assert_eq!(scanned[9], b"key00259".to_vec());
    assert!(
        scanned.windows(2).all(|pair| pair[0] < pair[1]),
        "a scan must ascend: {scanned:?}"
    );
}

#[test]
fn a_scan_skips_deleted_keys_and_sees_the_newest_value() {
    let dir = Dir::new();
    let mut tree = Db::open(&dir, test_config()).expect("open");

    for i in 0..300 {
        tree.put(format!("key{i:05}").into_bytes(), v("old"))
            .expect("put");
    }
    tree.flush().expect("flush");
    for i in (0..300).step_by(3) {
        tree.delete(format!("key{i:05}").into_bytes())
            .expect("delete");
    }
    for i in (1..300).step_by(3) {
        tree.put(format!("key{i:05}").into_bytes(), v("new"))
            .expect("put");
    }

    for (key, value) in tree.range_from(b"").map(|e| e.expect("scan")) {
        let index: usize = String::from_utf8_lossy(&key)[3..].parse().expect("index");
        assert_ne!(
            index % 3,
            0,
            "key{index:05} was deleted but the scan returned it"
        );
        let expected = if index % 3 == 1 { v("new") } else { v("old") };
        assert_eq!(value, expected, "wrong value for key{index:05}");
    }
}

#[test]
fn a_scan_beyond_the_last_key_is_empty() {
    let dir = Dir::new();
    let mut tree = Db::open(&dir, test_config()).expect("open");
    tree.put(k("alpha"), v("1")).expect("put");
    tree.flush().expect("flush");

    assert_eq!(tree.range_from(b"zzzz").count(), 0);
}

#[test]
fn a_scan_does_not_read_blocks_before_its_start() {
    let dir = Dir::new();
    let mut tree = Db::open(
        &dir,
        LsmConfig {
            memtable_threshold_bytes: 4 * 1024 * 1024,
            target_file_size_bytes: 64 * 1024,
            block_target_bytes: 256,
            ..no_compaction_config()
        },
    )
    .expect("open");

    for i in 0..4000 {
        tree.put(format!("key{i:06}").into_bytes(), vec![b'v'; 50])
            .expect("put");
    }
    tree.flush().expect("flush");

    tree.reset_io_counters();
    let full: usize = tree.iter().count();
    let blocks_for_full_scan = tree.stats().blocks_read;

    tree.reset_io_counters();
    let tail: Vec<_> = tree.range_from(b"key003990").take(10).collect();
    let blocks_for_short_scan = tree.stats().blocks_read;

    assert_eq!(full, 4000);
    assert_eq!(tail.len(), 10);
    assert!(
        blocks_for_short_scan * 10 < blocks_for_full_scan,
        "a 10-entry scan read {blocks_for_short_scan} blocks against \
         {blocks_for_full_scan} for the whole table; it is not seeking"
    );
}

#[test]
fn a_scan_spans_levels_and_runs() {
    let dir = Dir::new();
    let mut tree = Db::open(&dir, test_config()).expect("open");

    for i in 0..2000 {
        let key = format!("key{:05}", (i * 7919) % 2000);
        tree.put(key.into_bytes(), vec![b'v'; 50]).expect("put");
    }
    tree.flush().expect("flush");
    assert!(
        tree.stats().runs_per_level.len() > 1,
        "expected several levels"
    );

    tree.put(k("key00042"), v("freshest")).expect("put");

    let scanned: Vec<_> = tree
        .range_from(b"key00040")
        .take(5)
        .map(|e| e.expect("scan"))
        .collect();
    assert_eq!(scanned[0].0, b"key00040".to_vec());
    assert_eq!(
        scanned[2],
        (k("key00042"), v("freshest")),
        "the memtable's value must win over the on-disk one"
    );
}

#[test]
fn ecotune_builds_a_three_level_tree() {
    let dir = Dir::new();
    let mut tree = Db::open(&dir, ecotune_config()).expect("open");

    for i in 0..4000 {
        let key = format!("key{:05}", (i * 7919) % 4000);
        tree.put(key.into_bytes(), vec![b'v'; 60]).expect("put");
    }
    tree.flush().expect("flush");

    let stats = tree.stats();
    assert!(stats.compaction_count > 0, "compaction never ran");
    assert!(
        stats.runs_per_level.len() <= 3,
        "EcoTune maps onto exactly three levels, got {:?}",
        stats.runs_per_level
    );
    if stats.runs_per_level.len() == 3 {
        assert!(
            stats.runs_per_level[2] <= 1,
            "the last level must hold at most one run, got {}",
            stats.runs_per_level[2]
        );
    }
}

fn options() -> TableOptions {
    TableOptions {
        block_target_bytes: 256,
        bloom_bits_per_key: 0,
        target_file_size_bytes: 4096,
    }
}

fn run_of(sequence: u64, entries: &[(Key, Value)]) -> Run {
    write_run(options(), 0, sequence, 1, entries)
        .expect("write")
        .expect("a run")
}

fn job_taking(runs: Vec<RunFiles>) -> CompactionJob {
    CompactionJob {
        sources: vec![LevelFiles { level: 0, runs }],
        target_level: 1,
        targets: Vec::new(),
        drop_tombstones: false,
    }
}

#[test]
fn taking_files_preserves_the_requested_order() {
    let entries: Vec<(Key, Value)> = (0..200)
        .map(|i| (format!("key{i:03}").into_bytes(), Value::Put(vec![b'v'; 300])))
        .collect();
    let run = run_of(1, &entries);
    let files_before = run.file_count();
    assert!(files_before >= 3, "need several files to select among");
    let names: Vec<String> = run.tables.iter().map(|table| table.name.clone()).collect();

    let job = job_taking(vec![RunFiles {
        run: 0,
        files: vec![0, 2],
    }]);
    let levels = vec![vec![run]];
    let taken = names_taken(&levels, &job);
    assert_eq!(taken, vec![names[0].clone(), names[2].clone()]);

    let mut levels = levels;
    let kept = keep_runs(levels.remove(0), &job, 0);
    assert_eq!(
        kept[0].file_count(),
        files_before - 2,
        "the untaken files must remain"
    );
}

#[test]
fn pruning_removes_only_emptied_runs() {
    let newer = run_of(2, &[(k("b"), Value::Put(v("2")))]);
    let older = run_of(1, &[(k("a"), Value::Put(v("1")))]);
    let job = job_taking(vec![RunFiles {
        run: 0,
        files: vec![0],
    }]);

    let kept = keep_runs(vec![newer, older], &job, 0);
    assert_eq!(kept.len(), 1);
    assert_eq!(kept[0].get(b"a").expect("get"), Some(Value::Put(v("1"))));
}

#[test]
fn a_flush_may_set_off_any_number_of_compactions() {
    let dir = Dir::new();
    let config = LsmConfig { max_compactions_per_flush: usize::MAX, ..test_config() };
    let mut db = Db::open(&dir, config).expect("open");
    for i in 0..600u32 {
        let key = format!("key{:05}", (i * 7919) % 600).into_bytes();
        db.put(key, vec![b'v'; 32]).expect("put");
    }
    db.flush().expect("flush");
    assert!(db.stats().compaction_count > 0);
    assert_eq!(db.iter().count(), 600);
}

#[test]
fn files_and_blocks_of_any_target_size_are_read_back() {
    let sizes = [(u64::MAX, 1 << 20), (u64::MAX, 1), (1, 1 << 20), (1, 1)];
    for (target_file_size_bytes, block_target_bytes) in sizes {
        let dir = Dir::new();
        let config = LsmConfig { target_file_size_bytes, block_target_bytes, ..test_config() };
        {
            let mut db = Db::open(&dir, config.clone()).expect("open");
            for i in 0..200u32 {
                let key = format!("key{:05}", (i * 7919) % 150).into_bytes();
                db.put(key, i.to_le_bytes().to_vec()).expect("put");
            }
            db.delete(k("key00003")).expect("delete");
            db.flush().expect("flush");
        }
        let db = Db::open(&dir, config).expect("reopen");
        assert_eq!(db.iter().count(), 149);
        assert_eq!(db.get(b"key00003").expect("get"), None);
        let last = (150..200u32).find(|i| (i * 7919) % 150 == 19);
        let expected = last.unwrap_or((0..150u32).find(|i| (i * 7919) % 150 == 19).expect("one"));
        assert_eq!(
            db.get(b"key00019").expect("get"),
            Some(expected.to_le_bytes().to_vec())
        );
    }
}
