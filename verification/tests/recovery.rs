use std::collections::BTreeMap;

use vectordb::storage::compaction::EcoTuneConfig;
use vectordb::storage::growth::HorizontalPolicy;
use vectordb::storage::recovery::{left_over_files, open_levels, replay_memtable};
use vectordb::storage::run::{write_run, TableOptions};
use vectordb::storage::{
    DiskAction, GrowthKind, Key, LsmConfig, LsmTree, Manifest, MergeKind, RunEntry, StorageError,
    SyncPolicy, UserValue, Value,
};

#[derive(Clone, Default)]
struct Disk {
    files: Vec<(String, Vec<u8>)>,
    manifest: Option<String>,
    log: Vec<u8>,
}

impl Disk {
    fn perform(&mut self, action: &DiskAction) {
        match action {
            DiskAction::WriteTable { name, bytes } => {
                self.files.retain(|file| &file.0 != name);
                self.files.push((name.clone(), bytes.clone()));
            }
            DiskAction::StoreManifest { text } => self.manifest = Some(text.clone()),
            DiskAction::TruncateLog { length } => self.log.truncate(*length as usize),
            DiskAction::AppendLog { bytes } => self.log.extend_from_slice(bytes),
            DiskAction::SyncLog => {}
            DiskAction::ResetLog => self.log.clear(),
            DiskAction::RemoveTable { name } => self.files.retain(|file| &file.0 != name),
        }
    }

    fn open(&self, config: &LsmConfig) -> Result<LsmTree, StorageError> {
        LsmTree::open(config.clone(), self.manifest.as_deref(), &self.files, self.log.clone())
    }
}

fn contents(tree: &LsmTree) -> Vec<(Key, UserValue)> {
    tree.iter()
        .into_iter()
        .map(|item| item.expect("an intact entry"))
        .collect()
}

fn expected(model: &BTreeMap<Key, UserValue>) -> Vec<(Key, UserValue)> {
    model.iter().map(|(key, value)| (key.clone(), value.clone())).collect()
}

fn config(growth: GrowthKind, merge: MergeKind) -> LsmConfig {
    LsmConfig {
        memtable_threshold_bytes: 400,
        sync_policy: SyncPolicy::EveryWrite,
        block_target_bytes: 64,
        target_file_size_bytes: 150,
        growth,
        merge,
        ..LsmConfig::default()
    }
}

/// Writes and deletes, and at each of them crashes after every single action.
fn survives_every_crash(config: LsmConfig, operations: u64) {
    let mut disk = Disk::default();
    let mut tree = disk.open(&config).expect("open");
    assert!(tree.take_actions().is_empty(), "nothing to mend yet");
    let mut model: BTreeMap<Key, UserValue> = BTreeMap::new();
    let mut crashes = 0;
    for i in 0..operations {
        let key = format!("key{:02}", i * 7 % 23).into_bytes();
        let before = expected(&model);
        if i % 5 == 4 {
            tree.delete(key.clone()).expect("delete");
            model.remove(&key);
        } else {
            let value = format!("value {i}").into_bytes();
            tree.put(key.clone(), value.clone()).expect("put");
            model.insert(key.clone(), value);
        }
        let after = expected(&model);
        assert_eq!(contents(&tree), after);
        assert_eq!(
            tree.contains_key(&key).expect("contains"),
            model.contains_key(&key)
        );

        let actions = tree.take_actions();
        assert_eq!(contents(&disk.open(&config).expect("open")), before);
        for action in &actions {
            disk.perform(action);
            let recovered = disk.open(&config).expect("a disk that can be opened");
            assert_eq!(contents(&recovered), after, "operation {i}, {action:?}");
            assert!(
                recovered.next_sequence() >= 1 && recovered.next_sequence() <= tree.next_sequence()
            );
            crashes += 1;
        }
    }
    assert!(tree.stats().flush_count > 2, "the workload must flush");
    assert!(tree.stats().compaction_count > 0, "the workload must compact");
    assert!(crashes > operations);

    let reopened = disk.open(&config).expect("open");
    assert_eq!(reopened.manifest(), tree.manifest());
    assert_eq!(reopened.level_count(), tree.level_count());
    assert_eq!(reopened.next_sequence(), tree.next_sequence());
}

#[test]
fn vertical_leveling_survives_every_crash() {
    let growth = GrowthKind::Vertical { buffer_bytes: 400, size_ratio: 2 };
    survives_every_crash(config(growth, MergeKind::Leveling), 120);
}

#[test]
fn vertical_tiering_survives_every_crash() {
    let growth = GrowthKind::Vertical { buffer_bytes: 400, size_ratio: 2 };
    survives_every_crash(config(growth, MergeKind::Tiering { runs_per_level: 3 }), 120);
}

#[test]
fn horizontal_leveling_survives_every_crash() {
    let growth = GrowthKind::HorizontalLeveling { levels: 3 };
    survives_every_crash(config(growth, MergeKind::Leveling), 120);
}

#[test]
fn horizontal_tiering_survives_every_crash() {
    let growth = GrowthKind::HorizontalTiering {
        levels: 3,
        buffer_bytes: 400,
        expected_data_bytes: 4000,
    };
    survives_every_crash(config(growth, MergeKind::Tiering { runs_per_level: 4 }), 120);
}

#[test]
fn vertiorizon_survives_every_crash() {
    let growth = GrowthKind::Vertiorizon {
        horizontal_levels: 2,
        size_ratio: 2,
        buffer_bytes: 400,
        initial_n: 2,
        policy: HorizontalPolicy::Leveling,
    };
    survives_every_crash(config(growth, MergeKind::Leveling), 120);
}

#[test]
fn ecotune_survives_every_crash() {
    let growth = GrowthKind::EcoTune {
        config: EcoTuneConfig { runs_per_round: 4, ..EcoTuneConfig::default() },
        top_capacity_bytes: 800,
    };
    survives_every_crash(config(growth, MergeKind::Tiering { runs_per_level: 4 }), 120);
}

#[test]
fn a_torn_log_is_cut_before_it_is_written_to() {
    let config = LsmConfig::default();
    let mut disk = Disk::default();
    let mut tree = disk.open(&config).expect("open");
    tree.put(b"whole".to_vec(), b"1".to_vec()).expect("put");
    for action in tree.take_actions() {
        disk.perform(&action);
    }
    let whole = disk.log.len() as u64;
    disk.log.extend_from_slice(&[9, 0, 0, 0, 1, 2, 3]);

    let mut tree = disk.open(&config).expect("open");
    let actions = tree.take_actions();
    assert_eq!(actions, vec![DiskAction::TruncateLog { length: whole }]);
    for action in &actions {
        disk.perform(action);
    }
    tree.put(b"later".to_vec(), b"2".to_vec()).expect("put");
    for action in tree.take_actions() {
        disk.perform(&action);
    }
    let tree = disk.open(&config).expect("open");
    assert_eq!(
        contents(&tree),
        vec![
            (b"later".to_vec(), b"2".to_vec()),
            (b"whole".to_vec(), b"1".to_vec()),
        ]
    );
}

#[test]
fn the_log_is_synced_as_the_policy_says() {
    let mut config = LsmConfig::default();
    let mut tree = Disk::default().open(&config).expect("open");
    tree.put(b"k".to_vec(), b"v".to_vec()).expect("put");
    let actions = tree.take_actions();
    assert_eq!(actions.len(), 2);
    assert!(matches!(actions[0], DiskAction::AppendLog { .. }));
    assert_eq!(actions[1], DiskAction::SyncLog);

    config.sync_policy = SyncPolicy::Manual;
    let mut tree = Disk::default().open(&config).expect("open");
    tree.put(b"k".to_vec(), b"v".to_vec()).expect("put");
    assert_eq!(tree.take_actions().len(), 1);
    tree.sync();
    assert_eq!(tree.take_actions(), vec![DiskAction::SyncLog]);
}

#[test]
fn tables_are_removed_only_behind_the_manifest() {
    let growth = GrowthKind::Vertical { buffer_bytes: 400, size_ratio: 2 };
    let config = config(growth, MergeKind::Leveling);
    let mut tree = Disk::default().open(&config).expect("open");
    for i in 0..200u32 {
        tree.put(format!("key{i:03}").into_bytes(), vec![b'v'; 20]).expect("put");
    }
    let actions = tree.take_actions();
    let mut written: Vec<String> = Vec::new();
    let mut live: Vec<String> = Vec::new();
    let mut removed = 0;
    for action in &actions {
        match action {
            DiskAction::WriteTable { name, .. } => {
                assert!(!written.contains(name), "{name} was written twice");
                written.push(name.clone());
            }
            DiskAction::StoreManifest { text } => {
                let manifest = Manifest::load(Some(text)).expect("load").expect("a manifest");
                live = manifest.referenced_files();
                for name in &live {
                    assert!(written.contains(name), "{name} is named before it is written");
                }
            }
            DiskAction::RemoveTable { name } => {
                assert!(!live.contains(name), "{name} is still named");
                removed += 1;
            }
            _ => {}
        }
    }
    assert!(removed > 0, "something must have been compacted away");
}

#[test]
fn only_what_the_manifest_names_is_left_over() {
    let manifest = Manifest {
        runs: vec![RunEntry {
            level: 0,
            sequence: 1,
            files: vec!["live.sst".to_string()],
            units: 1,
        }],
        next_sequence: 2,
    };
    let names: Vec<String> = ["live.sst", "dead.sst", "MANIFEST.tmp", "MANIFEST", "current.wal", ".sst"]
        .iter()
        .map(|name| name.to_string())
        .collect();
    assert_eq!(
        left_over_files(&manifest, &names),
        vec!["dead.sst".to_string(), "MANIFEST.tmp".to_string(), ".sst".to_string()]
    );
}

#[test]
fn runs_are_put_back_newest_first() {
    let options = TableOptions {
        block_target_bytes: 64,
        bloom_bits_per_key: 0,
        target_file_size_bytes: 1 << 20,
    };
    let mut files = Vec::new();
    for sequence in [3u64, 5, 4] {
        let entries = vec![(b"k".to_vec(), Value::Put(vec![sequence as u8]))];
        let run = write_run(options, 0, sequence, 1, &entries)
            .expect("write")
            .expect("a run");
        files.push((run.tables[0].name.clone(), run.tables[0].table.bytes().to_vec()));
    }
    let entries = (0..3)
        .map(|i| RunEntry {
            level: if i == 2 { 2 } else { 0 },
            sequence: [3, 5, 4][i],
            files: vec![files[i].0.clone()],
            units: 0,
        })
        .collect();
    let levels = open_levels(&files, entries).expect("open");
    assert_eq!(levels.len(), 3);
    let sequences: Vec<Vec<u64>> = levels
        .iter()
        .map(|level| level.iter().map(|run| run.sequence()).collect())
        .collect();
    assert_eq!(sequences, vec![vec![5, 3], vec![], vec![4]]);
    assert_eq!(levels[0][0].units(), 1, "a run stands for one unit at least");
}

#[test]
fn a_later_record_overwrites_an_earlier_one() {
    let memtable = replay_memtable(vec![
        (b"a".to_vec(), Value::Put(b"1".to_vec())),
        (b"b".to_vec(), Value::Put(b"2".to_vec())),
        (b"a".to_vec(), Value::Tombstone),
        (b"b".to_vec(), Value::Put(b"3".to_vec())),
    ]);
    assert_eq!(memtable.get(b"a"), Some(&Value::Tombstone));
    assert_eq!(memtable.get(b"b"), Some(&Value::Put(b"3".to_vec())));
    assert_eq!(memtable.entry_count(), 2);
    assert_eq!(memtable.approx_size_bytes(), 24 + 1 + 24 + 2);
}

#[test]
fn a_refused_write_changes_nothing_but_the_count() {
    let mut tree = Disk::default().open(&LsmConfig::default()).expect("open");
    tree.put(b"k".to_vec(), b"v".to_vec()).expect("put");
    tree.take_actions();
    let error = tree
        .put(b"big".to_vec(), vec![0; 64 * 1024 * 1024])
        .expect_err("longer than a record may be");
    assert!(matches!(error, StorageError::LogRecordOverLimit { .. }));
    assert!(tree.take_actions().is_empty());
    assert_eq!(tree.get(b"big").expect("get"), None);
    assert_eq!(tree.get(b"k").expect("get"), Some(b"v".to_vec()));
    assert_eq!(tree.stats().user_bytes_written, 2 + 3 + 64 * 1024 * 1024);
}

#[test]
fn a_closed_tree_opens_again_as_it_was() {
    let growth = GrowthKind::Vertical { buffer_bytes: 400, size_ratio: 2 };
    for merge in [MergeKind::Leveling, MergeKind::Tiering { runs_per_level: 3 }] {
        let config = LsmConfig { sync_policy: SyncPolicy::Manual, ..config(growth, merge) };
        let mut disk = Disk::default();
        let mut tree = disk.open(&config).expect("open");
        for i in 0..150u32 {
            let key = format!("key{:02}", i * 11 % 41).into_bytes();
            match i % 10 {
                3 => tree.delete(key).expect("delete"),
                6 => {
                    tree.flush().expect("flush");
                }
                8 => tree.compact_until_quiet().expect("compact"),
                _ => tree.put(key, vec![i as u8; 12]).expect("put"),
            }
            if i % 7 == 0 {
                for action in tree.take_actions() {
                    disk.perform(&action);
                }
            }
        }
        tree.sync();
        for action in tree.take_actions() {
            disk.perform(&action);
        }

        let reopened = disk.open(&config).expect("open");
        assert_eq!(contents(&reopened), contents(&tree));
        assert_eq!(reopened.stats().run_count, tree.stats().run_count);
        assert_eq!(reopened.next_sequence(), tree.next_sequence());
        for run in reopened.manifest().runs {
            assert!(run.sequence < reopened.next_sequence());
        }
    }
}

#[test]
fn leveling_holds_one_run_per_level_throughout() {
    let growth = GrowthKind::Vertical { buffer_bytes: 400, size_ratio: 2 };
    let config = config(growth, MergeKind::Leveling);
    let mut tree = Disk::default().open(&config).expect("open");
    for i in 0..600u32 {
        let key = format!("key{:03}", i * i * 31 % 199).into_bytes();
        tree.put(key, vec![b'v'; 20]).expect("put");
        for &runs in tree.stats().runs_per_level.iter().skip(1) {
            assert!(runs <= 1, "after write {i}: {:?}", tree.stats().runs_per_level);
        }
    }
    assert!(tree.stats().compaction_count > 20);
}

#[test]
fn a_torn_append_is_undone() {
    let config = LsmConfig::default();
    let mut disk = Disk::default();
    let mut tree = disk.open(&config).expect("open");
    tree.put(b"first".to_vec(), b"1".to_vec()).expect("put");
    for action in tree.take_actions() {
        disk.perform(&action);
    }
    let whole = disk.log.clone();
    tree.put(b"second".to_vec(), b"2".to_vec()).expect("put");
    for action in tree.take_actions() {
        disk.perform(&action);
    }
    for cut in whole.len()..disk.log.len() {
        let mut torn = disk.clone();
        torn.log.truncate(cut);
        let mut recovered = torn.open(&config).expect("open");
        assert_eq!(contents(&recovered), vec![(b"first".to_vec(), b"1".to_vec())]);
        for action in recovered.take_actions() {
            torn.perform(&action);
        }
        assert_eq!(torn.log, whole);
    }
}

#[test]
fn scans_and_lookups_agree() {
    let growth = GrowthKind::HorizontalLeveling { levels: 3 };
    let config = config(growth, MergeKind::Leveling);
    let mut tree = Disk::default().open(&config).expect("open");
    for i in 0..300u32 {
        let key = format!("key{:03}", i * 37 % 101).into_bytes();
        if i % 4 == 3 {
            tree.delete(key).expect("delete");
        } else {
            tree.put(key, format!("{i}").into_bytes()).expect("put");
        }
    }
    let all = contents(&tree);
    let mut live = 0;
    for i in 0..101u32 {
        let key = format!("key{i:03}").into_bytes();
        let found = tree.get(&key).expect("get");
        live += found.is_some() as usize;
        let listed = all.iter().find(|pair| pair.0 == key).map(|pair| pair.1.clone());
        assert_eq!(found, listed);
        let from: Vec<(Key, UserValue)> = tree
            .range_from(&key)
            .into_iter()
            .map(|item| item.expect("an intact entry"))
            .collect();
        let rest: Vec<(Key, UserValue)> =
            all.iter().filter(|pair| pair.0 >= key).cloned().collect();
        assert_eq!(from, rest);
    }
    assert_eq!(live, all.len());
}
