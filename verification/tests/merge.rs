use vectordb::storage::merge::{memtable_source, sstable_source, Source};
use vectordb::storage::{
    Key, MemTable, MergeIterator, SSTable, SSTableWriter, StorageError, Value,
};

fn k(s: &str) -> Key {
    s.as_bytes().to_vec()
}

fn put(s: &str) -> Value {
    Value::Put(s.as_bytes().to_vec())
}

fn source(entries: Vec<(Key, Value)>) -> Source {
    entries.into_iter().map(Ok).collect()
}

fn collect(merger: MergeIterator) -> Vec<(Key, Value)> {
    merger.collect().expect("merge entries")
}

#[test]
fn merges_disjoint_runs_into_sorted_order() {
    let newest = source(vec![(k("a"), put("1")), (k("d"), put("4"))]);
    let oldest = source(vec![(k("b"), put("2")), (k("c"), put("3"))]);

    let merged = collect(MergeIterator::new(vec![newest, oldest]));
    assert_eq!(
        merged,
        vec![
            (k("a"), put("1")),
            (k("b"), put("2")),
            (k("c"), put("3")),
            (k("d"), put("4")),
        ]
    );
}

#[test]
fn the_newest_run_wins_a_collision() {
    let newest = source(vec![(k("shared"), put("new"))]);
    let middle = source(vec![(k("shared"), put("middle"))]);
    let oldest = source(vec![(k("shared"), put("old"))]);

    let merged = collect(MergeIterator::new(vec![newest, middle, oldest]));
    assert_eq!(
        merged,
        vec![(k("shared"), put("new"))],
        "a key present in three runs must be emitted once, from the newest"
    );
}

#[test]
fn source_order_determines_the_winner() {
    let build = || {
        (
            source(vec![(k("shared"), put("new"))]),
            source(vec![(k("shared"), put("old"))]),
        )
    };

    let (newest, oldest) = build();
    assert_eq!(
        collect(MergeIterator::new(vec![newest, oldest])),
        vec![(k("shared"), put("new"))]
    );

    let (newest, oldest) = build();
    assert_eq!(
        collect(MergeIterator::new(vec![oldest, newest])),
        vec![(k("shared"), put("old"))],
        "passing sources oldest-first returns stale data; it is the caller's \
         job to order them"
    );
}

#[test]
fn a_newer_tombstone_shadows_an_older_value() {
    let newest = source(vec![(k("gone"), Value::Tombstone)]);
    let oldest = source(vec![(k("gone"), put("still here"))]);

    let merged = collect(MergeIterator::new(vec![newest, oldest]));
    assert_eq!(
        merged,
        vec![(k("gone"), Value::Tombstone)],
        "the tombstone must be emitted so it keeps shadowing lower levels"
    );
}

#[test]
fn a_newer_value_resurrects_over_an_older_tombstone() {
    let newest = source(vec![(k("key"), put("rewritten"))]);
    let oldest = source(vec![(k("key"), Value::Tombstone)]);

    let merged = collect(MergeIterator::new(vec![newest, oldest]));
    assert_eq!(merged, vec![(k("key"), put("rewritten"))]);
}

#[test]
fn dropping_tombstones_removes_them_and_what_they_shadow() {
    let newest = source(vec![(k("a"), put("1")), (k("b"), Value::Tombstone)]);
    let oldest = source(vec![(k("b"), put("doomed")), (k("c"), put("3"))]);

    let merged = collect(MergeIterator::dropping_tombstones(vec![newest, oldest]));
    assert_eq!(
        merged,
        vec![(k("a"), put("1")), (k("c"), put("3"))],
        "at the bottom level both the tombstone and the value it shadows go away"
    );
}

#[test]
fn keeping_tombstones_is_the_default() {
    let newest = source(vec![(k("b"), Value::Tombstone)]);
    let oldest = source(vec![(k("b"), put("doomed"))]);

    let merged = collect(MergeIterator::new(vec![newest, oldest]));
    assert_eq!(merged, vec![(k("b"), Value::Tombstone)]);
}

#[test]
fn handles_empty_and_absent_sources() {
    assert_eq!(collect(MergeIterator::new(vec![])), vec![]);
    assert_eq!(collect(MergeIterator::new(vec![source(vec![])])), vec![]);

    let merged = collect(MergeIterator::new(vec![
        source(vec![]),
        source(vec![(k("a"), put("1"))]),
        source(vec![]),
    ]));
    assert_eq!(merged, vec![(k("a"), put("1"))]);
}

#[test]
fn runs_of_very_different_lengths_merge_correctly() {
    let long: Vec<(Key, Value)> = (0..1000)
        .map(|i| (format!("key{i:05}").into_bytes(), put("old")))
        .collect();
    let short: Vec<(Key, Value)> = (0..1000)
        .step_by(100)
        .map(|i| (format!("key{i:05}").into_bytes(), put("new")))
        .collect();

    let merged = collect(MergeIterator::new(vec![source(short), source(long)]));
    assert_eq!(merged.len(), 1000, "collisions must not duplicate keys");

    for (index, (key, value)) in merged.iter().enumerate() {
        assert_eq!(key, &format!("key{index:05}").into_bytes());
        let expected = if index % 100 == 0 { "new" } else { "old" };
        assert_eq!(value, &put(expected), "wrong winner at index {index}");
    }
}

#[test]
fn output_is_strictly_ascending_across_many_overlapping_runs() {
    let sources: Vec<Source> = (0..10)
        .map(|offset| {
            let entries: Vec<(Key, Value)> = (0..100)
                .map(|i| {
                    let n = i * 10 + offset;
                    (format!("key{n:05}").into_bytes(), put("v"))
                })
                .collect();
            source(entries)
        })
        .collect();

    let merged = collect(MergeIterator::new(sources));
    assert_eq!(merged.len(), 1000);
    for pair in merged.windows(2) {
        assert!(
            pair[0].0 < pair[1].0,
            "merge output must strictly ascend: {:?} then {:?}",
            String::from_utf8_lossy(&pair[0].0),
            String::from_utf8_lossy(&pair[1].0)
        );
    }
}

#[test]
fn a_key_in_every_run_is_emitted_once() {
    let sources: Vec<Source> = (0..20)
        .map(|i| source(vec![(k("hot"), put(&format!("version{i}")))]))
        .collect();

    let merged = collect(MergeIterator::new(sources));
    assert_eq!(merged, vec![(k("hot"), put("version0"))]);
}

#[test]
fn errors_are_surfaced_not_swallowed() {
    let healthy = source(vec![(k("a"), put("1")), (k("z"), put("26"))]);
    let broken: Source = vec![Ok((k("b"), put("2"))), Err(StorageError::BlockChecksum { offset: 0 })];

    let mut merger = MergeIterator::new(vec![healthy, broken]);
    let mut results = Vec::new();
    while let Some(entry) = merger.next() {
        results.push(entry);
    }
    assert!(
        results.iter().any(|entry| entry.is_err()),
        "the merge must report the failing source"
    );
}

#[test]
fn merging_real_sstables_and_a_memtable() {

    let mut writer = SSTableWriter::create();
    for key in ["alpha", "bravo", "charlie"] {
        writer.append(key.as_bytes(), &put("old")).expect("append");
    }
    let (old_bytes, _) = writer.finish();

    let mut writer = SSTableWriter::create();
    writer.append(b"bravo", &put("newer")).expect("append");
    writer
        .append(b"charlie", &Value::Tombstone)
        .expect("append");
    let (new_bytes, _) = writer.finish();

    let mut memtable = MemTable::new();
    memtable.put(k("delta"), b"fresh".to_vec());
    memtable.put(k("alpha"), b"newest".to_vec());

    let old_table = SSTable::open(old_bytes).expect("open");
    let new_table = SSTable::open(new_bytes).expect("open");

    let merged = collect(MergeIterator::new(vec![
        memtable_source(&memtable),
        sstable_source(&new_table),
        sstable_source(&old_table),
    ]));

    assert_eq!(
        merged,
        vec![
            (k("alpha"), put("newest")),
            (k("bravo"), put("newer")),
            (k("charlie"), Value::Tombstone),
            (k("delta"), put("fresh")),
        ]
    );

    let compacted = collect(MergeIterator::dropping_tombstones(vec![
        memtable_source(&memtable),
        sstable_source(&new_table),
        sstable_source(&old_table),
    ]));
    assert_eq!(
        compacted,
        vec![
            (k("alpha"), put("newest")),
            (k("bravo"), put("newer")),
            (k("delta"), put("fresh")),
        ]
    );

}
