use vectordb::storage::block::FOOTER_BYTES;
use vectordb::storage::sstable::DEFAULT_BLOCK_TARGET_BYTES;
use vectordb::storage::{Key, MemTable, SSTable, SSTableMeta, SSTableWriter, Value};

fn k(s: &str) -> Key {
    s.as_bytes().to_vec()
}

fn put(s: &str) -> Value {
    Value::Put(s.as_bytes().to_vec())
}

fn numbered_key(i: usize) -> Key {
    format!("key{i:06}").into_bytes()
}

fn write_table(entries: &[(Key, Value)], block_size: usize) -> (Vec<u8>, SSTableMeta) {
    let mut writer = SSTableWriter::create_with_block_size(block_size);
    for (key, value) in entries {
        writer.append(key, value).expect("append");
    }
    writer.finish()
}

#[test]
fn round_trips_a_single_block() {
    let entries = vec![
        (k("alpha"), put("1")),
        (k("bravo"), Value::Tombstone),
        (k("charlie"), put("3")),
    ];

    let (bytes, meta) = write_table(&entries, DEFAULT_BLOCK_TARGET_BYTES);
    assert_eq!(meta.entry_count, 3);
    assert_eq!(meta.block_count, 1);

    let table = SSTable::open(bytes).expect("open");
    let read: Vec<_> = table.entries().into_iter().map(|r| r.expect("read entry")).collect();
    assert_eq!(read, entries);
}

#[test]
fn tombstones_survive_the_round_trip() {
    let (bytes, _) = write_table(&[
            (k("deleted"), Value::Tombstone),
            (k("empty-value"), Value::Put(Vec::new())),
        ],
        DEFAULT_BLOCK_TARGET_BYTES,
    );

    let table = SSTable::open(bytes).expect("open");
    assert_eq!(table.get(b"deleted").expect("get"), Some(Value::Tombstone));
    assert_eq!(
        table.get(b"empty-value").expect("get"),
        Some(Value::Put(Vec::new())),
        "an empty value must not be confused with a tombstone on disk"
    );
}

#[test]
fn point_lookups_work_across_many_blocks() {

    let entries: Vec<(Key, Value)> = (0..500)
        .map(|i| (numbered_key(i), Value::Put(format!("value-{i}").into_bytes())))
        .collect();
    let (bytes, meta) = write_table(&entries, 256);
    assert!(
        meta.block_count > 20,
        "expected many blocks, got {}",
        meta.block_count
    );

    let table = SSTable::open(bytes).expect("open");
    assert_eq!(table.entry_count(), 500);

    for (key, expected) in &entries {
        assert_eq!(
            table.get(key).expect("get").as_ref(),
            Some(expected),
            "lookup failed for {:?}",
            String::from_utf8_lossy(key)
        );
    }
}

#[test]
fn absent_keys_return_none_everywhere_in_the_range() {

    let entries: Vec<(Key, Value)> = (0..200)
        .filter(|i| i % 2 == 0)
        .map(|i| (numbered_key(i), put("v")))
        .collect();
    let (bytes, _) = write_table(&entries, 128);

    let table = SSTable::open(bytes).expect("open");
    for i in (1..200).step_by(2) {
        assert_eq!(
            table.get(&numbered_key(i)).expect("get"),
            None,
            "odd key {i} should be absent"
        );
    }
    assert_eq!(table.get(b"aaaa").expect("get"), None);
    assert_eq!(table.get(b"zzzz").expect("get"), None);
}

#[test]
fn iteration_returns_every_entry_in_order() {

    let entries: Vec<(Key, Value)> = (0..300)
        .map(|i| {
            let value = if i % 7 == 0 {
                Value::Tombstone
            } else {
                Value::Put(vec![b'x'; i % 50])
            };
            (numbered_key(i), value)
        })
        .collect();
    let (bytes, _) = write_table(&entries, 200);

    let table = SSTable::open(bytes).expect("open");
    let read: Vec<_> = table.entries().into_iter().map(|r| r.expect("read entry")).collect();
    assert_eq!(read, entries);
}

#[test]
fn key_range_is_reported_for_overlap_checks() {

    let (left, _) = write_table(&[(k("a"), put("1")), (k("m"), put("2"))],
        DEFAULT_BLOCK_TARGET_BYTES,
    );
    let (right, _) = write_table(&[(k("n"), put("3")), (k("z"), put("4"))],
        DEFAULT_BLOCK_TARGET_BYTES,
    );
    let (straddling, _) = write_table(&[(k("f"), put("5")), (k("t"), put("6"))],
        DEFAULT_BLOCK_TARGET_BYTES,
    );

    let left = SSTable::open(left).expect("open");
    let right = SSTable::open(right).expect("open");
    let straddling = SSTable::open(straddling).expect("open");

    assert_eq!(left.min_key(), Some(&k("a")));
    assert_eq!(left.max_key(), Some(&k("m")));

    assert!(!left.overlaps(&right), "a..m and n..z must not overlap");
    assert!(left.overlaps(&straddling));
    assert!(straddling.overlaps(&right));
    assert!(left.overlaps(&left));
}

#[test]
fn max_key_comes_from_the_end_of_the_last_block() {

    let entries: Vec<(Key, Value)> = (0..100).map(|i| (numbered_key(i), put("v"))).collect();
    let (bytes, meta) = write_table(&entries, 64);
    assert!(meta.block_count > 1);

    let table = SSTable::open(bytes).expect("open");
    assert_eq!(table.min_key(), Some(&numbered_key(0)));
    assert_eq!(table.max_key(), Some(&numbered_key(99)));
}

#[test]
fn out_of_order_appends_are_rejected() {

    let mut writer = SSTableWriter::create();
    writer.append(b"bravo", &put("1")).expect("append");

    let backwards = writer.append(b"alpha", &put("2"));
    assert!(backwards.is_err(), "a descending key must be rejected");

    let duplicate = writer.append(b"bravo", &put("3"));
    assert!(
        duplicate.is_err(),
        "a duplicate key must be rejected: the flush path is responsible for \
         collapsing duplicates before they reach the writer"
    );
}

#[test]
fn an_empty_sstable_is_readable() {

    let (bytes, meta) = write_table(&[], DEFAULT_BLOCK_TARGET_BYTES);
    assert_eq!(meta.entry_count, 0);
    assert_eq!(meta.block_count, 0);

    let table = SSTable::open(bytes).expect("open");
    assert_eq!(table.get(b"anything").expect("get"), None);
    assert_eq!(table.entries().len(), 0);
    assert_eq!(table.min_key(), None);
    assert_eq!(table.max_key(), None);
}

#[test]
fn large_values_get_their_own_blocks() {

    let big = vec![0xABu8; 4000];
    let entries = vec![
        (k("a"), Value::Put(big.clone())),
        (k("b"), put("small")),
        (k("c"), Value::Put(big.clone())),
    ];
    let (bytes, _) = write_table(&entries, 256);

    let table = SSTable::open(bytes).expect("open");
    assert_eq!(table.get(b"a").expect("get"), Some(Value::Put(big.clone())));
    assert_eq!(table.get(b"c").expect("get"), Some(Value::Put(big)));
    assert_eq!(table.get(b"b").expect("get"), Some(put("small")));
}

#[test]
fn a_memtable_flushes_into_a_readable_sstable() {

    let mut memtable = MemTable::new();
    memtable.put(k("charlie"), b"3".to_vec());
    memtable.put(k("alpha"), b"1".to_vec());
    memtable.delete(k("bravo"));
    memtable.put(k("alpha"), b"overwritten".to_vec());

    let mut writer = SSTableWriter::create();
    for (key, value) in memtable.into_entries() {
        writer.append(&key, &value).expect("append");
    }
    let (bytes, _) = writer.finish();

    let table = SSTable::open(bytes).expect("open");
    assert_eq!(
        table.get(b"alpha").expect("get"),
        Some(Value::Put(b"overwritten".to_vec()))
    );
    assert_eq!(table.get(b"bravo").expect("get"), Some(Value::Tombstone));
    assert_eq!(table.get(b"charlie").expect("get"), Some(put("3")));
}

#[test]
fn a_truncated_file_is_rejected_rather_than_half_read() {

    let entries: Vec<(Key, Value)> = (0..100).map(|i| (numbered_key(i), put("v"))).collect();
    let (bytes, _) = write_table(&entries, 128);

    let mut bytes = bytes;
    bytes.truncate(bytes.len() - 10);

    assert!(
        SSTable::open(bytes).is_err(),
        "a footerless file must be rejected: adopting a partial SSTable into \
         the tree would silently lose the missing entries"
    );
}

#[test]
fn block_corruption_is_caught_by_the_checksum() {

    let entries: Vec<(Key, Value)> = (0..50)
        .map(|i| (numbered_key(i), Value::Put(vec![b'v'; 20])))
        .collect();
    let (bytes, _) = write_table(&entries, 256);

    let mut bytes = bytes;
    bytes[30] ^= 0b0001_0000;

    let table = SSTable::open(bytes).expect("open: the footer and index are intact");
    let first_block_read = table.get(&numbered_key(0));
    assert!(
        first_block_read.is_err(),
        "a corrupted block must surface as an error, not as wrong data"
    );
}

#[test]
fn a_corrupt_footer_is_rejected() {
    let (bytes, _) = write_table(&[(k("a"), put("1"))], DEFAULT_BLOCK_TARGET_BYTES);

    let mut bytes = bytes;
    let len = bytes.len();
    bytes[len - FOOTER_BYTES] ^= 0xFF;

    assert!(SSTable::open(bytes).is_err());
}

#[test]
fn the_bloom_filter_eliminates_most_reads_for_absent_keys() {

    let entries: Vec<(Key, Value)> = (0..2000).map(|i| (numbered_key(i * 2), put("v"))).collect();
    let (bytes, _) = write_table(&entries, 512);

    let table = SSTable::open(bytes).expect("open");
    assert!(table.has_bloom_filter());
    assert_eq!(table.blocks_read(), 0, "open must not count as query I/O");

    let probes = 2000usize;
    for i in 0..probes {
        let absent = numbered_key(i * 2 + 1);
        assert_eq!(table.get(&absent).expect("get"), None);
    }

    assert!(
        table.blocks_read() < (probes / 10) as u64,
        "expected the filter to absorb nearly all {probes} probes, but {} block \
         reads happened",
        table.blocks_read()
    );
    assert!(table.bloom_rejections() > (probes * 9 / 10) as u64);
}

#[test]
fn results_are_identical_with_and_without_the_filter() {
    let entries: Vec<(Key, Value)> = (0..400)
        .map(|i| {
            let value = if i % 5 == 0 {
                Value::Tombstone
            } else {
                Value::Put(format!("v{i}").into_bytes())
            };
            (numbered_key(i * 2), value)
        })
        .collect();

    let (with_filter, _) = write_table(&entries, 256);

    let mut writer = SSTableWriter::create_with_block_size(256).with_bloom_bits_per_key(0);
    for (key, value) in &entries {
        writer.append(key, value).expect("append");
    }
    let (without_filter, _) = writer.finish();

    let with = SSTable::open(with_filter).expect("open");
    let without = SSTable::open(without_filter).expect("open");
    assert!(with.has_bloom_filter());
    assert!(!without.has_bloom_filter());

    for i in 0..900 {
        let key = numbered_key(i);
        assert_eq!(
            with.get(&key).expect("get"),
            without.get(&key).expect("get"),
            "filter changed the answer for {:?}",
            String::from_utf8_lossy(&key)
        );
    }
    assert!(
        with.blocks_read() < without.blocks_read(),
        "the filter should have saved reads: {} vs {}",
        with.blocks_read(),
        without.blocks_read()
    );
}

#[test]
fn tombstoned_keys_are_present_in_the_filter() {

    let entries: Vec<(Key, Value)> = (0..300)
        .map(|i| (numbered_key(i), Value::Tombstone))
        .collect();
    let (bytes, _) = write_table(&entries, 256);

    let table = SSTable::open(bytes).expect("open");
    for i in 0..300 {
        assert_eq!(
            table.get(&numbered_key(i)).expect("get"),
            Some(Value::Tombstone),
            "tombstone for key {i} was filtered out"
        );
    }
    assert_eq!(
        table.bloom_rejections(),
        0,
        "no inserted key may be rejected by the filter"
    );
}

#[test]
fn a_foreign_file_is_not_mistaken_for_an_sstable() {
    assert!(SSTable::open(vec![0x42u8; 500]).is_err());
}

#[test]
fn the_bits_of_a_filter_can_change_between_entries() {
    let mut writer = SSTableWriter::create_with_block_size(64);
    writer.append(b"alpha", &put("1")).expect("append");
    let mut writer = writer.with_bloom_bits_per_key(20 << 52);
    writer.append(b"bravo", &put("2")).expect("append");
    let (bytes, meta) = writer.finish();
    assert_eq!(meta.entry_count, 2);
    let table = SSTable::open(bytes).expect("open");
    assert!(table.has_bloom_filter());
    assert_eq!(table.get(b"alpha").expect("get"), Some(put("1")));
    assert_eq!(table.get(b"bravo").expect("get"), Some(put("2")));

    let mut writer = SSTableWriter::create_with_block_size(64);
    writer.append(b"alpha", &put("1")).expect("append");
    let (bytes, _) = writer.with_bloom_bits_per_key(0).finish();
    let table = SSTable::open(bytes).expect("open");
    assert!(!table.has_bloom_filter());
    assert_eq!(table.get(b"alpha").expect("get"), Some(put("1")));
}
