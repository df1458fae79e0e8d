use vectordb::storage::memtable::ENTRY_OVERHEAD_BYTES;
use vectordb::storage::{Key, KeyBound, MemTable, UserValue, Value};

fn k(s: &str) -> Key {
    s.as_bytes().to_vec()
}

fn v(s: &str) -> UserValue {
    s.as_bytes().to_vec()
}

#[test]
fn empty_memtable_has_no_entries() {
    let table = MemTable::new();
    assert!(table.is_empty());
    assert_eq!(table.entry_count(), 0);
    assert_eq!(table.approx_size_bytes(), 0);
    assert_eq!(table.get(b"absent"), None);
}

#[test]
fn put_then_get_returns_the_value() {
    let mut table = MemTable::new();
    assert_eq!(table.put(k("alpha"), v("one")), None);
    assert_eq!(table.get(b"alpha"), Some(&Value::Put(v("one"))));
    assert_eq!(table.entry_count(), 1);
}

#[test]
fn overwrite_returns_newest_value_and_keeps_one_entry() {
    let mut table = MemTable::new();
    table.put(k("alpha"), v("one"));
    let replaced = table.put(k("alpha"), v("two"));

    assert_eq!(replaced, Some(Value::Put(v("one"))));
    assert_eq!(table.get(b"alpha"), Some(&Value::Put(v("two"))));
    assert_eq!(table.entry_count(), 1, "overwrite must not add an entry");
}

#[test]
fn delete_writes_a_tombstone_not_a_removal() {
    let mut table = MemTable::new();
    table.put(k("alpha"), v("one"));
    let replaced = table.delete(k("alpha"));

    assert_eq!(replaced, Some(Value::Put(v("one"))));
    assert_eq!(table.get(b"alpha"), Some(&Value::Tombstone));
    assert_eq!(table.entry_count(), 1);
}

#[test]
fn delete_of_unknown_key_still_writes_a_tombstone() {
    let mut table = MemTable::new();
    assert_eq!(table.delete(k("never-seen")), None);
    assert_eq!(table.get(b"never-seen"), Some(&Value::Tombstone));
    assert_eq!(
        table.entry_count(),
        1,
        "the tombstone must exist to shadow older on-disk runs"
    );
}

#[test]
fn put_after_delete_resurrects_the_key() {
    let mut table = MemTable::new();
    table.put(k("alpha"), v("one"));
    table.delete(k("alpha"));
    let replaced = table.put(k("alpha"), v("three"));

    assert_eq!(replaced, Some(Value::Tombstone));
    assert_eq!(table.get(b"alpha"), Some(&Value::Put(v("three"))));
}

#[test]
fn iteration_is_in_sorted_key_order_including_tombstones() {
    let mut table = MemTable::new();
    table.put(k("delta"), v("4"));
    table.put(k("alpha"), v("1"));
    table.put(k("charlie"), v("3"));
    table.delete(k("bravo"));

    let keys: Vec<Key> = table.iter().iter().map(|(key, _)| key.clone()).collect();
    assert_eq!(keys, vec![k("alpha"), k("bravo"), k("charlie"), k("delta")]);

    let values: Vec<&Value> = table.iter().iter().map(|(_, value)| value).collect();
    assert!(
        values[1].is_tombstone(),
        "tombstones must survive iteration"
    );
}

#[test]
fn range_scan_respects_bounds() {
    let mut table = MemTable::new();
    for key in ["a", "b", "c", "d", "e"] {
        table.put(k(key), v(key));
    }

    let scanned: Vec<Key> = table
        .range(KeyBound::Included(&k("b")), KeyBound::Excluded(&k("d")))
        .iter()
        .map(|(key, _)| key.clone())
        .collect();
    assert_eq!(scanned, vec![k("b"), k("c")], "end bound is exclusive");

    let inclusive: Vec<Key> = table
        .range(KeyBound::Included(&k("b")), KeyBound::Included(&k("d")))
        .iter()
        .map(|(key, _)| key.clone())
        .collect();
    assert_eq!(inclusive, vec![k("b"), k("c"), k("d")]);

    let borrowed: Vec<Key> = table
        .range(KeyBound::Included(b"c"), KeyBound::Unbounded)
        .iter()
        .map(|(key, _)| key.clone())
        .collect();
    assert_eq!(borrowed, vec![k("c"), k("d"), k("e")]);
}

#[test]
fn size_accounting_charges_key_value_and_overhead() {
    let mut table = MemTable::new();
    table.put(k("alpha"), v("one"));
    assert_eq!(table.approx_size_bytes(), ENTRY_OVERHEAD_BYTES + 5 + 3);

    table.put(k("bb"), v("cccc"));
    assert_eq!(
        table.approx_size_bytes(),
        2 * ENTRY_OVERHEAD_BYTES + 5 + 3 + 2 + 4
    );
}

#[test]
fn size_accounting_swaps_charges_on_overwrite() {
    let mut table = MemTable::new();
    table.put(k("alpha"), v("one"));
    table.put(k("alpha"), v("a much longer value"));

    assert_eq!(
        table.approx_size_bytes(),
        ENTRY_OVERHEAD_BYTES + 5 + "a much longer value".len(),
        "an overwrite must replace the old charge, not add to it"
    );
}

#[test]
fn size_accounting_shrinks_when_a_put_becomes_a_tombstone() {
    let mut table = MemTable::new();
    table.put(k("alpha"), v("a long-ish value"));
    let before = table.approx_size_bytes();

    table.delete(k("alpha"));

    assert!(table.approx_size_bytes() < before);
    assert_eq!(
        table.approx_size_bytes(),
        ENTRY_OVERHEAD_BYTES + 5,
        "a tombstone costs key bytes plus overhead only"
    );
}

#[test]
fn size_accounting_never_underflows_under_churn() {
    let mut table = MemTable::new();
    for round in 0..50 {
        for key in 0..20u32 {
            let key = key.to_be_bytes().to_vec();
            if round % 3 == 0 {
                table.delete(key);
            } else {
                table.put(key, vec![b'x'; round]);
            }
        }
    }
    assert!(table.approx_size_bytes() >= 20 * ENTRY_OVERHEAD_BYTES);
    assert_eq!(table.entry_count(), 20);
}

#[test]
fn should_flush_tracks_the_threshold() {
    let mut table = MemTable::new();
    assert!(!table.should_flush(100));
    table.put(k("alpha"), vec![b'x'; 200]);
    assert!(table.should_flush(100));
}

#[test]
fn into_entries_yields_sorted_pairs_for_flush() {
    let mut table = MemTable::new();
    table.put(k("zulu"), v("z"));
    table.put(k("alpha"), v("a"));
    table.delete(k("mike"));

    let flushed: Vec<(Key, Value)> = table.into_entries();
    assert_eq!(
        flushed,
        vec![
            (k("alpha"), Value::Put(v("a"))),
            (k("mike"), Value::Tombstone),
            (k("zulu"), Value::Put(v("z"))),
        ]
    );
}

#[test]
fn the_last_call_that_named_a_key_is_found() {
    let mut table = MemTable::new();
    assert_eq!(table.get(b"k"), None);
    table.delete(b"k".to_vec());
    assert_eq!(table.get(b"k"), Some(&Value::Tombstone));
    table.put(b"k".to_vec(), Vec::new());
    assert_eq!(table.get(b"k"), Some(&Value::Put(Vec::new())));
    table.put(b"other".to_vec(), b"1".to_vec());
    table.put(b"k".to_vec(), b"2".to_vec());
    assert_eq!(table.get(b"k"), Some(&Value::Put(b"2".to_vec())));
    assert_eq!(table.get(b"other"), Some(&Value::Put(b"1".to_vec())));
    assert_eq!(table.get(b"kk"), None);
}
