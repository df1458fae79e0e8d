use vectordb::storage::wal::HEADER_BYTES;
use vectordb::storage::{Key, MemTable, SyncPolicy, Value, Wal};

fn empty(policy: SyncPolicy) -> Wal {
    Wal::open(Vec::new(), policy)
}

fn k(s: &str) -> Key {
    s.as_bytes().to_vec()
}

fn put(s: &str) -> Value {
    Value::Put(s.as_bytes().to_vec())
}

#[test]
fn replaying_a_missing_log_yields_nothing() {
    let replay = Wal::replay(&[]);
    assert!(replay.records.is_empty());
    assert_eq!(replay.discarded_tail_bytes, 0);
}

#[test]
fn records_round_trip_in_append_order() {

    let mut wal = empty(SyncPolicy::EveryWrite);
    wal.append(b"alpha", &put("one")).expect("append");
    wal.append(b"bravo", &Value::Tombstone).expect("append");
    wal.append(b"alpha", &put("two")).expect("append");
    wal.sync();

    let replay = Wal::replay(wal.bytes());
    assert_eq!(
        replay.records,
        vec![
            (k("alpha"), put("one")),
            (k("bravo"), Value::Tombstone),
            (k("alpha"), put("two")),
        ],
        "order matters: replaying in sequence is what makes the last write win"
    );
    assert_eq!(replay.discarded_tail_bytes, 0, "a clean log discards nothing");
}

#[test]
fn handles_empty_keys_values_and_binary_data() {

    let binary: Vec<u8> = (0..=255u8).collect();
    let mut wal = empty(SyncPolicy::Manual);
    wal.append(b"", &put("empty key")).expect("append");
    wal.append(b"empty value", &Value::Put(Vec::new()))
        .expect("append");
    wal.append(&binary, &Value::Put(binary.clone()))
        .expect("append");
    wal.sync();

    let replay = Wal::replay(wal.bytes());
    assert_eq!(replay.records.len(), 3);
    assert_eq!(replay.records[0], (Vec::new(), put("empty key")));
    assert_eq!(
        replay.records[1],
        (k("empty value"), Value::Put(Vec::new())),
        "an empty value must stay a Put, not decay into a tombstone"
    );
    assert_eq!(replay.records[2], (binary.clone(), Value::Put(binary)));
    assert_eq!(replay.discarded_tail_bytes, 0);
}

#[test]
fn replay_rebuilds_an_equivalent_memtable() {

    let mut before = MemTable::new();
    let mut wal = empty(SyncPolicy::EveryWrite);
    let mutations: Vec<(&[u8], Value)> = vec![
        (b"alpha", put("1")),
        (b"bravo", put("2")),
        (b"alpha", put("overwritten")),
        (b"charlie", put("3")),
        (b"bravo", Value::Tombstone),
        (b"delta", Value::Tombstone),
    ];
    for (key, value) in mutations {
        wal.append(key, &value).expect("append");
        match value {
            Value::Put(bytes) => {
                before.put(key.to_vec(), bytes);
            }
            Value::Tombstone => {
                before.delete(key.to_vec());
            }
        }
    }

    let mut after = MemTable::new();
    for (key, value) in Wal::replay(wal.bytes()).records {
        match value {
            Value::Put(bytes) => after.put(key, bytes),
            Value::Tombstone => after.delete(key),
        };
    }

    let expected: Vec<_> = before.iter().iter().map(|(k, v)| (k.clone(), v.clone())).collect();
    let recovered: Vec<_> = after.iter().iter().map(|(k, v)| (k.clone(), v.clone())).collect();
    assert_eq!(expected, recovered);
    assert_eq!(
        after.get(b"alpha").and_then(Value::as_bytes),
        Some(b"overwritten".as_slice()),
        "the later write must win after replay"
    );
    assert_eq!(
        after.get(b"bravo"),
        Some(&Value::Tombstone),
        "a delete must not be undone by replaying the earlier put"
    );
}

#[test]
fn reopening_appends_rather_than_truncating() {
    let mut wal = empty(SyncPolicy::EveryWrite);
    wal.append(b"first", &put("1")).expect("append");

    let mut wal = Wal::open(wal.bytes().to_vec(), SyncPolicy::EveryWrite);
    assert!(wal.bytes_written() > 0, "reopen must see the existing bytes");
    wal.append(b"second", &put("2")).expect("append");

    let replay = Wal::replay(wal.bytes());
    assert_eq!(replay.records.len(), 2);
}

#[test]
fn a_torn_tail_costs_only_the_partial_record() {
    let mut wal = empty(SyncPolicy::EveryWrite);
    for i in 0..10 {
        wal.append(format!("key{i:02}").as_bytes(), &put(&format!("value{i}")))
            .expect("append");
    }

    let mut bytes = wal.bytes().to_vec();
    let intact = Wal::replay(&bytes).records.len();
    assert_eq!(intact, 10);

    bytes.truncate(bytes.len() - 5);

    let replay = Wal::replay(&bytes);
    assert_eq!(
        replay.records.len(),
        9,
        "the nine complete records must survive a torn tenth"
    );
    assert!(
        replay.discarded_tail_bytes > 0,
        "the partial record must be reported as discarded"
    );

    let mut wal = Wal::open(bytes, SyncPolicy::EveryWrite);
    wal.append(b"after-crash", &put("ok")).expect("append");
    wal.sync();

    let reopened = Wal::replay(wal.bytes());
    assert_eq!(
        reopened.records.last().expect("a last record").0,
        k("after-crash")
    );
}

#[test]
fn truncation_at_any_offset_is_survivable() {
    let mut wal = empty(SyncPolicy::Manual);
    for i in 0..6 {
        wal.append(format!("key{i}").as_bytes(), &put(&format!("value-{i}")))
            .expect("append");
    }
    wal.sync();

    let full = wal.bytes().to_vec();
    let complete = Wal::replay(&full).records;

    for cut in 0..=full.len() {
        let replay = Wal::replay(&full[..cut]);
        assert!(
            replay.records.len() <= complete.len(),
            "truncation invented records at cut {cut}"
        );
        assert_eq!(
            replay.records[..],
            complete[..replay.records.len()],
            "surviving records must be a prefix of the original at cut {cut}"
        );
    }
}

#[test]
fn corruption_is_detected_not_returned() {
    let mut wal = empty(SyncPolicy::Manual);
    wal.append(b"alpha", &put("the original value"))
        .expect("append");
    wal.append(b"bravo", &put("second")).expect("append");
    wal.sync();

    let mut bytes = wal.bytes().to_vec();
    let victim = HEADER_BYTES + 12;
    bytes[victim] ^= 0b0000_1000;

    let replay = Wal::replay(&bytes);
    assert!(
        replay.records.is_empty(),
        "a corrupt first record must stop replay, not be handed back as data"
    );
    assert_eq!(replay.discarded_tail_bytes, bytes.len() as u64);
}

#[test]
fn a_garbage_length_field_does_not_allocate_wildly() {
    let mut bytes = u32::MAX.to_le_bytes().to_vec();
    bytes.extend_from_slice(&0u32.to_le_bytes());
    bytes.extend_from_slice(b"not really four gigabytes");

    let replay = Wal::replay(&bytes);
    assert!(replay.records.is_empty());
    assert_eq!(replay.discarded_tail_bytes, bytes.len() as u64);
}

#[test]
fn recover_physically_truncates_the_torn_tail() {
    let mut wal = empty(SyncPolicy::Manual);
    wal.append(b"alpha", &put("one")).expect("append");
    wal.append(b"bravo", &put("two")).expect("append");
    wal.sync();

    let mut bytes = wal.bytes().to_vec();
    bytes.extend_from_slice(b"\x40\x00\x00\x00\x99\x99\x99");
    let torn_len = bytes.len();

    let (mut wal, replay) = Wal::recover(bytes, SyncPolicy::Manual);
    assert_eq!(replay.records.len(), 2);
    assert_eq!(replay.discarded_tail_bytes, 7);
    assert_eq!(
        wal.bytes().len(),
        torn_len - 7,
        "the fragment must be gone from the log, not merely skipped"
    );

    wal.append(b"charlie", &put("three")).expect("append");
    wal.sync();

    let after = Wal::replay(wal.bytes());
    assert_eq!(after.records.len(), 3, "the post-crash write must be recoverable");
    assert_eq!(after.discarded_tail_bytes, 0);
}
