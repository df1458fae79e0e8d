use vectordb::storage::block::{push_sealed, read_checked_block, Footer};
use vectordb::storage::crc32::crc32;
use vectordb::storage::wal::{read_record, RecordRead};
use vectordb::storage::{StorageError, SyncPolicy, Value, ValueLog, Wal};

fn put(bytes: &[u8]) -> Value {
    Value::Put(bytes.to_vec())
}

#[test]
fn every_changed_byte_changes_the_checksum() {
    let data = b"the checksum covers every byte".to_vec();
    let whole = crc32(&data);
    for at in 0..data.len() {
        for change in 1..=255u8 {
            let mut changed = data.clone();
            changed[at] ^= change;
            assert_ne!(crc32(&changed), whole, "byte {at} changed by {change}");
        }
    }
}

#[test]
fn a_damaged_log_record_ends_the_replay() {
    let mut wal = Wal::open(Vec::new(), SyncPolicy::Manual);
    wal.append(b"first", &put(b"1")).expect("append");
    let whole = wal.bytes_written() as usize;
    wal.append(b"second", &put(b"2")).expect("append");
    let second = wal.bytes_written() as usize;
    wal.append(b"third", &put(b"3")).expect("append");
    for at in whole + 4..second {
        let mut log = wal.bytes().to_vec();
        log[at] ^= 0x40;
        let replay = Wal::replay(&log);
        assert_eq!(replay.records, vec![(b"first".to_vec(), put(b"1"))], "byte {at}");
        assert_eq!(replay.discarded_tail_bytes as usize, log.len() - whole);
    }
}

#[test]
fn a_log_cut_anywhere_keeps_the_whole_records() {
    let mut wal = Wal::open(Vec::new(), SyncPolicy::EveryWrite);
    let mut ends = vec![0usize];
    for i in 0..6u8 {
        wal.append(&[b'k', i], &put(&[i; 5])).expect("append");
        ends.push(wal.bytes_written() as usize);
    }
    assert_eq!(wal.durable_bytes(), wal.bytes_written());
    for cut in 0..=wal.bytes().len() {
        let whole = ends.iter().filter(|&&end| end <= cut).count() - 1;
        let (recovered, replay) = Wal::recover(wal.bytes()[..cut].to_vec(), SyncPolicy::Manual);
        assert_eq!(replay.records.len(), whole, "cut at {cut}");
        assert_eq!(replay.discarded_tail_bytes as usize, cut - ends[whole]);
        assert_eq!(recovered.bytes_written() as usize, ends[whole]);
    }
}

#[test]
fn records_are_read_where_they_lie() {
    let mut wal = Wal::open(Vec::new(), SyncPolicy::Manual);
    assert_eq!(wal.durable_bytes(), 0);
    wal.append(b"key", &Value::Tombstone).expect("append");
    assert_eq!(wal.durable_bytes(), 0, "nothing was forced down yet");
    wal.sync();
    assert_eq!(wal.durable_bytes(), 16);
    match read_record(wal.bytes(), 0) {
        RecordRead::Record { key, value, bytes } => {
            assert_eq!(key, b"key".to_vec());
            assert_eq!(value, Value::Tombstone);
            assert_eq!(bytes, 16);
        }
        _ => panic!("a whole record"),
    }
    assert!(matches!(read_record(wal.bytes(), 16), RecordRead::CleanEnd));
    assert!(matches!(read_record(wal.bytes(), 1), RecordRead::Unverifiable));
}

#[test]
fn a_damaged_value_is_never_read() {
    let mut log = ValueLog::open(Vec::new());
    log.append(b"before").expect("append");
    let pointer = log.append(b"the value").expect("append");
    log.append(b"behind").expect("append");
    let from = pointer.offset as usize;
    for at in from..from + 8 + 9 {
        let mut bytes = log.bytes().to_vec();
        bytes[at] ^= 0x10;
        let damaged = ValueLog::open(bytes);
        assert!(damaged.read(pointer).is_err(), "byte {at}");
        assert_eq!(damaged.disk_bytes(), pointer.offset, "cut off at the damage");
    }
    assert_eq!(log.read(pointer).expect("read"), b"the value".to_vec());
    assert_eq!(log.payload_written(), 21);
}

#[test]
fn a_value_log_cut_anywhere_keeps_the_whole_values() {
    let mut log = ValueLog::open(Vec::new());
    let mut pointers = Vec::new();
    let mut ends = vec![0u64];
    for i in 0..5u8 {
        pointers.push(log.append(&vec![i; i as usize]).expect("append"));
        ends.push(log.disk_bytes());
    }
    for cut in 0..=log.bytes().len() {
        let reopened = ValueLog::open(log.bytes()[..cut].to_vec());
        let whole = ends.iter().filter(|&&end| end as usize <= cut).count() - 1;
        assert_eq!(reopened.disk_bytes(), ends[whole]);
        for i in 0..whole {
            let value = reopened.read(pointers[i]).expect("a whole value");
            assert_eq!(value, vec![i as u8; i]);
        }
    }
}

#[test]
fn a_damaged_block_is_never_read() {
    let mut file = b"in front".to_vec();
    push_sealed(&mut file, b"some entries");
    file.extend_from_slice(b"behind");
    assert_eq!(read_checked_block(&file, 8, 16).expect("whole"), b"some entries".to_vec());
    for at in 8..24 {
        let mut damaged = file.clone();
        damaged[at] = damaged[at].wrapping_add(1);
        assert_eq!(
            read_checked_block(&damaged, 8, 16),
            Err(StorageError::BlockChecksum { offset: 8 }),
            "byte {at}"
        );
    }
}

#[test]
fn a_damaged_footer_is_never_read() {
    let footer = Footer {
        index_offset: 4096,
        index_length: 77,
        bloom_offset: 4173,
        bloom_length: 30,
        entry_count: 12,
    };
    let bytes = footer.encode();
    assert_eq!(bytes.len(), 44);
    assert_eq!(Footer::decode(&bytes), Ok(footer));
    for at in 0..44 {
        let mut damaged = bytes.clone();
        damaged[at] ^= 0x80;
        assert!(Footer::decode(&damaged).is_err(), "byte {at}");
    }
}
