use vectordb::storage::block::{
    decode_block, decode_index, encode_index, push_entry, push_sealed, read_checked_block, Footer,
    IndexEntry,
};
use vectordb::storage::run::{write_run, TableOptions};
use vectordb::storage::{
    BloomFilter, ErrorKind, LsmConfig, LsmTree, Manifest, ManifestField, SSTable, SSTableWriter,
    StorageError, SyncPolicy, Value, ValueLog, ValuePointer, Wal,
};

fn put(bytes: &[u8]) -> Value {
    Value::Put(bytes.to_vec())
}

fn table() -> Vec<u8> {
    let mut writer = SSTableWriter::create();
    writer.append(b"alpha", &put(b"1")).expect("append");
    writer.append(b"beta", &Value::Tombstone).expect("append");
    writer.finish().0
}

#[test]
fn a_bloom_filter_says_what_is_wrong_with_its_bytes() {
    assert_eq!(
        BloomFilter::decode(&[0; 7]).expect_err("short"),
        StorageError::BloomTruncatedHeader
    );
    assert_eq!(
        BloomFilter::decode(&[0; 8]).expect_err("no bits"),
        StorageError::BloomZeroGeometry
    );
    assert_eq!(
        BloomFilter::decode(&[8, 0, 0, 0, 0, 0, 0, 0, 255]).expect_err("no hashes"),
        StorageError::BloomZeroGeometry
    );
    assert_eq!(
        BloomFilter::decode(&[16, 0, 0, 0, 1, 0, 0, 0, 255]).expect_err("one byte too few"),
        StorageError::BloomSizeMismatch
    );
    let filter = BloomFilter::decode(&[8, 0, 0, 0, 1, 0, 0, 0, 255]).expect("a filter");
    assert!(filter.may_contain_hash(0x1234_5678_9abc_def0));
}

#[test]
fn a_table_refuses_keys_that_do_not_ascend() {
    let mut writer = SSTableWriter::create();
    writer.append(b"b", &put(b"1")).expect("append");
    let repeated = writer.append(b"b", &put(b"2")).expect_err("the same key again");
    assert_eq!(repeated, StorageError::KeysOutOfOrder);
    assert_eq!(repeated.kind(), ErrorKind::InvalidInput);
    let lower = writer.append(b"a", &put(b"2")).expect_err("a lower key");
    assert_eq!(lower, StorageError::KeysOutOfOrder);
}

#[test]
fn a_run_gives_the_error_of_the_first_entry_that_is_refused() {
    let options = TableOptions {
        block_target_bytes: 64,
        bloom_bits_per_key: 0,
        target_file_size_bytes: 1 << 20,
    };
    let entries = vec![
        (b"b".to_vec(), put(b"1")),
        (b"a".to_vec(), put(b"2")),
        (b"c".to_vec(), put(b"3")),
    ];
    assert_eq!(
        write_run(options, 0, 1, 1, &entries).expect_err("out of order"),
        StorageError::KeysOutOfOrder
    );
    assert!(write_run(options, 0, 1, 1, &[]).expect("nothing to write").is_none());

    // Written, but longer than any entry may be when it is read back.
    let large = vec![(b"k".to_vec(), put(&vec![0; 64 * 1024 * 1024 + 1]))];
    assert_eq!(
        write_run(options, 0, 1, 1, &large).expect_err("cannot be read back"),
        StorageError::EntryTooLong
    );
}

#[test]
fn a_file_that_is_no_table_is_told_apart() {
    assert_eq!(
        SSTable::open(vec![0; 43]).expect_err("no room for a footer"),
        StorageError::TableTooShort
    );
    assert_eq!(
        SSTable::open(vec![0; 44]).expect_err("no magic"),
        StorageError::NotATable
    );
    let mut file = table();
    let length = file.len();
    file[length - 44] ^= 1;
    let damaged = SSTable::open(file).expect_err("damaged footer");
    assert_eq!(damaged, StorageError::FooterChecksum);
    assert_eq!(damaged.kind(), ErrorKind::InvalidData);
}

#[test]
fn a_footer_that_points_past_the_file_is_an_early_end() {
    let footer = Footer {
        index_offset: 1000,
        index_length: 10,
        bloom_offset: 0,
        bloom_length: 0,
        entry_count: 0,
    };
    let ended = SSTable::open(footer.encode()).expect_err("no index there");
    assert_eq!(ended, StorageError::TableEnded);
    assert_eq!(ended.kind(), ErrorKind::UnexpectedEof);
}

#[test]
fn a_block_without_room_for_a_checksum_is_refused() {
    assert_eq!(
        read_checked_block(&[0; 16], 0, 3).expect_err("three bytes"),
        StorageError::BlockTooShort
    );
    let mut file = Vec::new();
    push_sealed(&mut file, b"payload");
    assert_eq!(read_checked_block(&file, 0, 11).expect("sealed"), b"payload".to_vec());
    assert_eq!(
        read_checked_block(&file, 1, 10).expect_err("not where it lies"),
        StorageError::BlockChecksum { offset: 1 }
    );
}

#[test]
fn a_block_says_what_is_wrong_with_its_entries() {
    assert_eq!(
        decode_block(&[0; 8]).expect_err("half a header"),
        StorageError::TruncatedEntryHeader
    );
    assert_eq!(
        decode_block(&[0, 1, 0, 0, 4, 0, 0, 0, 0]).expect_err("64 MiB and one byte"),
        StorageError::EntryTooLong
    );
    assert_eq!(
        decode_block(&[0, 2, 0, 0, 0, 0, 0, 0, 0, b'k']).expect_err("half a key"),
        StorageError::EntryOverrun
    );
    assert_eq!(
        decode_block(&[2, 1, 0, 0, 0, 0, 0, 0, 0, b'k']).expect_err("no such tag"),
        StorageError::BadEntryTag
    );
    assert_eq!(
        decode_block(&[1, 1, 0, 0, 0, 1, 0, 0, 0, b'k', b'v']).expect_err("a dead value"),
        StorageError::BadEntryTag
    );

    let mut block = Vec::new();
    push_entry(&mut block, b"k", &put(b"value"));
    push_entry(&mut block, b"l", &Value::Tombstone);
    assert_eq!(
        decode_block(&block).expect("entries"),
        vec![(b"k".to_vec(), put(b"value")), (b"l".to_vec(), Value::Tombstone)]
    );
}

#[test]
fn an_index_says_what_is_wrong_with_its_entries() {
    assert_eq!(
        decode_index(&[1, 0, 0]).expect_err("half a length"),
        StorageError::TruncatedIndexEntry
    );
    assert_eq!(
        decode_index(&[1, 0, 0, 0, b'k', 0, 0]).expect_err("half an offset"),
        StorageError::IndexEntryOverrun
    );
    let index = vec![
        IndexEntry { first_key: b"a".to_vec(), offset: 0, length: 40 },
        IndexEntry { first_key: b"m".to_vec(), offset: 40, length: 17 },
    ];
    assert_eq!(decode_index(&encode_index(&index)).expect("an index"), index);
}

#[test]
fn the_log_refuses_a_record_over_its_limit() {
    let limit = 64 * 1024 * 1024;
    let mut wal = Wal::open(Vec::new(), SyncPolicy::Manual);
    let error = wal
        .append(b"key", &put(&vec![0; limit - 7]))
        .expect_err("one byte too many");
    assert_eq!(error, StorageError::LogRecordOverLimit { bytes: limit as u32 + 1 });
    assert_eq!(error.kind(), ErrorKind::InvalidInput);
    assert_eq!(wal.bytes_written(), 0, "a refused record leaves no trace");
    wal.append(b"key", &put(&vec![0; limit - 8])).expect("the longest record");
    assert_eq!(wal.bytes_written(), limit as u64 + 8);
}

#[test]
fn the_value_log_says_what_is_wrong_with_a_pointer() {
    let mut log = ValueLog::open(Vec::new());
    let pointer = log.append(b"value").expect("append");
    assert_eq!(pointer, ValuePointer { offset: 0, len: 5 });

    let past = log.read(ValuePointer { offset: 6, len: 5 }).expect_err("past the end");
    assert_eq!(past, StorageError::ValueLogEnded);
    assert_eq!(past.kind(), ErrorKind::UnexpectedEof);
    assert_eq!(
        log.read(ValuePointer { offset: 0, len: 4 }).expect_err("another length"),
        StorageError::PointerLengthMismatch { offset: 0, stored: 5, pointed: 4 }
    );
    assert_eq!(
        log.read(ValuePointer { offset: u64::MAX, len: 0 }).expect_err("far past the end"),
        StorageError::ValueLogEnded
    );

    let mut nested = ValueLog::open(Vec::new());
    nested
        .append(&[0, 0, 0, 0, 2, 0, 0, 0, b'o', b'k'])
        .expect("append");
    assert_eq!(
        nested.read(ValuePointer { offset: 8, len: 2 }).expect_err("inside a value"),
        StorageError::ValueChecksum { offset: 8 }
    );
}

fn with_checksum(body: &str) -> String {
    let checksum = vectordb::storage::crc32::crc32(body.as_bytes());
    format!("{body}crc32 {checksum:08x}\n")
}

#[test]
fn a_manifest_says_what_is_wrong_with_it() {
    let load = |text: &str| Manifest::load(Some(text)).expect_err("not a manifest");
    assert_eq!(load("vectordb-manifest 1\n"), StorageError::ManifestNoChecksum);
    assert_eq!(load(""), StorageError::ManifestNoChecksum);
    assert_eq!(
        load("vectordb-manifest 1\ncrc32 zzzzzzzz\n"),
        StorageError::ManifestBadChecksum
    );
    assert_eq!(
        load("vectordb-manifest 1\ncrc32 00000000\n"),
        StorageError::ManifestChecksumMismatch
    );
    assert_eq!(load(&with_checksum("")), StorageError::ManifestBadHeader);
    assert_eq!(
        load(&with_checksum("vectordb-manifest 2\n")),
        StorageError::ManifestBadHeader
    );
    let line = |line: &str| load(&with_checksum(&format!("vectordb-manifest 1\n{line}\n")));
    assert_eq!(
        line("next-sequence"),
        StorageError::ManifestMissingField { field: ManifestField::NextSequence }
    );
    assert_eq!(
        line("next-sequence 18446744073709551616"),
        StorageError::ManifestBadField { field: ManifestField::NextSequence }
    );
    assert_eq!(
        line("run"),
        StorageError::ManifestMissingField { field: ManifestField::RunLevel }
    );
    assert_eq!(
        line("run x"),
        StorageError::ManifestBadField { field: ManifestField::RunLevel }
    );
    assert_eq!(
        line("run 0"),
        StorageError::ManifestMissingField { field: ManifestField::RunSequence }
    );
    assert_eq!(
        line("run 0 -1"),
        StorageError::ManifestBadField { field: ManifestField::RunSequence }
    );
    assert_eq!(
        line("run 0 1"),
        StorageError::ManifestMissingField { field: ManifestField::RunUnits }
    );
    assert_eq!(
        line("run 0 1 one"),
        StorageError::ManifestBadField { field: ManifestField::RunUnits }
    );
    assert_eq!(line("run 0 1 1"), StorageError::ManifestEmptyRun);
    assert_eq!(line("run 0 1 1").kind(), ErrorKind::InvalidData);
}

#[test]
fn a_manifest_skips_what_it_does_not_know() {
    let text = with_checksum(
        "  vectordb-manifest 1  \n\nfuture 1 2 3\nnext-sequence\t+7\r\nrun 1 6 2 a.sst  b.sst\n",
    );
    let manifest = Manifest::load(Some(&text)).expect("load").expect("a manifest");
    assert_eq!(manifest.next_sequence, 7);
    assert_eq!(manifest.runs.len(), 1);
    assert_eq!(manifest.runs[0].level, 1);
    assert_eq!(manifest.runs[0].sequence, 6);
    assert_eq!(manifest.runs[0].units, 2);
    assert_eq!(manifest.runs[0].files, vec!["a.sst".to_string(), "b.sst".to_string()]);
}

#[test]
fn a_table_that_the_manifest_names_has_to_be_there() {
    let text = with_checksum("vectordb-manifest 1\nnext-sequence 2\nrun 0 1 1 gone.sst\n");
    let error = LsmTree::open(LsmConfig::default(), Some(&text), &Vec::new(), Vec::new())
        .expect_err("no such table");
    assert_eq!(error, StorageError::MissingTable);
    assert_eq!(error.kind(), ErrorKind::NotFound);
}
