use vectordb::storage::crc32::crc32;
use vectordb::storage::manifest::table_filename;
use vectordb::storage::{ErrorKind, Manifest, RunEntry};

fn reload(contents: &str) -> Manifest {
    Manifest::load(Some(contents)).expect("load").expect("present")
}

fn entry(level: usize, sequence: u64, parts: usize) -> RunEntry {
    RunEntry {
        level,
        sequence,
        files: (0..parts)
            .map(|part| table_filename(level, sequence, part))
            .collect(),
        units: 1,
    }
}

fn sample() -> Manifest {
    Manifest {
        runs: vec![entry(0, 7, 1), entry(0, 6, 1), entry(1, 5, 4)],
        next_sequence: 8,
    }
}

#[test]
fn a_missing_manifest_means_a_new_database() {
    assert_eq!(Manifest::load(None).expect("load"), None);
}

#[test]
fn round_trips_through_disk() {
    let manifest = sample();
    let contents = manifest.store();

    let loaded = reload(&contents);
    assert_eq!(loaded, manifest);
}

#[test]
fn an_empty_manifest_round_trips() {
    let manifest = Manifest {
        runs: Vec::new(),
        next_sequence: 1,
    };
    let contents = manifest.store();

    let loaded = reload(&contents);
    assert_eq!(loaded, manifest);
}

#[test]
fn storing_twice_replaces_rather_than_appends() {
    let contents = sample().store();

    let replacement = Manifest {
        runs: vec![entry(2, 9, 2)],
        next_sequence: 10,
    };
    let contents = replacement.store();

    let loaded = reload(&contents);
    assert_eq!(loaded, replacement);
}

#[test]
fn a_corrupt_manifest_is_an_error_not_an_empty_database() {
    let contents = sample().store();

    let tampered = contents.replace("run 1 5 ", "run 3 5 ");
    assert_ne!(
        tampered, contents,
        "the tamper must actually change something"
    );

    let error = Manifest::load(Some(&tampered)).expect_err("must reject");
    assert_eq!(error.kind(), ErrorKind::InvalidData);
}

#[test]
fn a_truncated_manifest_is_rejected() {
    let contents = sample().store();

    let truncated = &contents[..contents.len() / 2];

    assert!(Manifest::load(Some(truncated)).is_err());
}

#[test]
fn a_foreign_file_is_not_read_as_a_manifest() {
    let body = "something else entirely\n";
    let contents = format!("{body}crc32 {:08x}\n", crc32(body.as_bytes()));

    assert!(Manifest::load(Some(&contents)).is_err());
}

#[test]
fn filenames_are_derived_from_run_identity() {
    assert_eq!(table_filename(3, 42, 0), "L03-R0000000042-P0000.sst");
    assert_eq!(table_filename(3, 42, 1), "L03-R0000000042-P0001.sst");
}

#[test]
fn referenced_files_covers_every_part_of_every_run() {
    let files = sample().referenced_files();
    assert_eq!(files.len(), 1 + 1 + 4);
    assert!(files.contains(&String::from("L01-R0000000005-P0003.sst")));
    assert!(!files.contains(&String::from("L01-R0000000005-P0004.sst")));
}

#[test]
fn a_run_may_hold_files_named_for_other_sequences() {
    let folded = Manifest {
        runs: vec![RunEntry {
            level: 1,
            sequence: 12,
            files: vec![
                table_filename(1, 4, 0),
                table_filename(1, 9, 0),
                table_filename(1, 12, 0),
            ],
            units: 3,
        }],
        next_sequence: 13,
    };
    let contents = folded.store();

    let loaded = reload(&contents);
    assert_eq!(loaded, folded);
    assert_eq!(loaded.referenced_files().len(), 3);
}

#[test]
fn a_run_naming_no_files_is_rejected() {
    let body = format!("vectordb-manifest 1\nnext-sequence 3\nrun 0 1\n");
    let contents = format!("{body}crc32 {:08x}\n", crc32(body.as_bytes()));

    assert!(Manifest::load(Some(&contents)).is_err());
}
