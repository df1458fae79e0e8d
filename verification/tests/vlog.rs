use vectordb::storage::vlog::{ValueLog, ValuePointer, VALUE_HEADER_BYTES};

fn log() -> ValueLog {
    ValueLog::open(Vec::new())
}

#[test]
fn a_value_round_trips() {
    let mut vlog = log();
    let pointer = vlog.append(b"hello world").expect("append");
    assert_eq!(vlog.read(pointer).expect("read"), b"hello world");
}

#[test]
fn many_values_round_trip_in_any_order() {
    let mut vlog = log();
    let values: Vec<Vec<u8>> = (0..200u32)
        .map(|i| vec![(i % 251) as u8; (i as usize % 97) + 1])
        .collect();
    let pointers: Vec<ValuePointer> = values
        .iter()
        .map(|v| vlog.append(v).expect("append"))
        .collect();

    for index in (0..values.len()).rev() {
        assert_eq!(
            vlog.read(pointers[index]).expect("read"),
            values[index],
            "value {index}"
        );
    }
}

#[test]
fn an_empty_value_round_trips() {
    let mut vlog = log();
    let pointer = vlog.append(b"").expect("append");
    assert_eq!(pointer.len, 0);
    assert!(vlog.read(pointer).expect("read").is_empty());
}

#[test]
fn pointers_encode_and_decode() {
    let pointer = ValuePointer {
        offset: 0xDEAD_BEEF_1234,
        len: 3840,
    };
    let encoded = pointer.encode();
    assert_eq!(encoded.len(), ValuePointer::ENCODED_BYTES);
    assert_eq!(ValuePointer::decode(&encoded), Some(pointer));
    assert_eq!(ValuePointer::decode(&encoded[..11]), None);
}

#[test]
fn a_pointer_is_far_smaller_than_the_value_it_replaces() {
    let mut vlog = log();
    let gist = vec![0u8; 3840];
    let pointer = vlog.append(&gist).expect("append");
    let shrink = gist.len() as f64 / pointer.encode().len() as f64;
    assert!(
        shrink > 100.0,
        "a pointer should be orders of magnitude smaller, got {shrink:.0} times"
    );
}

#[test]
fn values_survive_a_reopen() {
    let mut vlog = log();
    let pointers: Vec<ValuePointer> = (0..50u32)
        .map(|i| vlog.append(&[i as u8; 64]).expect("append"))
        .collect();

    let vlog = ValueLog::open(vlog.bytes().to_vec());
    for (index, pointer) in pointers.iter().enumerate() {
        assert_eq!(vlog.read(*pointer).expect("read"), vec![index as u8; 64]);
    }
}

#[test]
fn appending_after_a_reopen_continues_the_log() {
    let mut vlog = log();
    let first = vlog.append(b"before").expect("append");

    let mut vlog = ValueLog::open(vlog.bytes().to_vec());
    let second = vlog.append(b"after").expect("append");
    assert!(second.offset > first.offset, "the tail should advance");
    assert_eq!(vlog.read(first).expect("read"), b"before");
    assert_eq!(vlog.read(second).expect("read"), b"after");
}

#[test]
fn a_torn_tail_is_truncated_and_earlier_records_survive() {
    let mut vlog = log();
    let good = vlog.append(b"intact record").expect("append");

    let mut bytes = vlog.bytes().to_vec();
    bytes.extend_from_slice(&0u32.to_le_bytes());
    bytes.extend_from_slice(&9999u32.to_le_bytes());
    bytes.extend_from_slice(b"short");

    let mut vlog = ValueLog::open(bytes);
    assert_eq!(vlog.read(good).expect("read"), b"intact record");
    let next = vlog.append(b"after recovery").expect("append");
    assert_eq!(vlog.read(next).expect("read"), b"after recovery");
}

#[test]
fn a_corrupted_payload_is_detected_rather_than_returned() {
    let mut vlog = log();
    let pointer = vlog.append(b"original contents").expect("append");

    let mut bytes = vlog.bytes().to_vec();
    let target = VALUE_HEADER_BYTES + 3;
    bytes[target] ^= 0xFF;

    let vlog = ValueLog::open(bytes);
    assert!(
        vlog.read(pointer).is_err(),
        "a corrupted record must not be returned as a value"
    );
}

#[test]
fn a_pointer_with_the_wrong_length_is_rejected() {
    let mut vlog = log();
    let mut pointer = vlog.append(b"twelve bytes").expect("append");
    pointer.len += 1;
    assert!(vlog.read(pointer).is_err());
}

#[test]
fn payload_written_counts_each_value_once() {
    let mut vlog = log();
    for _ in 0..10 {
        vlog.append(&vec![7u8; 3840]).expect("append");
    }
    assert_eq!(vlog.payload_written(), 10 * 3840);
    assert_eq!(
        vlog.disk_bytes(),
        10 * (3840 + VALUE_HEADER_BYTES as u64),
        "disk includes framing"
    );
}

#[test]
fn framing_overhead_is_negligible_at_vector_sizes() {
    let mut vlog = log();
    vlog.append(&vec![0u8; 3840]).expect("append");
    let overhead = vlog.disk_bytes() as f64 / 3840.0 - 1.0;
    assert!(
        overhead < 0.01,
        "framing is {overhead:.4} of a GIST vector, expected under 1%"
    );
}
