use vectordb::storage::crc32::{crc32, Crc32};

#[test]
fn matches_the_standard_check_vector() {
    assert_eq!(crc32(b"123456789"), 0xCBF4_3926);
}

#[test]
fn known_values() {
    assert_eq!(crc32(b""), 0x0000_0000);
    assert_eq!(crc32(b"a"), 0xE8B7_BE43);
    assert_eq!(crc32(b"hello world"), 0x0D4A_1185);
}

#[test]
fn incremental_matches_one_shot() {
    let data = b"the quick brown fox jumps over the lazy dog";
    let mut hasher = Crc32::new();
    hasher.update(&data[..10]);
    hasher.update(&data[10..25]);
    hasher.update(&data[25..]);
    assert_eq!(hasher.finish(), crc32(data));
}

#[test]
fn detects_single_bit_flips() {
    let original = b"a write-ahead log record".to_vec();
    let baseline = crc32(&original);

    for byte_index in 0..original.len() {
        for bit in 0..8 {
            let mut corrupted = original.clone();
            corrupted[byte_index] ^= 1 << bit;
            assert_ne!(
                crc32(&corrupted),
                baseline,
                "flipping bit {bit} of byte {byte_index} went undetected"
            );
        }
    }
}
