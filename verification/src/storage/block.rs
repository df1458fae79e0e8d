//! The pieces of a table file: entries, checksummed blocks, the sparse index
//! and the footer.
//!
//! ```text
//! entry       = tag (u8) | key length (u32) | value length (u32) | key | value
//! block       = entry* | CRC-32 of the entries (u32)
//! index entry = key length (u32) | first key | offset (u64) | length (u32)
//! index       = index entry* | CRC-32 of the index entries (u32)
//! footer      = index offset (u64) | index length (u32)
//!             | filter offset (u64) | filter length (u32)
//!             | entry count (u64) | CRC-32 of these 32 bytes (u32) | magic (u64)
//! ```

use vstd::prelude::*;

use super::codec::{
    le_bytes, le_value, lemma_le_differs, lemma_le_len, lemma_le_round_trip, lemma_pow256_values,
    push_u32, push_u64, read_u32, read_u64,
};
use super::crc32::{crc_of, crc32, law_single_byte_change_is_detected};
use super::entries::{entries_of, EntryView};
use super::memtable::{payload_len, Value};
use super::order::copy_bytes;
use super::wal::{tag_of, value_bytes};
use super::{Key, StorageError};

verus! {

/// Bytes of checksum behind every block.
pub const BLOCK_CRC_BYTES: usize = 4;

/// Bytes of an entry before its key.
pub const ENTRY_HEADER_BYTES: usize = 9;

/// Bytes of a footer.
pub const FOOTER_BYTES: usize = 44;

/// Identifies a file as a table of this format.
pub const MAGIC: u64 = 0x5353_5442_4456_0001;

/// The longest key or value accepted when reading.
pub const MAX_ENTRY_BYTES: u32 = 64 * 1024 * 1024;

const TAG_PUT: u8 = 0;

const TAG_TOMBSTONE: u8 = 1;

/// One entry of a block.
pub open spec fn entry_bytes(entry: EntryView) -> Seq<u8> {
    seq![tag_of(entry.1)] + le_bytes(entry.0.len(), 4) + le_bytes(payload_len(entry.1), 4)
        + entry.0 + value_bytes(entry.1)
}

/// The entries of a block, one after the other.
pub open spec fn block_bytes(entries: Seq<EntryView>) -> Seq<u8>
    decreases entries.len(),
{
    if entries.len() == 0 {
        Seq::empty()
    } else {
        block_bytes(entries.drop_last()) + entry_bytes(entries.last())
    }
}

/// A payload with its checksum behind it.
pub open spec fn sealed(payload: Seq<u8>) -> Seq<u8> {
    payload + le_bytes(crc_of(payload) as nat, 4)
}

/// The entry at the front of `bytes` and its length, or what is wrong with it.
pub open spec fn parse_entry(bytes: Seq<u8>) -> Result<(EntryView, nat), StorageError> {
    if bytes.len() < 9 {
        Err(StorageError::TruncatedEntryHeader)
    } else {
        let key_len = le_value(bytes.subrange(1, 5));
        let value_len = le_value(bytes.subrange(5, 9));
        if key_len > MAX_ENTRY_BYTES || value_len > MAX_ENTRY_BYTES {
            Err(StorageError::EntryTooLong)
        } else if 9 + key_len + value_len > bytes.len() {
            Err(StorageError::EntryOverrun)
        } else {
            let key = bytes.subrange(9, 9 + key_len as int);
            let value = bytes.subrange(9 + key_len as int, 9 + key_len as int + value_len as int);
            if bytes[0] == 0 {
                Ok(((key, Some(value)), 9 + key_len + value_len))
            } else if bytes[0] == 1 && value_len == 0 {
                Ok(((key, None), 9 + key_len + value_len))
            } else {
                Err(StorageError::BadEntryTag)
            }
        }
    }
}

/// The entries of a block, or the first thing wrong with it.
pub open spec fn parse_block(bytes: Seq<u8>) -> Result<Seq<EntryView>, StorageError>
    decreases bytes.len(),
{
    if bytes.len() == 0 {
        Ok(Seq::empty())
    } else {
        match parse_entry(bytes) {
            Err(error) => Err(error),
            Ok((entry, len)) => match parse_block(bytes.skip(len as int)) {
                Err(error) => Err(error),
                Ok(rest) => Ok(seq![entry] + rest),
            },
        }
    }
}

/// The payload of the block at `offset`, if it is there and its checksum holds.
pub open spec fn checked_block(file: Seq<u8>, offset: u64, length: u32) -> Result<
    Seq<u8>,
    StorageError,
> {
    if length < 4 {
        Err(StorageError::BlockTooShort)
    } else if offset + length > file.len() {
        Err(StorageError::TableEnded)
    } else {
        let payload = file.subrange(offset as int, offset + length - 4);
        if crc_of(payload) != le_value(file.subrange(offset + length - 4, offset + length)) {
            Err(StorageError::BlockChecksum { offset })
        } else {
            Ok(payload)
        }
    }
}

/// One entry of the sparse index: the first key of a block and where it lies.
#[verifier::ext_equal]
pub struct IndexView {
    pub first_key: Seq<u8>,
    pub offset: u64,
    /// The length of the block, checksum included.
    pub length: u32,
}

/// One entry of the index, as bytes.
pub open spec fn index_entry_bytes(entry: IndexView) -> Seq<u8> {
    le_bytes(entry.first_key.len(), 4) + entry.first_key + le_bytes(entry.offset as nat, 8)
        + le_bytes(entry.length as nat, 4)
}

/// The entries of the index, one after the other.
pub open spec fn index_bytes(index: Seq<IndexView>) -> Seq<u8>
    decreases index.len(),
{
    if index.len() == 0 {
        Seq::empty()
    } else {
        index_bytes(index.drop_last()) + index_entry_bytes(index.last())
    }
}

/// The index entry at the front of `bytes` and its length, or what is wrong
/// with it.
pub open spec fn parse_index_entry(bytes: Seq<u8>) -> Result<(IndexView, nat), StorageError> {
    if bytes.len() < 4 {
        Err(StorageError::TruncatedIndexEntry)
    } else {
        let key_len = le_value(bytes.subrange(0, 4));
        let key_end = 4 + key_len as int;
        if key_end + 12 > bytes.len() {
            Err(StorageError::IndexEntryOverrun)
        } else {
            Ok(
                (
                    IndexView {
                        first_key: bytes.subrange(4, key_end),
                        offset: le_value(bytes.subrange(key_end, key_end + 8)) as u64,
                        length: le_value(bytes.subrange(key_end + 8, key_end + 12)) as u32,
                    },
                    16 + key_len,
                ),
            )
        }
    }
}

/// The entries of an index, or the first thing wrong with it.
pub open spec fn parse_index(bytes: Seq<u8>) -> Result<Seq<IndexView>, StorageError>
    decreases bytes.len(),
{
    if bytes.len() == 0 {
        Ok(Seq::empty())
    } else {
        match parse_index_entry(bytes) {
            Err(error) => Err(error),
            Ok((entry, len)) => match parse_index(bytes.skip(len as int)) {
                Err(error) => Err(error),
                Ok(rest) => Ok(seq![entry] + rest),
            },
        }
    }
}

/// Where everything in a table file is.
#[derive(Debug, Clone, Copy, PartialEq, Eq, Structural)]
pub struct Footer {
    pub index_offset: u64,
    pub index_length: u32,
    pub bloom_offset: u64,
    pub bloom_length: u32,
    pub entry_count: u64,
}

/// The 32 bytes of a footer that its checksum covers.
pub open spec fn footer_payload(footer: Footer) -> Seq<u8> {
    le_bytes(footer.index_offset as nat, 8) + le_bytes(footer.index_length as nat, 4) + le_bytes(
        footer.bloom_offset as nat,
        8,
    ) + le_bytes(footer.bloom_length as nat, 4) + le_bytes(footer.entry_count as nat, 8)
}

/// A footer as bytes.
pub open spec fn footer_bytes(footer: Footer) -> Seq<u8> {
    footer_payload(footer) + le_bytes(crc_of(footer_payload(footer)) as nat, 4) + le_bytes(
        MAGIC as nat,
        8,
    )
}

/// The footer that 44 bytes encode, or what is wrong with them.
pub open spec fn parse_footer(bytes: Seq<u8>) -> Result<Footer, StorageError> {
    if le_value(bytes.subrange(36, 44)) != MAGIC {
        Err(StorageError::NotATable)
    } else if crc_of(bytes.subrange(0, 32)) != le_value(bytes.subrange(32, 36)) {
        Err(StorageError::FooterChecksum)
    } else {
        Ok(
            Footer {
                index_offset: le_value(bytes.subrange(0, 8)) as u64,
                index_length: le_value(bytes.subrange(8, 12)) as u32,
                bloom_offset: le_value(bytes.subrange(12, 20)) as u64,
                bloom_length: le_value(bytes.subrange(20, 24)) as u32,
                entry_count: le_value(bytes.subrange(24, 32)) as u64,
            },
        )
    }
}

/// Short enough to be accepted when read back.
pub open spec fn readable(entry: EntryView) -> bool {
    entry.0.len() <= MAX_ENTRY_BYTES && payload_len(entry.1) <= MAX_ENTRY_BYTES
}

proof fn lemma_entry_round_trip(entry: EntryView, rest: Seq<u8>)
    requires
        readable(entry),
    ensures
        entry_bytes(entry).len() == 9 + entry.0.len() + payload_len(entry.1),
        parse_entry(entry_bytes(entry) + rest) == Ok::<(EntryView, nat), StorageError>(
            (entry, entry_bytes(entry).len()),
        ),
        (entry_bytes(entry) + rest).skip(entry_bytes(entry).len() as int) == rest,
{
    broadcast use lemma_le_len;

    lemma_pow256_values();
    let bytes = entry_bytes(entry) + rest;
    let key_len = entry.0.len();
    let value_len = payload_len(entry.1);
    assert(bytes.subrange(1, 5) =~= le_bytes(key_len, 4));
    assert(bytes.subrange(5, 9) =~= le_bytes(value_len, 4));
    lemma_le_round_trip(key_len, 4);
    lemma_le_round_trip(value_len, 4);
    assert(bytes.subrange(9, 9 + key_len as int) =~= entry.0);
    assert(bytes.subrange(9 + key_len as int, 9 + key_len as int + value_len as int)
        =~= value_bytes(entry.1));
    assert(bytes.skip(entry_bytes(entry).len() as int) =~= rest);
    assert(bytes[0] == tag_of(entry.1));
}

/// The bytes of a block from its second entry on are those of the rest.
proof fn lemma_block_bytes_split(entries: Seq<EntryView>)
    requires
        entries.len() > 0,
    ensures
        block_bytes(entries) == entry_bytes(entries[0]) + block_bytes(entries.drop_first()),
    decreases entries.len(),
{
    if entries.len() == 1 {
        assert(entries.drop_last() =~= Seq::<EntryView>::empty());
        assert(entries.drop_first() =~= Seq::<EntryView>::empty());
        assert(block_bytes(entries) =~= entry_bytes(entries[0]) + block_bytes(
            entries.drop_first(),
        ));
    } else {
        lemma_block_bytes_split(entries.drop_last());
        assert(entries.drop_last().drop_first() =~= entries.drop_first().drop_last());
        assert(block_bytes(entries) =~= entry_bytes(entries[0]) + block_bytes(
            entries.drop_first(),
        ));
    }
}

/// A block that was written is read back entry for entry.
pub proof fn law_block_round_trip(entries: Seq<EntryView>)
    requires
        forall|i: int| 0 <= i < entries.len() ==> readable(#[trigger] entries[i]),
    ensures
        parse_block(block_bytes(entries)) == Ok::<Seq<EntryView>, StorageError>(entries),
    decreases entries.len(),
{
    if entries.len() == 0 {
        assert(entries =~= Seq::<EntryView>::empty());
    } else {
        let rest = entries.drop_first();
        lemma_block_bytes_split(entries);
        assert(readable(entries[0]));
        lemma_entry_round_trip(entries[0], block_bytes(rest));
        assert forall|i: int| 0 <= i < rest.len() implies readable(#[trigger] rest[i]) by {
            assert(rest[i] == entries[i + 1]);
        }
        law_block_round_trip(rest);
        assert(entries =~= seq![entries[0]] + rest);
    }
}

proof fn lemma_index_entry_round_trip(entry: IndexView, rest: Seq<u8>)
    requires
        entry.first_key.len() <= u32::MAX,
    ensures
        index_entry_bytes(entry).len() == 16 + entry.first_key.len(),
        parse_index_entry(index_entry_bytes(entry) + rest) == Ok::<(IndexView, nat), StorageError>(
            (entry, index_entry_bytes(entry).len()),
        ),
        (index_entry_bytes(entry) + rest).skip(index_entry_bytes(entry).len() as int) == rest,
{
    broadcast use lemma_le_len;

    lemma_pow256_values();
    let bytes = index_entry_bytes(entry) + rest;
    let key_len = entry.first_key.len();
    let key_end = 4 + key_len as int;
    assert(bytes.subrange(0, 4) =~= le_bytes(key_len, 4));
    lemma_le_round_trip(key_len, 4);
    assert(bytes.subrange(4, key_end) =~= entry.first_key);
    assert(bytes.subrange(key_end, key_end + 8) =~= le_bytes(entry.offset as nat, 8));
    assert(bytes.subrange(key_end + 8, key_end + 12) =~= le_bytes(entry.length as nat, 4));
    lemma_le_round_trip(entry.offset as nat, 8);
    lemma_le_round_trip(entry.length as nat, 4);
    assert(bytes.skip(index_entry_bytes(entry).len() as int) =~= rest);
}

proof fn lemma_index_bytes_split(index: Seq<IndexView>)
    requires
        index.len() > 0,
    ensures
        index_bytes(index) == index_entry_bytes(index[0]) + index_bytes(index.drop_first()),
    decreases index.len(),
{
    if index.len() == 1 {
        assert(index.drop_last() =~= Seq::<IndexView>::empty());
        assert(index.drop_first() =~= Seq::<IndexView>::empty());
        assert(index_bytes(index) =~= index_entry_bytes(index[0]) + index_bytes(
            index.drop_first(),
        ));
    } else {
        lemma_index_bytes_split(index.drop_last());
        assert(index.drop_last().drop_first() =~= index.drop_first().drop_last());
        assert(index_bytes(index) =~= index_entry_bytes(index[0]) + index_bytes(
            index.drop_first(),
        ));
    }
}

/// An index that was written is read back entry for entry.
pub proof fn law_index_round_trip(index: Seq<IndexView>)
    requires
        forall|i: int| 0 <= i < index.len() ==> (#[trigger] index[i]).first_key.len() <= u32::MAX,
    ensures
        parse_index(index_bytes(index)) == Ok::<Seq<IndexView>, StorageError>(index),
    decreases index.len(),
{
    if index.len() == 0 {
        assert(index =~= Seq::<IndexView>::empty());
    } else {
        let rest = index.drop_first();
        lemma_index_bytes_split(index);
        lemma_index_entry_round_trip(index[0], index_bytes(rest));
        assert forall|i: int| 0 <= i < rest.len() implies (#[trigger] rest[i]).first_key.len()
            <= u32::MAX by {
            assert(rest[i] == index[i + 1]);
        }
        law_index_round_trip(rest);
        assert(index =~= seq![index[0]] + rest);
    }
}

/// A footer that was written is read back.
pub proof fn law_footer_round_trip(footer: Footer)
    ensures
        footer_bytes(footer).len() == 44,
        parse_footer(footer_bytes(footer)) == Ok::<Footer, StorageError>(footer),
{
    broadcast use lemma_le_len;

    lemma_pow256_values();
    let bytes = footer_bytes(footer);
    let payload = footer_payload(footer);
    assert(bytes.subrange(36, 44) =~= le_bytes(MAGIC as nat, 8));
    lemma_le_round_trip(MAGIC as nat, 8);
    assert(bytes.subrange(0, 32) =~= payload);
    assert(bytes.subrange(32, 36) =~= le_bytes(crc_of(payload) as nat, 4));
    lemma_le_round_trip(crc_of(payload) as nat, 4);
    assert(bytes.subrange(0, 8) =~= le_bytes(footer.index_offset as nat, 8));
    lemma_le_round_trip(footer.index_offset as nat, 8);
    assert(bytes.subrange(8, 12) =~= le_bytes(footer.index_length as nat, 4));
    lemma_le_round_trip(footer.index_length as nat, 4);
    assert(bytes.subrange(12, 20) =~= le_bytes(footer.bloom_offset as nat, 8));
    lemma_le_round_trip(footer.bloom_offset as nat, 8);
    assert(bytes.subrange(20, 24) =~= le_bytes(footer.bloom_length as nat, 4));
    lemma_le_round_trip(footer.bloom_length as nat, 4);
    assert(bytes.subrange(24, 32) =~= le_bytes(footer.entry_count as nat, 8));
    lemma_le_round_trip(footer.entry_count as nat, 8);
}

/// A sealed payload is read back from where it lies.
pub proof fn law_sealed_round_trip(before: Seq<u8>, payload: Seq<u8>, after: Seq<u8>)
    requires
        before.len() <= u64::MAX,
        payload.len() + 4 <= u32::MAX,
    ensures
        sealed(payload).len() == payload.len() + 4,
        checked_block(
            before + sealed(payload) + after,
            before.len() as u64,
            (payload.len() + 4) as u32,
        ) == Ok::<Seq<u8>, StorageError>(payload),
{
    broadcast use lemma_le_len;

    lemma_pow256_values();
    let file = before + sealed(payload) + after;
    let offset = before.len() as int;
    let end = offset + payload.len();
    assert(file.subrange(offset, end) =~= payload);
    assert(file.subrange(end, end + 4) =~= le_bytes(crc_of(payload) as nat, 4));
    lemma_le_round_trip(crc_of(payload) as nat, 4);
}

/// A sealed payload that was damaged in one byte is told from one that was not.
pub proof fn law_a_damaged_block_is_an_error(
    before: Seq<u8>,
    payload: Seq<u8>,
    after: Seq<u8>,
    i: int,
    byte: u8,
)
    requires
        before.len() <= u64::MAX,
        payload.len() + 4 <= u32::MAX,
        0 <= i < sealed(payload).len(),
        byte != sealed(payload)[i],
    ensures
        checked_block(
            before + sealed(payload).update(i, byte) + after,
            before.len() as u64,
            (payload.len() + 4) as u32,
        ) == Err::<Seq<u8>, StorageError>(
            StorageError::BlockChecksum { offset: before.len() as u64 },
        ),
{
    broadcast use lemma_le_len;

    lemma_pow256_values();
    let whole = sealed(payload);
    let file = before + whole.update(i, byte) + after;
    let offset = before.len() as int;
    let end = offset + payload.len();
    let crc = le_bytes(crc_of(payload) as nat, 4);
    lemma_le_round_trip(crc_of(payload) as nat, 4);
    if i < payload.len() {
        assert(file.subrange(offset, end) =~= payload.update(i, byte));
        assert(file.subrange(end, end + 4) =~= crc);
        law_single_byte_change_is_detected(payload, i, byte);
    } else {
        assert(file.subrange(offset, end) =~= payload);
        assert(file.subrange(end, end + 4)[i - payload.len()] == byte);
        assert(crc[i - payload.len()] == whole[i]);
        lemma_le_differs(file.subrange(end, end + 4), crc);
    }
}

/// A footer that was damaged in one byte is told from one that was not.
pub proof fn law_a_damaged_footer_is_an_error(footer: Footer, i: int, byte: u8)
    requires
        0 <= i < footer_bytes(footer).len(),
        byte != footer_bytes(footer)[i],
    ensures
        parse_footer(footer_bytes(footer).update(i, byte)) is Err,
{
    broadcast use lemma_le_len;

    lemma_pow256_values();
    let whole = footer_bytes(footer);
    let bytes = whole.update(i, byte);
    let payload = footer_payload(footer);
    let crc = le_bytes(crc_of(payload) as nat, 4);
    let magic = le_bytes(MAGIC as nat, 8);
    lemma_le_round_trip(MAGIC as nat, 8);
    lemma_le_round_trip(crc_of(payload) as nat, 4);
    if i < 32 {
        assert(bytes.subrange(0, 32) =~= payload.update(i, byte));
        assert(bytes.subrange(32, 36) =~= crc);
        law_single_byte_change_is_detected(payload, i, byte);
    } else if i < 36 {
        assert(bytes.subrange(0, 32) =~= payload);
        assert(bytes.subrange(32, 36)[i - 32] == byte);
        assert(crc[i - 32] == whole[i]);
        lemma_le_differs(bytes.subrange(32, 36), crc);
    } else {
        assert(bytes.subrange(36, 44)[i - 36] == byte);
        assert(magic[i - 36] == whole[i]);
        lemma_le_differs(bytes.subrange(36, 44), magic);
    }
}

/// One entry of the sparse index.
#[derive(Debug, Clone, PartialEq, Eq)]
pub struct IndexEntry {
    pub first_key: Key,
    pub offset: u64,
    pub length: u32,
}

impl View for IndexEntry {
    type V = IndexView;

    open spec fn view(&self) -> IndexView {
        IndexView { first_key: self.first_key@, offset: self.offset, length: self.length }
    }
}

/// The content of a list of index entries.
pub open spec fn index_of(index: Seq<IndexEntry>) -> Seq<IndexView> {
    Seq::new(index.len(), |i: int| index[i]@)
}

/// Appends an entry to the block being filled.
pub fn push_entry(block: &mut Vec<u8>, key: &[u8], value: &Value)
    requires
        key@.len() <= u32::MAX,
        payload_len(value@) <= u32::MAX,
    ensures
        final(block)@ == old(block)@ + entry_bytes((key@, value@)),
{
    match value {
        Value::Put(_) => block.push(TAG_PUT),
        Value::Tombstone => block.push(TAG_TOMBSTONE),
    }
    push_u32(block, key.len() as u32);
    push_u32(block, value.byte_len() as u32);
    block.extend_from_slice(key);
    match value {
        Value::Put(bytes) => block.extend_from_slice(bytes.as_slice()),
        Value::Tombstone => {},
    }
    proof {
        assert(block@ =~= old(block)@ + entry_bytes((key@, value@)));
    }
}

/// Appends a payload and its checksum.
pub fn push_sealed(file: &mut Vec<u8>, payload: &[u8])
    ensures
        final(file)@ == old(file)@ + sealed(payload@),
{
    let checksum: u32 = crc32(payload);
    file.extend_from_slice(payload);
    push_u32(file, checksum);
    proof {
        assert(file@ =~= old(file)@ + sealed(payload@));
    }
}

/// Encodes the index.
pub fn encode_index(index: &Vec<IndexEntry>) -> (bytes: Vec<u8>)
    requires
        forall|i: int| 0 <= i < index@.len() ==> (#[trigger] index@[i]).first_key@.len() <= u32::MAX,
    ensures
        bytes@ == index_bytes(index_of(index@)),
{
    let mut bytes: Vec<u8> = Vec::new();
    let ghost view = index_of(index@);
    let mut i: usize = 0;
    while i < index.len()
        invariant
            i <= index@.len(),
            view == index_of(index@),
            bytes@ == index_bytes(view.take(i as int)),
            forall|i: int|
                0 <= i < index@.len() ==> (#[trigger] index@[i]).first_key@.len() <= u32::MAX,
        decreases index@.len() - i,
    {
        let entry: &IndexEntry = &index[i];
        let ghost before = bytes@;
        push_u32(&mut bytes, entry.first_key.len() as u32);
        bytes.extend_from_slice(entry.first_key.as_slice());
        push_u64(&mut bytes, entry.offset);
        push_u32(&mut bytes, entry.length);
        proof {
            assert(bytes@ =~= before + index_entry_bytes(entry@));
            assert(view.take(i + 1).drop_last() =~= view.take(i as int));
            assert(view.take(i + 1).last() == entry@);
        }
        i = i + 1;
    }
    proof {
        assert(view.take(i as int) =~= view);
    }
    bytes
}

/// Reads `length` bytes at `offset` and verifies the checksum behind them,
/// giving back the payload without it.
pub fn read_checked_block(file: &[u8], offset: u64, length: u32) -> (block: Result<
    Vec<u8>,
    StorageError,
>)
    ensures
        match block {
            Ok(bytes) => checked_block(file@, offset, length) == Ok::<Seq<u8>, StorageError>(
                bytes@,
            ),
            Err(error) => checked_block(file@, offset, length) == Err::<Seq<u8>, StorageError>(
                error,
            ),
        },
{
    if (length as usize) < BLOCK_CRC_BYTES {
        return Err(StorageError::BlockTooShort);
    }
    if offset as u128 + length as u128 > file.len() as u128 {
        return Err(StorageError::TableEnded);
    }
    let start: usize = offset as usize;
    let end: usize = start + length as usize;
    let split: usize = end - BLOCK_CRC_BYTES;
    let payload: &[u8] = vstd::slice::slice_subrange(file, start, split);
    let expected: u32 = read_u32(file, split);
    if crc32(payload) != expected {
        return Err(StorageError::BlockChecksum { offset });
    }
    Ok(copy_bytes(payload))
}

/// Decodes the entries of a block.
pub fn decode_block(bytes: &[u8]) -> (decoded: Result<Vec<(Key, Value)>, StorageError>)
    ensures
        match decoded {
            Ok(entries) => parse_block(bytes@) == Ok::<Seq<EntryView>, StorageError>(
                entries_of(entries@),
            ),
            Err(error) => parse_block(bytes@) == Err::<Seq<EntryView>, StorageError>(error),
        },
{
    let mut entries: Vec<(Key, Value)> = Vec::new();
    let mut cursor: usize = 0;
    let total: usize = bytes.len();
    proof {
        assert(bytes@.skip(0) =~= bytes@);
        assert(parse_block(bytes@) == prepend(entries_of(entries@), parse_block(bytes@))) by {
            lemma_prepend_empty(entries_of(entries@), parse_block(bytes@));
        }
    }
    while cursor < total
        invariant
            cursor <= total,
            total == bytes@.len(),
            parse_block(bytes@) == prepend(
                entries_of(entries@),
                parse_block(bytes@.skip(cursor as int)),
            ),
        decreases total - cursor,
    {
        let ghost rest = bytes@.skip(cursor as int);
        let left: usize = total - cursor;
        if left < ENTRY_HEADER_BYTES {
            return Err(StorageError::TruncatedEntryHeader);
        }
        let tag: u8 = bytes[cursor];
        let key_len: u32 = read_u32(bytes, cursor + 1);
        let value_len: u32 = read_u32(bytes, cursor + 5);
        proof {
            assert(rest.subrange(1, 5) =~= bytes@.subrange(cursor + 1, cursor + 5));
            assert(rest.subrange(5, 9) =~= bytes@.subrange(cursor + 5, cursor + 9));
        }
        if key_len > MAX_ENTRY_BYTES || value_len > MAX_ENTRY_BYTES {
            return Err(StorageError::EntryTooLong);
        }
        let body: usize = left - ENTRY_HEADER_BYTES;
        if key_len as usize > body || value_len as usize > body - key_len as usize {
            return Err(StorageError::EntryOverrun);
        }
        let key_start: usize = cursor + ENTRY_HEADER_BYTES;
        let key_end: usize = key_start + key_len as usize;
        let value_end: usize = key_end + value_len as usize;
        let key: Key = copy_bytes(vstd::slice::slice_subrange(bytes, key_start, key_end));
        proof {
            assert(rest.subrange(9, 9 + key_len as int) =~= key@);
        }
        let value: Value = if tag == TAG_PUT {
            let payload: Vec<u8> = copy_bytes(
                vstd::slice::slice_subrange(bytes, key_end, value_end),
            );
            proof {
                assert(rest.subrange(9 + key_len as int, 9 + key_len as int + value_len as int)
                    =~= payload@);
            }
            Value::Put(payload)
        } else if tag == TAG_TOMBSTONE && value_len == 0 {
            Value::Tombstone
        } else {
            return Err(StorageError::BadEntryTag);
        };
        let ghost entry = (key@, value@);
        let ghost before = entries_of(entries@);
        entries.push((key, value));
        proof {
            assert(rest.skip(9 + key_len as int + value_len as int) =~= bytes@.skip(
                value_end as int,
            ));
            assert(entries_of(entries@) =~= before.push(entry));
            lemma_prepend_step(before, entry, parse_block(bytes@.skip(value_end as int)));
        }
        cursor = value_end;
    }
    proof {
        lemma_prepend_end(entries_of(entries@));
    }
    Ok(entries)
}

/// A list in front of what parsing the rest gave.
spec fn prepend<T>(list: Seq<T>, rest: Result<Seq<T>, StorageError>) -> Result<
    Seq<T>,
    StorageError,
> {
    match rest {
        Err(error) => Err(error),
        Ok(tail) => Ok(list + tail),
    }
}

proof fn lemma_prepend_empty<T>(list: Seq<T>, rest: Result<Seq<T>, StorageError>)
    requires
        list.len() == 0,
    ensures
        prepend(list, rest) == rest,
{
    match rest {
        Err(error) => {},
        Ok(tail) => {
            assert(list + tail =~= tail);
        },
    }
}

proof fn lemma_prepend_end<T>(list: Seq<T>)
    ensures
        prepend(list, Ok(Seq::<T>::empty())) == Ok::<Seq<T>, StorageError>(list),
{
    assert(list + Seq::<T>::empty() =~= list);
}

proof fn lemma_prepend_step<T>(list: Seq<T>, item: T, rest: Result<Seq<T>, StorageError>)
    ensures
        prepend(list, prepend(seq![item], rest)) == prepend(list.push(item), rest),
{
    match rest {
        Err(error) => {},
        Ok(tail) => {
            assert(list + (seq![item] + tail) =~= list.push(item) + tail);
        },
    }
}

/// Decodes the entries of an index.
pub fn decode_index(bytes: &[u8]) -> (decoded: Result<Vec<IndexEntry>, StorageError>)
    ensures
        match decoded {
            Ok(index) => parse_index(bytes@) == Ok::<Seq<IndexView>, StorageError>(
                index_of(index@),
            ),
            Err(error) => parse_index(bytes@) == Err::<Seq<IndexView>, StorageError>(error),
        },
{
    let mut entries: Vec<IndexEntry> = Vec::new();
    let mut cursor: usize = 0;
    let total: usize = bytes.len();
    proof {
        assert(bytes@.skip(0) =~= bytes@);
        lemma_prepend_empty(index_of(entries@), parse_index(bytes@));
    }
    while cursor < total
        invariant
            cursor <= total,
            total == bytes@.len(),
            parse_index(bytes@) == prepend(
                index_of(entries@),
                parse_index(bytes@.skip(cursor as int)),
            ),
        decreases total - cursor,
    {
        let ghost rest = bytes@.skip(cursor as int);
        let left: usize = total - cursor;
        if left < 4 {
            return Err(StorageError::TruncatedIndexEntry);
        }
        let key_len: u32 = read_u32(bytes, cursor);
        proof {
            assert(rest.subrange(0, 4) =~= bytes@.subrange(cursor as int, cursor + 4));
        }
        let body: usize = left - 4;
        if body < 12 || key_len as usize > body - 12 {
            return Err(StorageError::IndexEntryOverrun);
        }
        let key_start: usize = cursor + 4;
        let key_end: usize = key_start + key_len as usize;
        let first_key: Key = copy_bytes(vstd::slice::slice_subrange(bytes, key_start, key_end));
        let offset: u64 = read_u64(bytes, key_end);
        let length: u32 = read_u32(bytes, key_end + 8);
        let entry = IndexEntry { first_key, offset, length };
        proof {
            let end = 4 + key_len as int;
            assert(rest.subrange(4, end) =~= first_key@);
            assert(rest.subrange(end, end + 8) =~= bytes@.subrange(key_end as int, key_end + 8));
            assert(rest.subrange(end + 8, end + 12) =~= bytes@.subrange(key_end + 8, key_end + 12));
            assert(rest.skip(16 + key_len as int) =~= bytes@.skip(key_end + 12));
        }
        let ghost before = index_of(entries@);
        let ghost shown = entry@;
        entries.push(entry);
        proof {
            assert(index_of(entries@) =~= before.push(shown));
            lemma_prepend_step(before, shown, parse_index(bytes@.skip(key_end + 12)));
        }
        cursor = key_end + 12;
    }
    proof {
        lemma_prepend_end(index_of(entries@));
    }
    Ok(entries)
}

impl Footer {
    /// The footer as bytes.
    pub fn encode(&self) -> (bytes: Vec<u8>)
        ensures
            bytes@ == footer_bytes(*self),
    {
        let mut bytes: Vec<u8> = Vec::new();
        push_u64(&mut bytes, self.index_offset);
        push_u32(&mut bytes, self.index_length);
        push_u64(&mut bytes, self.bloom_offset);
        push_u32(&mut bytes, self.bloom_length);
        push_u64(&mut bytes, self.entry_count);
        proof {
            assert(bytes@ =~= footer_payload(*self));
        }
        let checksum: u32 = crc32(bytes.as_slice());
        push_u32(&mut bytes, checksum);
        push_u64(&mut bytes, MAGIC);
        proof {
            assert(bytes@ =~= footer_bytes(*self));
        }
        bytes
    }

    /// Reads a footer back, or says why the bytes are not one.
    pub fn decode(bytes: &[u8]) -> (decoded: Result<Self, StorageError>)
        requires
            bytes@.len() == FOOTER_BYTES,
        ensures
            decoded == parse_footer(bytes@),
    {
        if read_u64(bytes, 36) != MAGIC {
            return Err(StorageError::NotATable);
        }
        if crc32(vstd::slice::slice_subrange(bytes, 0, 32)) != read_u32(bytes, 32) {
            return Err(StorageError::FooterChecksum);
        }
        Ok(
            Footer {
                index_offset: read_u64(bytes, 0),
                index_length: read_u32(bytes, 8),
                bloom_offset: read_u64(bytes, 12),
                bloom_length: read_u32(bytes, 20),
                entry_count: read_u64(bytes, 24),
            },
        )
    }
}

} // verus!
