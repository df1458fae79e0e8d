//! Values apart from keys: an append-only log of values that the tree only
//! points at.
//!
//! A compaction rewrites whole entries, so a byte of value is written again at
//! every level that it comes to. With the value in a log of its own and a
//! pointer in the tree, a value is written once, however far its key travels.
//! Overwriting or deleting a key leaves its record behind; nothing reclaims it.
//!
//! A record is a checksum, the length of the value and the value. The checksum
//! covers the length and the value, so a torn or damaged record is told apart
//! from a value.

use vstd::prelude::*;

use super::codec::{
    le_bytes, le_value, lemma_le_differs, lemma_le_len, lemma_le_round_trip, lemma_pow256_values,
    push_u32, push_u64, read_u32, read_u64,
};
use super::crc32::{crc32, crc_of, law_single_byte_change_is_detected};
use super::order::copy_bytes;
use super::shape::saturated;
use super::StorageError;

verus! {

/// Bytes of a record before the value.
pub const VALUE_HEADER_BYTES: usize = 8;

/// Where a value is in the log: what the tree holds in its place.
#[derive(Debug, Clone, Copy, PartialEq, Eq, Structural)]
pub struct ValuePointer {
    /// Where the record begins.
    pub offset: u64,
    /// The length of the value.
    pub len: u32,
}

/// A pointer as bytes.
pub open spec fn pointer_bytes(pointer: ValuePointer) -> Seq<u8> {
    le_bytes(pointer.offset as nat, 8) + le_bytes(pointer.len as nat, 4)
}

/// The pointer that bytes encode, if there are as many as there have to be.
pub open spec fn parse_pointer(bytes: Seq<u8>) -> Option<ValuePointer> {
    if bytes.len() != 12 {
        None
    } else {
        Some(
            ValuePointer {
                offset: le_value(bytes.subrange(0, 8)) as u64,
                len: le_value(bytes.subrange(8, 12)) as u32,
            },
        )
    }
}

/// A pointer reads back as it was.
pub proof fn law_pointer_round_trip(pointer: ValuePointer)
    ensures
        pointer_bytes(pointer).len() == 12,
        parse_pointer(pointer_bytes(pointer)) == Some(pointer),
{
    broadcast use lemma_le_len;

    lemma_pow256_values();
    let bytes = pointer_bytes(pointer);
    assert(bytes.subrange(0, 8) =~= le_bytes(pointer.offset as nat, 8));
    assert(bytes.subrange(8, 12) =~= le_bytes(pointer.len as nat, 4));
    lemma_le_round_trip(pointer.offset as nat, 8);
    lemma_le_round_trip(pointer.len as nat, 4);
}

impl ValuePointer {
    /// Bytes of a pointer.
    pub const ENCODED_BYTES: usize = 12;

    /// The pointer as bytes.
    pub fn encode(&self) -> (bytes: [u8; 12])
        ensures
            bytes@ == pointer_bytes(*self),
    {
        broadcast use lemma_le_len;

        let mut out: Vec<u8> = Vec::new();
        push_u64(&mut out, self.offset);
        push_u32(&mut out, self.len);
        let bytes: [u8; 12] = [
            out[0],
            out[1],
            out[2],
            out[3],
            out[4],
            out[5],
            out[6],
            out[7],
            out[8],
            out[9],
            out[10],
            out[11],
        ];
        proof {
            assert(out@ =~= pointer_bytes(*self));
            assert(bytes@ =~= out@);
        }
        bytes
    }

    /// The pointer that bytes encode; none if there are not as many as there
    /// have to be.
    pub fn decode(bytes: &[u8]) -> (pointer: Option<Self>)
        ensures
            pointer == parse_pointer(bytes@),
    {
        if bytes.len() != Self::ENCODED_BYTES {
            return None;
        }
        Some(ValuePointer { offset: read_u64(bytes, 0), len: read_u32(bytes, 8) })
    }
}

// ---------------------------------------------------------------------------
// Records
// ---------------------------------------------------------------------------

/// What the checksum of a record covers.
pub open spec fn checked_part(value: Seq<u8>) -> Seq<u8> {
    le_bytes(value.len(), 4) + value
}

/// The record of a value.
pub open spec fn value_record(value: Seq<u8>) -> Seq<u8> {
    le_bytes(crc_of(checked_part(value)) as nat, 4) + checked_part(value)
}

/// The length that the record at the front of `bytes` says it has.
pub open spec fn stored_len(bytes: Seq<u8>) -> nat {
    le_value(bytes.subrange(4, 8))
}

/// The record at the front of `bytes` passes its checksum.
pub open spec fn checks_out(bytes: Seq<u8>) -> bool {
    crc_of(bytes.subrange(4, 8 + stored_len(bytes) as int)) == le_value(bytes.subrange(0, 4))
}

/// There is a whole record at the front of `bytes`, and it is as it was written.
pub open spec fn is_record(bytes: Seq<u8>) -> bool {
    bytes.len() >= 8 && 8 + stored_len(bytes) <= bytes.len() && checks_out(bytes)
}

/// The bytes up to the first record that is torn or damaged.
pub open spec fn intact_len(log: Seq<u8>) -> nat
    decreases log.len(),
{
    if is_record(log) {
        8 + stored_len(log) + intact_len(log.skip(8 + stored_len(log) as int))
    } else {
        0
    }
}

/// What reading the record that a pointer names gives.
pub open spec fn read_value(log: Seq<u8>, pointer: ValuePointer) -> Result<Seq<u8>, StorageError> {
    let offset = pointer.offset as int;
    if offset + 8 > log.len() {
        Err(StorageError::ValueLogEnded)
    } else {
        let bytes = log.skip(offset);
        let length = stored_len(bytes);
        if length != pointer.len {
            Err(
                StorageError::PointerLengthMismatch {
                    offset: pointer.offset,
                    stored: length as u32,
                    pointed: pointer.len,
                },
            )
        } else if 8 + length > bytes.len() {
            Err(StorageError::ValueLogEnded)
        } else if !checks_out(bytes) {
            Err(StorageError::ValueChecksum { offset: pointer.offset })
        } else {
            Ok(bytes.subrange(8, 8 + length as int))
        }
    }
}

/// A record that was written is one, whatever follows it.
pub proof fn lemma_value_record(value: Seq<u8>, more: Seq<u8>)
    requires
        value.len() <= u32::MAX,
    ensures
        value_record(value).len() == 8 + value.len(),
        is_record(value_record(value) + more),
        stored_len(value_record(value) + more) == value.len(),
        (value_record(value) + more).subrange(8, 8 + value.len() as int) == value,
        (value_record(value) + more).skip(8 + value.len() as int) == more,
{
    broadcast use lemma_le_len;

    lemma_pow256_values();
    let bytes = value_record(value) + more;
    let crc = crc_of(checked_part(value));
    assert(bytes.subrange(0, 4) =~= le_bytes(crc as nat, 4));
    assert(bytes.subrange(4, 8) =~= le_bytes(value.len(), 4));
    lemma_le_round_trip(crc as nat, 4);
    lemma_le_round_trip(value.len(), 4);
    assert(bytes.subrange(4, 8 + value.len() as int) =~= checked_part(value));
    assert(bytes.subrange(8, 8 + value.len() as int) =~= value);
    assert(bytes.skip(8 + value.len() as int) =~= more);
}

/// A value reads back as it was written, whatever is appended after it.
pub proof fn law_values_read_back(log: Seq<u8>, value: Seq<u8>, more: Seq<u8>)
    requires
        value.len() <= u32::MAX,
        log.len() <= u64::MAX,
    ensures
        read_value(
            log + value_record(value) + more,
            ValuePointer { offset: log.len() as u64, len: value.len() as u32 },
        ) == Ok::<Seq<u8>, StorageError>(value),
{
    lemma_value_record(value, more);
    let all = log + value_record(value) + more;
    assert(all.skip(log.len() as int) =~= value_record(value) + more);
}

/// A value whose record was damaged in one byte does not read back as some other
/// value: the pointer to it gives an error.
pub proof fn law_a_damaged_value_is_an_error(
    log: Seq<u8>,
    value: Seq<u8>,
    more: Seq<u8>,
    i: int,
    byte: u8,
)
    requires
        value.len() <= u32::MAX,
        log.len() <= u64::MAX,
        0 <= i < value_record(value).len(),
        byte != value_record(value)[i],
    ensures
        read_value(
            log + value_record(value).update(i, byte) + more,
            ValuePointer { offset: log.len() as u64, len: value.len() as u32 },
        ) is Err,
{
    broadcast use lemma_le_len;

    lemma_pow256_values();
    let record = value_record(value);
    let damaged = record.update(i, byte);
    let bytes = damaged + more;
    assert((log + damaged + more).skip(log.len() as int) =~= bytes);
    assert(record.subrange(4, 8) =~= le_bytes(value.len(), 4));
    lemma_le_round_trip(value.len(), 4);
    let crc = crc_of(checked_part(value)) as nat;
    assert(record.subrange(0, 4) =~= le_bytes(crc, 4));
    lemma_le_round_trip(crc, 4);
    if 4 <= i < 8 {
        assert(bytes.subrange(4, 8)[i - 4] == byte);
        assert(record.subrange(4, 8)[i - 4] != byte);
        lemma_le_differs(bytes.subrange(4, 8), record.subrange(4, 8));
    } else {
        assert(bytes.subrange(4, 8) =~= record.subrange(4, 8));
        let length = 8 + value.len();
        if i < 4 {
            assert(bytes.subrange(0, 4)[i] == byte);
            assert(record.subrange(0, 4)[i] != byte);
            lemma_le_differs(bytes.subrange(0, 4), record.subrange(0, 4));
            assert(bytes.subrange(4, length as int) =~= checked_part(value));
        } else {
            assert(bytes.subrange(0, 4) =~= record.subrange(0, 4));
            assert(bytes.subrange(4, length as int) =~= checked_part(value).update(i - 4, byte));
            law_single_byte_change_is_detected(checked_part(value), i - 4, byte);
        }
    }
}

/// What is intact stays so when a value is appended, and so is the value.
pub proof fn law_appended_values_are_intact(log: Seq<u8>, value: Seq<u8>)
    requires
        intact_len(log) == log.len(),
        value.len() <= u32::MAX,
    ensures
        intact_len(log + value_record(value)) == log.len() + value_record(value).len(),
    decreases log.len(),
{
    let record = value_record(value);
    let all = log + record;
    if log.len() == 0 {
        assert(all =~= record + Seq::<u8>::empty());
        lemma_value_record(value, Seq::empty());
        assert(all == record + Seq::<u8>::empty());
        let rest = all.skip(8 + value.len() as int);
        assert(rest.len() == 0);
        assert(intact_len(rest) == 0);
    } else {
        let length = 8 + stored_len(log);
        assert(all.take(log.len() as int) =~= log);
        lemma_same_front(log, all);
        assert(all.skip(length as int) =~= log.skip(length as int) + record);
        law_appended_values_are_intact(log.skip(length as int), value);
    }
}

/// A record depends on nothing behind it.
proof fn lemma_same_front(log: Seq<u8>, all: Seq<u8>)
    requires
        is_record(log),
        log.len() <= all.len(),
        all.take(log.len() as int) == log,
    ensures
        is_record(all),
        stored_len(all) == stored_len(log),
{
    let length = 8 + stored_len(log) as int;
    assert(all.subrange(0, 4) =~= log.subrange(0, 4));
    assert(all.subrange(4, 8) =~= log.subrange(4, 8));
    assert(all.subrange(4, length) =~= log.subrange(4, length));
}

/// The intact part is no longer than the log, and is intact by itself.
pub proof fn law_recovery_keeps_the_intact_part(log: Seq<u8>)
    ensures
        intact_len(log) <= log.len(),
        intact_len(log.take(intact_len(log) as int)) == intact_len(log),
    decreases log.len(),
{
    if is_record(log) {
        let length = 8 + stored_len(log) as int;
        let rest = log.skip(length);
        law_recovery_keeps_the_intact_part(rest);
        let part = log.take(intact_len(log) as int);
        assert(part.subrange(0, 4) =~= log.subrange(0, 4));
        assert(part.subrange(4, 8) =~= log.subrange(4, 8));
        assert(part.subrange(4, length) =~= log.subrange(4, length));
        assert(part.skip(length) =~= rest.take(intact_len(rest) as int));
    } else {
        assert(log.take(0).len() == 0);
    }
}

/// What the intact part of a log says is what the log said: cutting a torn tail
/// off loses no value that was whole.
pub proof fn law_a_torn_tail_loses_only_itself(log: Seq<u8>, torn: Seq<u8>, pointer: ValuePointer)
    requires
        intact_len(log) == log.len(),
        !is_record(torn),
    ensures
        intact_len(log + torn) == log.len(),
        read_value(log, pointer) is Ok ==> read_value(log + torn, pointer) == read_value(
            log,
            pointer,
        ),
    decreases log.len(),
{
    lemma_intact_concat(log, torn);
    let all = log + torn;
    if read_value(log, pointer) is Ok {
        let offset = pointer.offset as int;
        let a = log.skip(offset);
        let b = all.skip(offset);
        let length = 8 + stored_len(a) as int;
        assert(b.subrange(0, 4) =~= a.subrange(0, 4));
        assert(b.subrange(4, 8) =~= a.subrange(4, 8));
        assert(b.subrange(4, length) =~= a.subrange(4, length));
        assert(b.subrange(8, length) =~= a.subrange(8, length));
    }
}

proof fn lemma_intact_concat(log: Seq<u8>, torn: Seq<u8>)
    requires
        intact_len(log) == log.len(),
        !is_record(torn),
    ensures
        intact_len(log + torn) == log.len(),
    decreases log.len(),
{
    let all = log + torn;
    if log.len() == 0 {
        assert(all =~= torn);
    } else {
        let length = 8 + stored_len(log);
        assert(all.take(log.len() as int) =~= log);
        lemma_same_front(log, all);
        assert(all.skip(length as int) =~= log.skip(length as int) + torn);
        lemma_intact_concat(log.skip(length as int), torn);
    }
}

// ---------------------------------------------------------------------------
// The log
// ---------------------------------------------------------------------------

/// An append-only log of values.
#[derive(Debug)]
pub struct ValueLog {
    log: Vec<u8>,
    payload_written: u64,
}

impl View for ValueLog {
    type V = Seq<u8>;

    closed spec fn view(&self) -> Seq<u8> {
        self.log@
    }
}

/// The record at `at` is whole and passes its checksum; gives its length.
fn check_record(log: &[u8], at: usize) -> (length: Option<usize>)
    requires
        at <= log@.len(),
    ensures
        match length {
            Some(length) => is_record(log@.skip(at as int)) && length == 8 + stored_len(
                log@.skip(at as int),
            ),
            None => !is_record(log@.skip(at as int)),
        },
{
    let ghost bytes = log@.skip(at as int);
    if log.len() - at < VALUE_HEADER_BYTES {
        return None;
    }
    let expected: u32 = read_u32(log, at);
    let len: u32 = read_u32(log, at + 4);
    proof {
        assert(log@.subrange(at as int, at + 4) =~= bytes.subrange(0, 4));
        assert(log@.subrange(at + 4, at + 4 + 4) =~= bytes.subrange(4, 8));
    }
    if log.len() - at - VALUE_HEADER_BYTES < len as usize {
        return None;
    }
    let end: usize = at + VALUE_HEADER_BYTES + len as usize;
    let checked: &[u8] = vstd::slice::slice_subrange(log, at + 4, end);
    proof {
        assert(checked@ =~= bytes.subrange(4, 8 + len as int));
    }
    if crc32(checked) != expected {
        return None;
    }
    Some(VALUE_HEADER_BYTES + len as usize)
}

impl ValueLog {
    /// The bytes of values appended through this handle.
    pub closed spec fn payload(&self) -> u64 {
        self.payload_written
    }

    /// Takes up a log. Everything from the first record on that is torn or
    /// damaged is cut off before anything is appended, so that no later value
    /// ends up behind it.
    pub fn open(log: Vec<u8>) -> (values: Self)
        ensures
            values@ == log@.take(intact_len(log@) as int),
            values.payload() == 0,
    {
        let intact: usize = Self::scan_intact_prefix(log.as_slice());
        let mut kept: Vec<u8> = log;
        kept.truncate(intact);
        ValueLog { log: kept, payload_written: 0 }
    }

    /// Where the first record begins that is torn or damaged.
    fn scan_intact_prefix(log: &[u8]) -> (intact: usize)
        ensures
            intact <= log@.len(),
            intact == intact_len(log@),
    {
        let total: usize = log.len();
        let mut at: usize = 0;
        proof {
            assert(log@.skip(0) =~= log@);
        }
        loop
            invariant
                at <= total,
                total == log@.len(),
                intact_len(log@) == at + intact_len(log@.skip(at as int)),
            decreases log@.len() - at,
        {
            let ghost rest = log@.skip(at as int);
            match check_record(log, at) {
                Some(length) => {
                    proof {
                        assert(rest.skip(length as int) =~= log@.skip(at + length));
                    }
                    at = at + length;
                },
                None => {
                    return at;
                },
            }
        }
    }

    /// Appends a value and says where it is.
    pub fn append(&mut self, value: &[u8]) -> (pointer: Result<ValuePointer, StorageError>)
        ensures
            match pointer {
                Ok(pointer) => {
                    &&& value@.len() <= u32::MAX
                    &&& pointer == (ValuePointer {
                        offset: old(self)@.len() as u64,
                        len: value@.len() as u32,
                    })
                    &&& pointer.offset == old(self)@.len()
                    &&& final(self)@ == old(self)@ + value_record(value@)
                    &&& final(self).payload() == saturated(
                        old(self).payload() as nat + value@.len(),
                    )
                    &&& read_value(final(self)@, pointer) == Ok::<Seq<u8>, StorageError>(value@)
                },
                Err(error) => {
                    &&& value@.len() > u32::MAX
                    &&& error == (StorageError::ValueTooLarge { length: value@.len() as usize })
                    &&& *final(self) == *old(self)
                },
            },
    {
        if value.len() as u64 > u32::MAX as u64 {
            return Err(StorageError::ValueTooLarge { length: value.len() });
        }
        let len: u32 = value.len() as u32;
        let offset: u64 = self.log.len() as u64;
        let mut checked: Vec<u8> = Vec::new();
        push_u32(&mut checked, len);
        checked.extend_from_slice(value);
        proof {
            assert(checked@ =~= checked_part(value@));
        }
        let ghost before = self.log@;
        push_u32(&mut self.log, crc32(checked.as_slice()));
        self.log.extend_from_slice(checked.as_slice());
        proof {
            assert(self.log@ =~= before + value_record(value@));
            assert(self.log@ =~= before + value_record(value@) + Seq::<u8>::empty());
            law_values_read_back(before, value@, Seq::empty());
        }
        self.payload_written = self.payload_written.saturating_add(len as u64);
        Ok(ValuePointer { offset, len })
    }

    /// Reads the value that a pointer names. A pointer into a damaged place is
    /// an error, not some bytes.
    pub fn read(&self, pointer: ValuePointer) -> (value: Result<Vec<u8>, StorageError>)
        ensures
            match value {
                Ok(value) => read_value(self@, pointer) == Ok::<Seq<u8>, StorageError>(value@),
                Err(error) => read_value(self@, pointer) == Err::<Seq<u8>, StorageError>(error),
            },
    {
        let log: &[u8] = self.log.as_slice();
        let total: u64 = log.len() as u64;
        if pointer.offset > total || total - pointer.offset < VALUE_HEADER_BYTES as u64 {
            return Err(StorageError::ValueLogEnded);
        }
        let at: usize = pointer.offset as usize;
        let ghost bytes = log@.skip(at as int);
        let expected: u32 = read_u32(log, at);
        let len: u32 = read_u32(log, at + 4);
        proof {
            assert(log@.subrange(at as int, at + 4) =~= bytes.subrange(0, 4));
            assert(log@.subrange(at + 4, at + 4 + 4) =~= bytes.subrange(4, 8));
        }
        if len != pointer.len {
            return Err(
                StorageError::PointerLengthMismatch {
                    offset: pointer.offset,
                    stored: len,
                    pointed: pointer.len,
                },
            );
        }
        if log.len() - at - VALUE_HEADER_BYTES < len as usize {
            return Err(StorageError::ValueLogEnded);
        }
        let end: usize = at + VALUE_HEADER_BYTES + len as usize;
        let checked: &[u8] = vstd::slice::slice_subrange(log, at + 4, end);
        proof {
            assert(checked@ =~= bytes.subrange(4, 8 + len as int));
        }
        if crc32(checked) != expected {
            return Err(StorageError::ValueChecksum { offset: pointer.offset });
        }
        let value: Vec<u8> = copy_bytes(
            vstd::slice::slice_subrange(log, at + VALUE_HEADER_BYTES, end),
        );
        proof {
            assert(value@ =~= bytes.subrange(8, 8 + len as int));
        }
        Ok(value)
    }

    /// The bytes of the log, headers included.
    pub fn disk_bytes(&self) -> (bytes: u64)
        ensures
            bytes == self@.len(),
    {
        self.log.len() as u64
    }

    /// The bytes of values appended through this handle, headers excluded: a
    /// value counts once, however many compactions its key survives.
    pub fn payload_written(&self) -> (bytes: u64)
        ensures
            bytes == self.payload(),
    {
        self.payload_written
    }

    /// The log itself.
    pub fn bytes(&self) -> (bytes: &[u8])
        ensures
            bytes@ == self@,
    {
        self.log.as_slice()
    }
}

} // verus!
