//! The write-ahead log.
//!
//! A write is appended here before it touches the memtable, so that a crash
//! between the two loses nothing that was acknowledged.
//!
//! ```text
//! record  = payload length (u32) | CRC-32 of payload (u32) | payload
//! payload = tag (u8) | key length (u32) | key | value
//! ```
//!
//! All integers are little-endian. The tag is 0 for a value and 1 for a
//! tombstone, which has no value bytes. A crash in the middle of a write leaves
//! a record that cannot be verified; replay stops there, and recovery cuts the
//! log back to the last verified record before anything is appended behind it.
//!
//! The log is held as the bytes of its file. Putting them on a device, and
//! forcing them down when [`Wal::durable_bytes`] says so, is the caller's part.

use vstd::prelude::*;

use super::codec::{
    le_bytes, le_value, lemma_le_differs, lemma_le_len, lemma_le_round_trip, lemma_pow256_values,
    pow256, push_u32, read_u32,
};
use super::crc32::{
    crc_of, crc32, law_single_byte_change_is_detected, lemma_fold_concat, Crc32, INITIAL,
};
use super::entries::{entries_of, EntryView};
use super::memtable::{payload_len, Value};
use super::order::copy_bytes;
use super::{Key, StorageError};

verus! {

/// Bytes before the payload of a record.
pub const HEADER_BYTES: usize = 8;

/// Bytes of a payload before its key.
pub const PAYLOAD_PREFIX_BYTES: usize = 5;

const TAG_PUT: u8 = 0;

const TAG_TOMBSTONE: u8 = 1;

/// The longest payload accepted. A record that claims to be longer is treated
/// as a torn tail.
pub const MAX_PAYLOAD_BYTES: u32 = 64 * 1024 * 1024;

/// When to force log bytes down to the physical device.
#[derive(Debug, Clone, Copy, PartialEq, Eq, Structural)]
pub enum SyncPolicy {
    /// After every append.
    EveryWrite,
    /// Only when [`Wal::sync`] is called.
    Manual,
}

/// The bytes of a value; a tombstone has none.
pub open spec fn value_bytes(value: Option<Seq<u8>>) -> Seq<u8> {
    match value {
        Some(bytes) => bytes,
        None => Seq::empty(),
    }
}

/// The tag that tells a value from a tombstone.
pub open spec fn tag_of(value: Option<Seq<u8>>) -> u8 {
    if value is Some {
        0
    } else {
        1
    }
}

/// The payload of the record of one mutation.
pub open spec fn payload_of(entry: EntryView) -> Seq<u8> {
    seq![tag_of(entry.1)] + le_bytes(entry.0.len(), 4) + entry.0 + value_bytes(entry.1)
}

/// The record of one mutation.
pub open spec fn record_of(entry: EntryView) -> Seq<u8> {
    le_bytes(payload_of(entry).len(), 4) + le_bytes(crc_of(payload_of(entry)) as nat, 4)
        + payload_of(entry)
}

/// The log that holds these mutations in this order.
pub open spec fn log_of(entries: Seq<EntryView>) -> Seq<u8>
    decreases entries.len(),
{
    if entries.len() == 0 {
        Seq::empty()
    } else {
        log_of(entries.drop_last()) + record_of(entries.last())
    }
}

/// A mutation that the log accepts.
pub open spec fn loggable(entry: EntryView) -> bool {
    PAYLOAD_PREFIX_BYTES + entry.0.len() + payload_len(entry.1) <= MAX_PAYLOAD_BYTES
}

/// Why the log does not accept a mutation.
pub open spec fn log_error(entry: EntryView) -> StorageError {
    let bytes = PAYLOAD_PREFIX_BYTES + entry.0.len() + payload_len(entry.1);
    if entry.0.len() > u32::MAX {
        StorageError::LogKeyTooLarge
    } else if bytes > u32::MAX {
        StorageError::LogRecordTooLarge
    } else {
        StorageError::LogRecordOverLimit { bytes: bytes as u32 }
    }
}

/// What a payload says, if it is one.
pub open spec fn parse_payload(payload: Seq<u8>) -> Option<EntryView> {
    if payload.len() < 5 {
        None
    } else {
        let key_end = 5 + le_value(payload.subrange(1, 5));
        if key_end > payload.len() {
            None
        } else {
            let key = payload.subrange(5, key_end as int);
            if payload[0] == 0 {
                Some((key, Some(payload.skip(key_end as int))))
            } else if payload[0] == 1 && key_end == payload.len() {
                Some((key, None))
            } else {
                None
            }
        }
    }
}

/// The record at the front of `bytes`, if one can be verified there, and its
/// length.
pub open spec fn parse_record(bytes: Seq<u8>) -> Option<(EntryView, nat)> {
    if bytes.len() < 8 {
        None
    } else {
        let len = le_value(bytes.subrange(0, 4));
        let crc = le_value(bytes.subrange(4, 8));
        if len > MAX_PAYLOAD_BYTES || len < 5 || bytes.len() < 8 + len {
            None
        } else {
            let payload = bytes.subrange(8, 8 + len as int);
            if crc_of(payload) != crc {
                None
            } else {
                match parse_payload(payload) {
                    Some(entry) => Some((entry, 8 + len)),
                    None => None,
                }
            }
        }
    }
}

/// The mutations that a log holds up to the first record that cannot be
/// verified.
pub open spec fn replay_of(log: Seq<u8>) -> Seq<EntryView>
    decreases log.len(),
{
    match parse_record(log) {
        Some((entry, len)) => seq![entry] + replay_of(log.skip(len as int)),
        None => Seq::empty(),
    }
}

/// The bytes of a log up to the first record that cannot be verified.
pub open spec fn verified_len(log: Seq<u8>) -> nat
    decreases log.len(),
{
    match parse_record(log) {
        Some((entry, len)) => len + verified_len(log.skip(len as int)),
        None => 0,
    }
}

/// What the records, applied in order, make known of each key.
pub open spec fn apply_all(
    start: Map<Seq<u8>, Option<Seq<u8>>>,
    records: Seq<EntryView>,
) -> Map<Seq<u8>, Option<Seq<u8>>>
    decreases records.len(),
{
    if records.len() == 0 {
        start
    } else {
        apply_all(start, records.drop_last()).insert(records.last().0, records.last().1)
    }
}

/// What a payload that was written says is what was written.
pub proof fn lemma_payload_round_trip(entry: EntryView)
    requires
        entry.0.len() < pow256(4),
    ensures
        parse_payload(payload_of(entry)) == Some(entry),
        payload_of(entry).len() == 5 + entry.0.len() + payload_len(entry.1),
{
    broadcast use lemma_le_len;

    let payload = payload_of(entry);
    let prefix = seq![tag_of(entry.1)] + le_bytes(entry.0.len(), 4);
    assert(payload.subrange(1, 5) =~= le_bytes(entry.0.len(), 4));
    lemma_le_round_trip(entry.0.len(), 4);
    let key_end = 5 + entry.0.len();
    assert(payload.subrange(5, key_end as int) =~= entry.0);
    assert(payload.skip(key_end as int) =~= value_bytes(entry.1));
    assert(payload[0] == tag_of(entry.1));
}

/// A record that was written is read back whole, whatever follows it.
pub proof fn lemma_record_round_trip(entry: EntryView, rest: Seq<u8>)
    requires
        loggable(entry),
    ensures
        parse_record(record_of(entry) + rest) == Some((entry, record_of(entry).len())),
        record_of(entry).len() == 8 + payload_of(entry).len(),
        (record_of(entry) + rest).skip(record_of(entry).len() as int) == rest,
{
    broadcast use lemma_le_len;

    lemma_pow256_values();
    lemma_payload_round_trip(entry);
    let payload = payload_of(entry);
    let bytes = record_of(entry) + rest;
    assert(bytes.subrange(0, 4) =~= le_bytes(payload.len(), 4));
    assert(bytes.subrange(4, 8) =~= le_bytes(crc_of(payload) as nat, 4));
    lemma_le_round_trip(payload.len(), 4);
    lemma_le_round_trip(crc_of(payload) as nat, 4);
    assert(bytes.subrange(8, 8 + payload.len() as int) =~= payload);
    assert(bytes.skip(record_of(entry).len() as int) =~= rest);
}

/// What replay makes of a log followed by more bytes, if the log itself is
/// whole.
pub proof fn lemma_replay_concat(log: Seq<u8>, more: Seq<u8>)
    requires
        verified_len(log) == log.len(),
    ensures
        replay_of(log + more) == replay_of(log) + replay_of(more),
        verified_len(log + more) == log.len() + verified_len(more),
    decreases log.len(),
{
    match parse_record(log) {
        Some((entry, len)) => {
            let all = log + more;
            assert(all.subrange(0, 4) =~= log.subrange(0, 4));
            assert(all.subrange(4, 8) =~= log.subrange(4, 8));
            assert(all.subrange(8, len as int) =~= log.subrange(8, len as int));
            assert(parse_record(all) == Some((entry, len)));
            assert(all.skip(len as int) =~= log.skip(len as int) + more);
            lemma_replay_concat(log.skip(len as int), more);
            assert(replay_of(all) =~= replay_of(log) + replay_of(more));
        },
        None => {
            assert(log + more =~= more);
            assert(replay_of(log) + replay_of(more) =~= replay_of(more));
        },
    }
}

/// Replay of a log gives back exactly the mutations that were appended, in
/// order, and discards nothing.
pub proof fn law_replay_returns_what_was_appended(entries: Seq<EntryView>)
    requires
        forall|i: int| 0 <= i < entries.len() ==> loggable(#[trigger] entries[i]),
    ensures
        replay_of(log_of(entries)) == entries,
        verified_len(log_of(entries)) == log_of(entries).len(),
    decreases entries.len(),
{
    if entries.len() == 0 {
        assert(replay_of(log_of(entries)) =~= entries);
    } else {
        let head = entries.drop_last();
        let last = entries.last();
        assert forall|i: int| 0 <= i < head.len() implies loggable(#[trigger] head[i]) by {
            assert(head[i] == entries[i]);
        }
        assert(loggable(entries[entries.len() - 1]));
        law_replay_returns_what_was_appended(head);
        lemma_replay_push(log_of(head), last);
        assert(head.push(last) =~= entries);
    }
}

/// One more record behind a log that is whole.
proof fn lemma_replay_push(log: Seq<u8>, entry: EntryView)
    requires
        verified_len(log) == log.len(),
        loggable(entry),
    ensures
        replay_of(log + record_of(entry)) == replay_of(log).push(entry),
        verified_len(log + record_of(entry)) == (log + record_of(entry)).len(),
{
    lemma_replay_concat(log, record_of(entry));
    lemma_single_record(entry);
    assert(replay_of(log) + seq![entry] =~= replay_of(log).push(entry));
}

/// One record alone.
pub proof fn lemma_single_record(entry: EntryView)
    requires
        loggable(entry),
    ensures
        replay_of(record_of(entry)) == seq![entry],
        verified_len(record_of(entry)) == record_of(entry).len(),
{
    let record = record_of(entry);
    assert(record + Seq::<u8>::empty() =~= record);
    lemma_record_round_trip(entry, Seq::empty());
    assert(parse_record(record.skip(record.len() as int)) is None);
    assert(replay_of(record.skip(record.len() as int)) =~= Seq::<EntryView>::empty());
    assert(replay_of(record) =~= seq![entry]);
    assert(verified_len(record.skip(record.len() as int)) == 0);
}

/// A record cut short cannot be verified.
pub proof fn lemma_cut_record(entry: EntryView, rest: Seq<u8>, cut: int)
    requires
        loggable(entry),
        0 <= cut < record_of(entry).len(),
    ensures
        parse_record((record_of(entry) + rest).take(cut)) is None,
{
    broadcast use lemma_le_len;

    let whole = record_of(entry) + rest;
    let log = whole.take(cut);
    lemma_record_round_trip(entry, rest);
    if cut >= 8 {
        assert(log.subrange(0, 4) =~= whole.subrange(0, 4));
    }
}

/// Verification covers no more than there is.
pub proof fn lemma_verified_len_bound(log: Seq<u8>)
    ensures
        verified_len(log) <= log.len(),
    decreases log.len(),
{
    match parse_record(log) {
        Some((entry, len)) => {
            lemma_verified_len_bound(log.skip(len as int));
        },
        None => {},
    }
}

/// The verified part of a log stands on its own, and holds everything that the
/// whole log held.
pub proof fn lemma_verified_prefix(log: Seq<u8>)
    ensures
        verified_len(log) <= log.len(),
        replay_of(log.take(verified_len(log) as int)) == replay_of(log),
        verified_len(log.take(verified_len(log) as int)) == verified_len(log),
    decreases log.len(),
{
    lemma_verified_len_bound(log);
    let kept = log.take(verified_len(log) as int);
    match parse_record(log) {
        Some((entry, len)) => {
            let rest = log.skip(len as int);
            lemma_verified_prefix(rest);
            assert(kept.subrange(0, 4) =~= log.subrange(0, 4));
            assert(kept.subrange(4, 8) =~= log.subrange(4, 8));
            assert(kept.subrange(8, len as int) =~= log.subrange(8, len as int));
            assert(parse_record(kept) == Some((entry, len)));
            assert(kept.skip(len as int) =~= rest.take(verified_len(rest) as int));
        },
        None => {
            assert(kept =~= Seq::<u8>::empty());
        },
    }
}

/// What is appended to a recovered log is recovered along with what the log
/// held, torn tail or not.
pub proof fn law_appends_after_recovery_are_recovered(log: Seq<u8>, more: Seq<EntryView>)
    requires
        forall|i: int| 0 <= i < more.len() ==> loggable(#[trigger] more[i]),
    ensures
        replay_of(log.take(verified_len(log) as int) + log_of(more)) == replay_of(log) + more,
{
    lemma_verified_prefix(log);
    lemma_replay_concat(log.take(verified_len(log) as int), log_of(more));
    law_replay_returns_what_was_appended(more);
}

/// A record damaged in one byte behind its length is not replayed, and costs
/// nothing of what was appended before it.
pub proof fn law_a_damaged_record_is_not_replayed(
    entries: Seq<EntryView>,
    entry: EntryView,
    rest: Seq<u8>,
    i: int,
    byte: u8,
)
    requires
        forall|j: int| 0 <= j < entries.len() ==> loggable(#[trigger] entries[j]),
        loggable(entry),
        4 <= i < record_of(entry).len(),
        byte != record_of(entry)[i],
    ensures
        replay_of(log_of(entries) + record_of(entry).update(i, byte) + rest) == entries,
        verified_len(log_of(entries) + record_of(entry).update(i, byte) + rest) == log_of(
            entries,
        ).len(),
{
    let damaged = record_of(entry).update(i, byte) + rest;
    lemma_damaged_record(entry, rest, i, byte);
    lemma_nothing_to_replay(damaged);
    law_replay_returns_what_was_appended(entries);
    lemma_replay_concat(log_of(entries), damaged);
    assert(log_of(entries) + record_of(entry).update(i, byte) + rest =~= log_of(entries) + damaged);
    assert(entries + Seq::<EntryView>::empty() =~= entries);
}

/// A log that begins with nothing that can be verified.
pub proof fn lemma_nothing_to_replay(log: Seq<u8>)
    requires
        parse_record(log) is None,
    ensures
        replay_of(log) == Seq::<EntryView>::empty(),
        verified_len(log) == 0,
{
}

/// A record damaged in one byte behind its length cannot be verified.
#[verifier::spinoff_prover]
proof fn lemma_damaged_record(entry: EntryView, rest: Seq<u8>, i: int, byte: u8)
    requires
        loggable(entry),
        4 <= i < record_of(entry).len(),
        byte != record_of(entry)[i],
    ensures
        parse_record(record_of(entry).update(i, byte) + rest) is None,
{
    lemma_damaged_parts(entry, rest, i, byte);
    let payload = payload_of(entry);
    let damaged = record_of(entry).update(i, byte) + rest;
    let covered = damaged.subrange(8, 8 + payload.len() as int);
    if i < 8 {
        assert(covered =~= payload);
    } else {
        assert(covered =~= payload.update(i - 8, byte));
        law_single_byte_change_is_detected(payload, i - 8, byte);
    }
}

/// What the fields of a damaged record spell.
proof fn lemma_damaged_parts(entry: EntryView, rest: Seq<u8>, i: int, byte: u8)
    requires
        loggable(entry),
        4 <= i < record_of(entry).len(),
        byte != record_of(entry)[i],
    ensures
        ({
            let damaged = record_of(entry).update(i, byte) + rest;
            let checksum = le_value(damaged.subrange(4, 8));
            &&& record_of(entry).len() == 8 + payload_of(entry).len()
            &&& payload_of(entry).len() >= 5
            &&& le_value(damaged.subrange(0, 4)) == payload_of(entry).len()
            &&& i < 8 ==> checksum != crc_of(payload_of(entry))
            &&& i >= 8 ==> checksum == crc_of(payload_of(entry))
            &&& i >= 8 ==> byte != payload_of(entry)[i - 8]
        }),
{
    broadcast use lemma_le_len;

    lemma_pow256_values();
    lemma_payload_round_trip(entry);
    let payload = payload_of(entry);
    let record = record_of(entry);
    let damaged = record.update(i, byte) + rest;
    assert(damaged.subrange(0, 4) =~= le_bytes(payload.len(), 4));
    assert(record.subrange(4, 8) =~= le_bytes(crc_of(payload) as nat, 4));
    lemma_le_round_trip(payload.len(), 4);
    lemma_le_round_trip(crc_of(payload) as nat, 4);
    if i < 8 {
        assert(damaged.subrange(4, 8)[i - 4] == byte);
        assert(record.subrange(4, 8)[i - 4] != byte);
        lemma_le_differs(damaged.subrange(4, 8), record.subrange(4, 8));
    } else {
        assert(damaged.subrange(4, 8) =~= record.subrange(4, 8));
        assert(record[i] == payload[i - 8]);
    }
}

/// The log of a concatenation is the concatenation of the logs.
pub proof fn lemma_log_of_concat(a: Seq<EntryView>, b: Seq<EntryView>)
    ensures
        log_of(a + b) == log_of(a) + log_of(b),
    decreases b.len(),
{
    if b.len() == 0 {
        assert(a + b =~= a);
        assert(log_of(a) + log_of(b) =~= log_of(a));
    } else {
        assert((a + b).drop_last() =~= a + b.drop_last());
        lemma_log_of_concat(a, b.drop_last());
        assert(log_of(a + b) =~= log_of(a) + log_of(b));
    }
}

/// A log cut anywhere replays as a prefix of what was appended: exactly the
/// records that the cut left whole.
#[verifier::rlimit(40)]
pub proof fn law_a_torn_log_loses_only_its_tail(entries: Seq<EntryView>, cut: int, whole: int)
    requires
        forall|i: int| 0 <= i < entries.len() ==> loggable(#[trigger] entries[i]),
        0 <= whole <= entries.len(),
        log_of(entries.take(whole)).len() <= cut <= log_of(entries).len(),
        whole < entries.len() ==> cut < log_of(entries.take(whole + 1)).len(),
    ensures
        replay_of(log_of(entries).take(cut)) == entries.take(whole),
        verified_len(log_of(entries).take(cut)) == log_of(entries.take(whole)).len(),
{
    let head = entries.take(whole);
    let tail = entries.skip(whole);
    assert(entries =~= head + tail);
    lemma_log_of_concat(head, tail);
    assert forall|i: int| 0 <= i < head.len() implies loggable(#[trigger] head[i]) by {
        assert(head[i] == entries[i]);
    }
    law_replay_returns_what_was_appended(head);
    let kept = cut - log_of(head).len();
    let torn = log_of(tail).take(kept);
    assert(log_of(entries).take(cut) =~= log_of(head) + torn);
    lemma_replay_concat(log_of(head), torn);
    assert(parse_record(torn) is None) by {
        if whole < entries.len() {
            let next = entries[whole];
            let rest = entries.skip(whole + 1);
            assert(tail =~= seq![next] + rest);
            lemma_log_of_concat(seq![next], rest);
            lemma_log_of_single(next);
            assert(entries.take(whole + 1) =~= head + seq![next]);
            lemma_log_of_concat(head, seq![next]);
            lemma_cut_record(next, log_of(rest), kept);
        } else {
            assert(head =~= entries);
        }
    }
    assert(replay_of(torn) =~= Seq::<EntryView>::empty());
    assert(verified_len(torn) == 0);
    assert(head + Seq::<EntryView>::empty() =~= head);
}

proof fn lemma_log_of_single(entry: EntryView)
    ensures
        log_of(seq![entry]) == record_of(entry),
{
    assert(seq![entry].drop_last() =~= Seq::<EntryView>::empty());
    assert(log_of(seq![entry].drop_last()) =~= Seq::<u8>::empty());
    assert(log_of(seq![entry]) =~= record_of(entry));
}

/// The outcome of replaying a log.
#[derive(Debug)]
pub struct Replay {
    /// The records in the order they were appended.
    pub records: Vec<(Key, Value)>,
    /// Bytes at the end that could not be verified.
    pub discarded_tail_bytes: u64,
}

impl Default for Replay {
    fn default() -> (replay: Self)
        ensures
            replay.records@.len() == 0,
            replay.discarded_tail_bytes == 0,
    {
        Replay { records: Vec::new(), discarded_tail_bytes: 0 }
    }
}

/// What reading one record came to.
#[derive(Debug)]
pub enum RecordRead {
    /// A verified record, with its length including the header.
    Record { key: Key, value: Value, bytes: usize },
    /// The log ended exactly on a record boundary.
    CleanEnd,
    /// A record that is cut short or fails its checksum.
    Unverifiable,
}

/// Reads the record at `at`.
pub fn read_record(log: &[u8], at: usize) -> (read: RecordRead)
    requires
        at <= log@.len(),
    ensures
        match read {
            RecordRead::Record { key, value, bytes } => parse_record(log@.skip(at as int)) == Some(
                ((key@, value@), bytes as nat),
            ),
            RecordRead::CleanEnd => at == log@.len(),
            RecordRead::Unverifiable => at < log@.len() && parse_record(log@.skip(at as int)) is None,
        },
{
    broadcast use lemma_le_len;

    let ghost bytes = log@.skip(at as int);
    let available: usize = log.len() - at;
    if available == 0 {
        return RecordRead::CleanEnd;
    }
    if available < HEADER_BYTES {
        return RecordRead::Unverifiable;
    }
    let payload_len: u32 = read_u32(log, at);
    let expected_crc: u32 = read_u32(log, at + 4);
    proof {
        assert(bytes.subrange(0, 4) =~= log@.subrange(at as int, at + 4));
        assert(bytes.subrange(4, 8) =~= log@.subrange(at + 4, at + 8));
    }
    if payload_len > MAX_PAYLOAD_BYTES || (payload_len as usize) < PAYLOAD_PREFIX_BYTES {
        return RecordRead::Unverifiable;
    }
    if available - HEADER_BYTES < payload_len as usize {
        return RecordRead::Unverifiable;
    }
    let start: usize = at + HEADER_BYTES;
    let payload: &[u8] = vstd::slice::slice_subrange(log, start, start + payload_len as usize);
    proof {
        assert(bytes.subrange(8, 8 + payload_len as int) =~= payload@);
    }
    if crc32(payload) != expected_crc {
        return RecordRead::Unverifiable;
    }
    let tag: u8 = payload[0];
    let key_len: u32 = read_u32(payload, 1);
    if key_len as usize > payload.len() - PAYLOAD_PREFIX_BYTES {
        return RecordRead::Unverifiable;
    }
    let key_end: usize = PAYLOAD_PREFIX_BYTES + key_len as usize;
    let key: Key = copy_bytes(
        vstd::slice::slice_subrange(payload, PAYLOAD_PREFIX_BYTES, key_end),
    );
    let bytes_read: usize = HEADER_BYTES + payload_len as usize;
    if tag == TAG_PUT {
        let value: Vec<u8> = copy_bytes(
            vstd::slice::slice_subrange(payload, key_end, payload.len()),
        );
        proof {
            assert(value@ =~= payload@.skip(key_end as int));
        }
        RecordRead::Record { key, value: Value::Put(value), bytes: bytes_read }
    } else if tag == TAG_TOMBSTONE && key_end == payload.len() {
        RecordRead::Record { key, value: Value::Tombstone, bytes: bytes_read }
    } else {
        RecordRead::Unverifiable
    }
}

/// An appendable write-ahead log.
#[derive(Debug)]
pub struct Wal {
    log: Vec<u8>,
    sync_policy: SyncPolicy,
    durable: usize,
}

impl View for Wal {
    type V = Seq<u8>;

    /// The bytes of the log.
    closed spec fn view(&self) -> Seq<u8> {
        self.log@
    }
}

impl Wal {
    /// When the log is forced down to the device.
    pub closed spec fn policy(&self) -> SyncPolicy {
        self.sync_policy
    }

    /// How much of the log has to be on the device by now.
    pub closed spec fn durable(&self) -> nat {
        self.durable as nat
    }

    /// Takes up a log: replays it, and cuts a torn tail off so that what is
    /// appended next can be recovered.
    pub fn recover(log: Vec<u8>, sync_policy: SyncPolicy) -> (recovered: (Self, Replay))
        ensures
            recovered.0@ == log@.take(verified_len(log@) as int),
            recovered.0.policy() == sync_policy,
            recovered.0.durable() == recovered.0@.len(),
            entries_of(recovered.1.records@) == replay_of(log@),
            recovered.1.discarded_tail_bytes == log@.len() - verified_len(log@),
    {
        let replay: Replay = Self::replay(log.as_slice());
        let mut kept: Vec<u8> = log;
        let keep: usize = kept.len() - replay.discarded_tail_bytes as usize;
        proof {
            lemma_verified_len_bound(log@);
        }
        kept.truncate(keep);
        let durable: usize = kept.len();
        (Wal { log: kept, sync_policy, durable }, replay)
    }

    /// Takes up a log for appending only, torn tail cut off as in
    /// [`Wal::recover`].
    pub fn open(log: Vec<u8>, sync_policy: SyncPolicy) -> (wal: Self)
        ensures
            wal@ == log@.take(verified_len(log@) as int),
            wal.policy() == sync_policy,
            wal.durable() == wal@.len(),
    {
        Self::recover(log, sync_policy).0
    }

    /// Appends one mutation.
    ///
    /// Under [`SyncPolicy::EveryWrite`] the whole log has to be on the device
    /// once this has returned.
    pub fn append(&mut self, key: &[u8], value: &Value) -> (outcome: Result<(), StorageError>)
        ensures
            final(self).policy() == old(self).policy(),
            outcome is Ok <==> loggable((key@, value@)),
            outcome is Ok ==> final(self)@ == old(self)@ + record_of((key@, value@)),
            outcome is Ok ==> final(self).durable() == match old(self).policy() {
                SyncPolicy::EveryWrite => final(self)@.len(),
                SyncPolicy::Manual => old(self).durable(),
            },
            outcome is Err ==> *final(self) == *old(self),
            outcome is Err ==> outcome->Err_0 == log_error((key@, value@)),
    {
        broadcast use lemma_le_len;

        if key.len() as u64 > u32::MAX as u64 {
            return Err(StorageError::LogKeyTooLarge);
        }
        let length: u128 = PAYLOAD_PREFIX_BYTES as u128 + key.len() as u128
            + value.byte_len() as u128;
        if length > u32::MAX as u128 {
            return Err(StorageError::LogRecordTooLarge);
        }
        let payload_len: u32 = length as u32;
        if payload_len > MAX_PAYLOAD_BYTES {
            return Err(StorageError::LogRecordOverLimit { bytes: payload_len });
        }
        let mut key_prefix: Vec<u8> = Vec::new();
        match value {
            Value::Put(_) => key_prefix.push(TAG_PUT),
            Value::Tombstone => key_prefix.push(TAG_TOMBSTONE),
        }
        push_u32(&mut key_prefix, key.len() as u32);
        let mut checksum: Crc32 = Crc32::new();
        checksum.update(key_prefix.as_slice());
        checksum.update(key);
        match value {
            Value::Put(bytes) => checksum.update(bytes.as_slice()),
            Value::Tombstone => {},
        }
        let ghost entry = (key@, value@);
        proof {
            lemma_fold_concat(INITIAL, key_prefix@, key@);
            lemma_fold_concat(INITIAL, key_prefix@ + key@, value_bytes(value@));
            assert(key_prefix@ =~= seq![tag_of(value@)] + le_bytes(key@.len(), 4));
            assert(key_prefix@ + key@ + value_bytes(value@) =~= payload_of(entry));
            assert(payload_of(entry).len() == payload_len);
        }
        let ghost before = self.log@;
        push_u32(&mut self.log, payload_len);
        push_u32(&mut self.log, checksum.finish());
        self.log.extend_from_slice(key_prefix.as_slice());
        self.log.extend_from_slice(key);
        match value {
            Value::Put(bytes) => self.log.extend_from_slice(bytes.as_slice()),
            Value::Tombstone => {},
        }
        proof {
            assert(self.log@ =~= before + record_of(entry));
        }
        match self.sync_policy {
            SyncPolicy::EveryWrite => self.sync(),
            SyncPolicy::Manual => {},
        }
        Ok(())
    }

    /// Asks that everything appended so far be on the device.
    pub fn sync(&mut self)
        ensures
            final(self)@ == old(self)@,
            final(self).policy() == old(self).policy(),
            final(self).durable() == final(self)@.len(),
    {
        self.durable = self.log.len();
    }

    /// The length of the log, headers included.
    pub fn bytes_written(&self) -> (bytes: u64)
        ensures
            bytes == self@.len(),
    {
        self.log.len() as u64
    }

    /// How much of the log has to be on the device by now.
    pub fn durable_bytes(&self) -> (bytes: u64)
        ensures
            bytes == self.durable(),
    {
        self.durable as u64
    }

    /// The bytes of the log.
    pub fn bytes(&self) -> (bytes: &[u8])
        ensures
            bytes@ == self@,
    {
        self.log.as_slice()
    }

    /// Reads every intact record of a log, in append order, up to the first
    /// that cannot be verified.
    pub fn replay(log: &[u8]) -> (replay: Replay)
        ensures
            entries_of(replay.records@) == replay_of(log@),
            replay.discarded_tail_bytes == log@.len() - verified_len(log@),
    {
        let mut records: Vec<(Key, Value)> = Vec::new();
        let mut at: usize = 0;
        let total: usize = log.len();
        proof {
            assert(log@.skip(0) =~= log@);
            assert(entries_of(records@) + replay_of(log@) =~= replay_of(log@));
        }
        loop
            invariant_except_break
                at <= total,
                total == log@.len(),
                replay_of(log@) == entries_of(records@) + replay_of(log@.skip(at as int)),
                verified_len(log@) == at + verified_len(log@.skip(at as int)),
            ensures
                at <= total,
                entries_of(records@) == replay_of(log@),
                at == verified_len(log@),
            decreases total - at,
        {
            match read_record(log, at) {
                RecordRead::Record { key, value, bytes } => {
                    let ghost before = records@;
                    let ghost entry = (key@, value@);
                    let ghost rest = log@.skip(at as int);
                    records.push((key, value));
                    proof {
                        assert(rest.skip(bytes as int) =~= log@.skip(at + bytes));
                        assert(entries_of(records@) =~= entries_of(before).push(entry));
                        assert(entries_of(before) + (seq![entry] + replay_of(
                            rest.skip(bytes as int),
                        )) =~= entries_of(records@) + replay_of(rest.skip(bytes as int)));
                    }
                    at = at + bytes;
                },
                RecordRead::CleanEnd | RecordRead::Unverifiable => {
                    proof {
                        assert(parse_record(log@.skip(at as int)) is None);
                        assert(entries_of(records@) + Seq::<EntryView>::empty() =~= entries_of(
                            records@,
                        ));
                    }
                    break;
                },
            }
        }
        Replay { records, discarded_tail_bytes: (total - at) as u64 }
    }
}

} // verus!
