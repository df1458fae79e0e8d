//! The in-memory write buffer.
//!
//! The memtable is the only mutable structure of the engine. Every write goes
//! here once it is in the log; everything below it is immutable. It keeps its
//! entries sorted, so that a flush is one pass; it overwrites in place; it
//! records a delete as a tombstone, which shadows what older runs still hold;
//! and it keeps account of its size, so that the engine knows when to flush.

use vstd::prelude::*;

use super::entries::{
    as_map, ascending, entries_of, find, has_key, lemma_find_at, lemma_not_found, lower_bound,
    EntryView,
};
use super::order::{
    copy_bytes, lemma_lex_asymmetric, lemma_lex_irreflexive, lemma_lex_mixed, lemma_lex_total,
    lemma_lex_transitive, lex_le, lex_lt, same_bytes,
};
use super::{Key, UserValue};

verus! {

/// Flat cost charged for each entry, on top of its key and value bytes.
///
/// A budget for deciding when to flush, not a measurement of the heap.
pub const ENTRY_OVERHEAD_BYTES: usize = 24;

/// What is known of a key.
///
/// "No entry for this key" and "an entry saying this key is deleted" are
/// different things: a tombstone stops a read from descending into older runs,
/// where a stale value may still live.
#[derive(Debug, Clone, PartialEq, Eq)]
pub enum Value {
    /// The key is live and holds these bytes.
    Put(UserValue),
    /// The key was deleted. Shadows anything older.
    Tombstone,
}

impl View for Value {
    type V = Option<Seq<u8>>;

    open spec fn view(&self) -> Option<Seq<u8>> {
        match self {
            Value::Put(bytes) => Some(bytes@),
            Value::Tombstone => None,
        }
    }
}

/// Bytes of payload in a value; a tombstone carries none.
pub open spec fn payload_len(value: Option<Seq<u8>>) -> nat {
    match value {
        Some(bytes) => bytes.len(),
        None => 0,
    }
}

impl Value {
    /// Bytes of user payload; a tombstone carries none.
    pub fn byte_len(&self) -> (len: usize)
        ensures
            len == payload_len(self@),
    {
        match self {
            Value::Put(bytes) => bytes.len(),
            Value::Tombstone => 0,
        }
    }

    /// Whether this records a delete.
    pub fn is_tombstone(&self) -> (tombstone: bool)
        ensures
            tombstone == (self@ is None),
    {
        matches!(self, Value::Tombstone)
    }

    /// The payload if live, `None` if this is a tombstone.
    pub fn as_bytes(&self) -> (bytes: Option<&[u8]>)
        ensures
            bytes is Some <==> self@ is Some,
            bytes is Some ==> bytes->0@ == self@->0,
    {
        match self {
            Value::Put(bytes) => Some(bytes.as_slice()),
            Value::Tombstone => None,
        }
    }

    /// A fresh copy.
    pub fn copy(&self) -> (copy: Value)
        ensures
            copy@ == self@,
    {
        match self {
            Value::Put(bytes) => Value::Put(copy_bytes(bytes.as_slice())),
            Value::Tombstone => Value::Tombstone,
        }
    }
}

/// One end of a range of keys.
#[derive(Debug, Clone, Copy)]
pub enum KeyBound<'a> {
    /// The range reaches this key and holds it.
    Included(&'a [u8]),
    /// The range reaches this key and leaves it out.
    Excluded(&'a [u8]),
    /// The range does not end here.
    Unbounded,
}

/// `key` is not below the lower end of a range.
pub open spec fn above_lower(key: Seq<u8>, lower: KeyBound) -> bool {
    match lower {
        KeyBound::Included(bound) => lex_le(bound@, key),
        KeyBound::Excluded(bound) => lex_lt(bound@, key),
        KeyBound::Unbounded => true,
    }
}

/// `key` is not above the upper end of a range.
pub open spec fn below_upper(key: Seq<u8>, upper: KeyBound) -> bool {
    match upper {
        KeyBound::Included(bound) => lex_le(key, bound@),
        KeyBound::Excluded(bound) => lex_lt(key, bound@),
        KeyBound::Unbounded => true,
    }
}

/// The ends of a range are in order, and do not exclude the same key twice.
pub open spec fn is_range(lower: KeyBound, upper: KeyBound) -> bool {
    match (lower, upper) {
        (KeyBound::Unbounded, _) => true,
        (_, KeyBound::Unbounded) => true,
        (KeyBound::Excluded(a), KeyBound::Excluded(b)) => lex_lt(a@, b@),
        (KeyBound::Included(a), KeyBound::Included(b)) => lex_le(a@, b@),
        (KeyBound::Included(a), KeyBound::Excluded(b)) => lex_le(a@, b@),
        (KeyBound::Excluded(a), KeyBound::Included(b)) => lex_le(a@, b@),
    }
}

/// The ends of a range: one that is reached takes its key in, one that is excluded leaves it
/// out, and one that is not bounded leaves nothing out.
pub proof fn law_ranges_end_where_they_say(key: Seq<u8>, bound: &[u8])
    ensures
        above_lower(key, KeyBound::Included(bound)) <==> !lex_lt(key, bound@),
        above_lower(key, KeyBound::Excluded(bound)) <==> lex_lt(bound@, key),
        above_lower(key, KeyBound::Unbounded),
        below_upper(key, KeyBound::Included(bound)) <==> !lex_lt(bound@, key),
        below_upper(key, KeyBound::Excluded(bound)) <==> lex_lt(key, bound@),
        below_upper(key, KeyBound::Unbounded),
{
    super::order::lemma_lex_total(key, bound@);
    super::order::lemma_lex_irreflexive(key);
    if lex_lt(key, bound@) {
        super::order::lemma_lex_asymmetric(key, bound@);
    }
    if lex_lt(bound@, key) {
        super::order::lemma_lex_asymmetric(bound@, key);
    }
}

/// A memtable is charged for each entry its key, its value and 24 bytes.
pub proof fn law_charges_are_a_sum(entries: Seq<EntryView>)
    ensures
        total_charge(entries) == entries.fold_left(
            0int,
            |sum: int, entry: EntryView|
                sum + 24 + entry.0.len() + match entry.1 {
                    Some(value) => value.len() as int,
                    None => 0,
                },
        ),
    decreases entries.len(),
{
    reveal_with_fuel(Seq::fold_left, 2);
    if entries.len() > 0 {
        law_charges_are_a_sum(entries.drop_last());
    }
}

/// What one entry is charged.
pub open spec fn charge(entry: EntryView) -> nat {
    ENTRY_OVERHEAD_BYTES as nat + entry.0.len() + payload_len(entry.1)
}

/// What a list of entries is charged together.
pub open spec fn total_charge(entries: Seq<EntryView>) -> nat
    decreases entries.len(),
{
    if entries.len() == 0 {
        0
    } else {
        total_charge(entries.drop_last()) + charge(entries.last())
    }
}

/// What two lists are charged together.
pub proof fn lemma_charge_concat(a: Seq<EntryView>, b: Seq<EntryView>)
    ensures
        total_charge(a + b) == total_charge(a) + total_charge(b),
    decreases b.len(),
{
    if b.len() == 0 {
        assert(a + b =~= a);
    } else {
        assert((a + b).drop_last() =~= a + b.drop_last());
        lemma_charge_concat(a, b.drop_last());
    }
}

proof fn lemma_charge_insert(entries: Seq<EntryView>, at: int, entry: EntryView)
    requires
        0 <= at <= entries.len(),
    ensures
        total_charge(entries.insert(at, entry)) == total_charge(entries) + charge(entry),
{
    let head = entries.take(at);
    let tail = entries.skip(at);
    assert(entries =~= head + tail);
    assert(entries.insert(at, entry) =~= head.push(entry) + tail);
    lemma_charge_concat(head, tail);
    lemma_charge_concat(head.push(entry), tail);
    assert(head.push(entry).drop_last() =~= head);
}

proof fn lemma_charge_update(entries: Seq<EntryView>, at: int, entry: EntryView)
    requires
        0 <= at < entries.len(),
    ensures
        total_charge(entries.update(at, entry)) == total_charge(entries) - charge(entries[at])
            + charge(entry),
{
    let head = entries.take(at);
    let tail = entries.skip(at + 1);
    assert(entries =~= head.push(entries[at]) + tail);
    assert(entries.update(at, entry) =~= head.push(entry) + tail);
    lemma_charge_concat(head.push(entries[at]), tail);
    lemma_charge_concat(head.push(entry), tail);
    assert(head.push(entry).drop_last() =~= head);
    assert(head.push(entries[at]).drop_last() =~= head);
}

/// The entries kept by a range are those between its two ends.
proof fn lemma_filter_is_subrange(
    entries: Seq<EntryView>,
    keep: spec_fn(EntryView) -> bool,
    low: int,
    high: int,
)
    requires
        0 <= low <= high <= entries.len(),
        forall|i: int| 0 <= i < entries.len() ==> (keep(#[trigger] entries[i]) <==> low <= i < high),
    ensures
        entries.filter(keep) == entries.subrange(low, high),
    decreases entries.len(),
{
    reveal(Seq::filter);
    if entries.len() == 0 {
        assert(entries.filter(keep) =~= entries.subrange(low, high));
    } else {
        let rest = entries.drop_last();
        let n = rest.len() as int;
        assert forall|i: int| 0 <= i < n implies (keep(#[trigger] rest[i]) <==> low <= i < high) by {
            assert(rest[i] == entries[i]);
        }
        if high == entries.len() && low < high {
            assert forall|i: int| 0 <= i < n implies (keep(#[trigger] rest[i]) <==> low <= i < n) by {
                assert(rest[i] == entries[i]);
            }
            lemma_filter_is_subrange(rest, keep, low, n);
            assert(keep(entries[n]));
            assert(entries.subrange(low, high) =~= rest.subrange(low, n).push(entries.last()));
        } else if high == entries.len() {
            assert forall|i: int| 0 <= i < n implies (keep(#[trigger] rest[i]) <==> n <= i < n) by {
                assert(rest[i] == entries[i]);
            }
            lemma_filter_is_subrange(rest, keep, n, n);
            assert(!keep(entries[n]));
            assert(entries.subrange(low, high) =~= rest.subrange(n, n));
        } else {
            lemma_filter_is_subrange(rest, keep, low, high);
            assert(!keep(entries[n]));
            assert(entries.subrange(low, high) =~= rest.subrange(low, high));
        }
    }
}

/// An ordered write buffer with tombstones and a running account of its size.
#[derive(Debug)]
pub struct MemTable {
    entries: Vec<(Key, Value)>,
    approx_size_bytes: usize,
}

impl View for MemTable {
    type V = Map<Seq<u8>, Option<Seq<u8>>>;

    /// What the table says of each key that it has an entry for.
    closed spec fn view(&self) -> Map<Seq<u8>, Option<Seq<u8>>> {
        as_map(entries_of(self.entries@))
    }
}

impl MemTable {
    /// The entries in ascending key order.
    pub closed spec fn sorted(&self) -> Seq<EntryView> {
        entries_of(self.entries@)
    }

    /// The size on account.
    pub closed spec fn size(&self) -> nat {
        self.approx_size_bytes as nat
    }

    /// Keys ascend, and the account is the sum of the charges.
    pub closed spec fn wf(&self) -> bool {
        &&& ascending(entries_of(self.entries@))
        &&& self.approx_size_bytes == total_charge(entries_of(self.entries@))
    }

    /// What a well-formed table is, said of its parts.
    pub proof fn lemma_wf(&self)
        requires
            self.wf(),
        ensures
            ascending(self.sorted()),
            self.size() == total_charge(self.sorted()),
            self@ == as_map(self.sorted()),
    {
    }

    /// An empty table.
    pub fn new() -> (table: Self)
        ensures
            table.wf(),
            table@ == Map::<Seq<u8>, Option<Seq<u8>>>::empty(),
            table.sorted() == Seq::<EntryView>::empty(),
            table.size() == 0,
    {
        let table = MemTable { entries: Vec::new(), approx_size_bytes: 0 };
        proof {
            assert(table@ =~= Map::<Seq<u8>, Option<Seq<u8>>>::empty());
            assert(table.sorted() =~= Seq::<EntryView>::empty());
        }
        table
    }

    /// Inserts or overwrites `key`, and gives back the entry this replaced,
    /// a tombstone included.
    pub fn put(&mut self, key: Key, value: UserValue) -> (replaced: Option<Value>)
        requires
            old(self).wf(),
            old(self).size() + ENTRY_OVERHEAD_BYTES + key@.len() + value@.len() <= usize::MAX,
        ensures
            final(self).wf(),
            final(self)@ == old(self)@.insert(key@, Some(value@)),
            replaced is Some <==> old(self)@.contains_key(key@),
            replaced is Some ==> replaced->0@ == old(self)@[key@],
            final(self).size() == old(self).size() + charge((key@, Some(value@)))
                - if old(self)@.contains_key(key@) {
                charge((key@, old(self)@[key@]))
            } else {
                0
            },
    {
        self.insert(key, Value::Put(value))
    }

    /// Records that `key` is deleted, and gives back the entry this replaced.
    ///
    /// A tombstone is written even if the key is not here: absence here says
    /// nothing about the runs below.
    pub fn delete(&mut self, key: Key) -> (replaced: Option<Value>)
        requires
            old(self).wf(),
            old(self).size() + ENTRY_OVERHEAD_BYTES + key@.len() <= usize::MAX,
        ensures
            final(self).wf(),
            final(self)@ == old(self)@.insert(key@, None),
            replaced is Some <==> old(self)@.contains_key(key@),
            replaced is Some ==> replaced->0@ == old(self)@[key@],
            final(self).size() == old(self).size() + charge((key@, None))
                - if old(self)@.contains_key(key@) {
                charge((key@, old(self)@[key@]))
            } else {
                0
            },
    {
        self.insert(key, Value::Tombstone)
    }

    /// Inserts or overwrites `key` with a value or a tombstone.
    pub fn insert(&mut self, key: Key, value: Value) -> (replaced: Option<Value>)
        requires
            old(self).wf(),
            old(self).size() + charge((key@, value@)) <= usize::MAX,
        ensures
            final(self).wf(),
            final(self)@ == old(self)@.insert(key@, value@),
            replaced is Some <==> old(self)@.contains_key(key@),
            replaced is Some ==> replaced->0@ == old(self)@[key@],
            final(self).size() == old(self).size() + charge((key@, value@))
                - if old(self)@.contains_key(key@) {
                charge((key@, old(self)@[key@]))
            } else {
                0
            },
    {
        let key_len: usize = key.len();
        let added: usize = Self::entry_charge(key_len, value.byte_len());
        let ghost view = entries_of(self.entries@);
        let ghost entry = (key@, value@);
        let at: usize = lower_bound(&self.entries, key.as_slice());
        if at < self.entries.len() && same_bytes(self.entries[at].0.as_slice(), key.as_slice()) {
            proof {
                assert(view[at as int].0 == key@);
                lemma_find_at(view, at as int);
                lemma_charge_update(view, at as int, entry);
                lemma_charge_contains(view, at as int);
            }
            let mut slot: Value = value;
            let ghost before = self.entries@;
            let mut taken: (Key, Value) = self.entries.remove(at);
            std::mem::swap(&mut taken.1, &mut slot);
            self.entries.insert(at, taken);
            let previous: Value = slot;
            proof {
                assert(self.entries@ =~= before.update(at as int, self.entries@[at as int]));
                assert(entries_of(self.entries@) =~= view.update(at as int, entry));
                lemma_overwrite(view, at as int, entry);
                lemma_overwrite_map(view, at as int, entry);
            }
            let removed: usize = Self::entry_charge(key_len, previous.byte_len());
            self.approx_size_bytes = self.approx_size_bytes - removed + added;
            Some(previous)
        } else {
            proof {
                assert forall|i: int| at <= i < view.len() implies lex_lt(
                    key@,
                    (#[trigger] view[i]).0,
                ) by {
                    assert(view[at as int].0 != key@);
                    if i > at {
                        lemma_lex_mixed(key@, view[at as int].0, view[i].0);
                    }
                }
                lemma_not_found(view, key@, at as int);
                lemma_charge_insert(view, at as int, entry);
            }
            let ghost before = self.entries@;
            self.entries.insert(at, (key, value));
            proof {
                assert(entries_of(self.entries@) =~= view.insert(at as int, entry));
                lemma_insert_map(view, at as int, entry);
            }
            self.approx_size_bytes = self.approx_size_bytes + added;
            None
        }
    }

    /// What this table alone says of `key`: its value, that it is deleted, or
    /// nothing, in which case older runs have to be asked.
    pub fn get(&self, key: &[u8]) -> (found: Option<&Value>)
        requires
            self.wf(),
        ensures
            found is Some <==> self@.contains_key(key@),
            found is Some ==> found->0@ == self@[key@],
    {
        let ghost view = entries_of(self.entries@);
        let at: usize = lower_bound(&self.entries, key);
        if at < self.entries.len() && same_bytes(self.entries[at].0.as_slice(), key) {
            proof {
                assert(view[at as int].0 == key@);
                lemma_find_at(view, at as int);
            }
            Some(&self.entries[at].1)
        } else {
            proof {
                assert forall|i: int| at <= i < view.len() implies lex_lt(
                    key@,
                    (#[trigger] view[i]).0,
                ) by {
                    assert(view[at as int].0 != key@);
                    if i > at {
                        lemma_lex_mixed(key@, view[at as int].0, view[i].0);
                    }
                }
                lemma_not_found(view, key@, at as int);
            }
            None
        }
    }

    /// The entries in ascending key order, tombstones included.
    pub fn iter(&self) -> (entries: &[(Key, Value)])
        ensures
            entries_of(entries@) == self.sorted(),
    {
        self.entries.as_slice()
    }

    /// The entries whose keys fall between the two ends, in ascending order.
    pub fn range(&self, lower: KeyBound, upper: KeyBound) -> (entries: &[(Key, Value)])
        requires
            self.wf(),
            is_range(lower, upper),
        ensures
            entries_of(entries@) == self.sorted().filter(
                |entry: EntryView| above_lower(entry.0, lower) && below_upper(entry.0, upper),
            ),
    {
        let ghost view = entries_of(self.entries@);
        let low: usize = match lower {
            KeyBound::Unbounded => 0,
            KeyBound::Included(bound) => lower_bound(&self.entries, bound),
            KeyBound::Excluded(bound) => self.past(bound),
        };
        let high: usize = match upper {
            KeyBound::Unbounded => self.entries.len(),
            KeyBound::Excluded(bound) => lower_bound(&self.entries, bound),
            KeyBound::Included(bound) => self.past(bound),
        };
        proof {
            let keep = |entry: EntryView|
                above_lower(entry.0, lower) && below_upper(entry.0, upper);
            assert forall|i: int| 0 <= i < view.len() implies (above_lower(
                (#[trigger] view[i]).0,
                lower,
            ) <==> low <= i) by {
                lemma_bounds_decide(view[i].0, lower);
            }
            assert forall|i: int| 0 <= i < view.len() implies (below_upper(
                (#[trigger] view[i]).0,
                upper,
            ) <==> i < high) by {
                lemma_bounds_decide(view[i].0, upper);
            }
            if low > high {
                assert(view[high as int] == view[high as int]);
                lemma_range_is_ordered(view[high as int].0, lower, upper);
            }
            lemma_filter_is_subrange(view, keep, low as int, high as int);
        }
        let entries: &[(Key, Value)] = vstd::slice::slice_subrange(
            self.entries.as_slice(),
            low,
            high,
        );
        proof {
            assert(entries_of(entries@) =~= view.subrange(low as int, high as int));
        }
        entries
    }

    /// The index of the first entry whose key is above `key`.
    fn past(&self, key: &[u8]) -> (at: usize)
        requires
            self.wf(),
        ensures
            at <= self.sorted().len(),
            forall|i: int| 0 <= i < at ==> lex_le((#[trigger] self.sorted()[i]).0, key@),
            forall|i: int|
                at <= i < self.sorted().len() ==> lex_lt(key@, (#[trigger] self.sorted()[i]).0),
    {
        let ghost view = entries_of(self.entries@);
        let at: usize = lower_bound(&self.entries, key);
        if at < self.entries.len() && same_bytes(self.entries[at].0.as_slice(), key) {
            proof {
                assert(view[at as int].0 == key@);
            }
            at + 1
        } else {
            proof {
                assert forall|i: int| at <= i < view.len() implies lex_lt(
                    key@,
                    (#[trigger] view[i]).0,
                ) by {
                    assert(view[at as int].0 != key@);
                    if i > at {
                        lemma_lex_mixed(key@, view[at as int].0, view[i].0);
                    }
                }
            }
            at
        }
    }

    /// Gives the entries up, in ascending key order: the flush path.
    pub fn into_entries(self) -> (entries: Vec<(Key, Value)>)
        ensures
            entries_of(entries@) == self.sorted(),
    {
        self.entries
    }

    /// The number of entries, tombstones included.
    pub fn entry_count(&self) -> (count: usize)
        ensures
            count == self.sorted().len(),
    {
        self.entries.len()
    }

    /// Whether there is no entry at all.
    pub fn is_empty(&self) -> (empty: bool)
        ensures
            empty == (self.sorted().len() == 0),
    {
        self.entries.len() == 0
    }

    /// The size on account, which decides when to flush.
    pub fn approx_size_bytes(&self) -> (size: usize)
        ensures
            size == self.size(),
    {
        self.approx_size_bytes
    }

    /// Whether the size on account has reached `threshold_bytes`.
    pub fn should_flush(&self, threshold_bytes: usize) -> (flush: bool)
        ensures
            flush == (self.size() >= threshold_bytes),
    {
        self.approx_size_bytes >= threshold_bytes
    }

    fn entry_charge(key_len: usize, value_len: usize) -> (bytes: usize)
        requires
            ENTRY_OVERHEAD_BYTES + key_len + value_len <= usize::MAX,
        ensures
            bytes == ENTRY_OVERHEAD_BYTES + key_len + value_len,
    {
        ENTRY_OVERHEAD_BYTES + key_len + value_len
    }
}

impl Default for MemTable {
    fn default() -> (table: Self)
        ensures
            table.wf(),
            table@ == Map::<Seq<u8>, Option<Seq<u8>>>::empty(),
            table.size() == 0,
    {
        MemTable::new()
    }
}

/// Each entry's charge is part of the whole.
proof fn lemma_charge_contains(entries: Seq<EntryView>, at: int)
    requires
        0 <= at < entries.len(),
    ensures
        charge(entries[at]) <= total_charge(entries),
{
    let head = entries.take(at);
    let tail = entries.skip(at + 1);
    assert(entries =~= head.push(entries[at]) + tail);
    lemma_charge_concat(head.push(entries[at]), tail);
}

proof fn lemma_overwrite(entries: Seq<EntryView>, at: int, entry: EntryView)
    requires
        ascending(entries),
        0 <= at < entries.len(),
        entries[at].0 == entry.0,
    ensures
        ascending(entries.update(at, entry)),
{
    let after = entries.update(at, entry);
    assert forall|i: int, j: int|
        #![trigger after[i], after[j]]
        0 <= i < j < after.len() implies lex_lt(after[i].0, after[j].0) by {
        assert(after[i].0 == entries[i].0 && after[j].0 == entries[j].0);
    }
}

proof fn lemma_overwrite_map(entries: Seq<EntryView>, at: int, entry: EntryView)
    requires
        ascending(entries),
        0 <= at < entries.len(),
        entries[at].0 == entry.0,
    ensures
        as_map(entries.update(at, entry)) == as_map(entries).insert(entry.0, entry.1),
{
    let after = entries.update(at, entry);
    lemma_overwrite(entries, at, entry);
    assert forall|key: Seq<u8>| has_key(after, key) == has_key(entries, key) by {
        if has_key(entries, key) {
            let i = choose|i: int| 0 <= i < entries.len() && (#[trigger] entries[i]).0 == key;
            assert(after[i].0 == key);
        }
        if has_key(after, key) {
            let i = choose|i: int| 0 <= i < after.len() && (#[trigger] after[i]).0 == key;
            assert(entries[i].0 == key);
        }
    }
    lemma_find_at(after, at);
    lemma_find_at(entries, at);
    assert forall|key: Seq<u8>| key != entry.0 && has_key(entries, key) implies find(after, key)
        == find(entries, key) by {
        let i = choose|i: int| 0 <= i < entries.len() && (#[trigger] entries[i]).0 == key;
        assert(after[i] == entries[i]);
        lemma_find_at(entries, i);
        lemma_find_at(after, i);
    }
    assert(as_map(after) =~= as_map(entries).insert(entry.0, entry.1));
}

proof fn lemma_insert_map(entries: Seq<EntryView>, at: int, entry: EntryView)
    requires
        ascending(entries),
        0 <= at <= entries.len(),
        forall|i: int| 0 <= i < at ==> lex_lt((#[trigger] entries[i]).0, entry.0),
        forall|i: int| at <= i < entries.len() ==> lex_lt(entry.0, (#[trigger] entries[i]).0),
    ensures
        ascending(entries.insert(at, entry)),
        as_map(entries.insert(at, entry)) == as_map(entries).insert(entry.0, entry.1),
{
    let after = entries.insert(at, entry);
    assert forall|i: int| 0 <= i < after.len() implies #[trigger] after[i] == if i < at {
        entries[i]
    } else if i == at {
        entry
    } else {
        entries[i - 1]
    } by {}
    assert forall|i: int, j: int|
        #![trigger after[i], after[j]]
        0 <= i < j < after.len() implies lex_lt(after[i].0, after[j].0) by {
        if i < at {
            assert(after[i] == entries[i]);
        } else if i > at {
            assert(after[i] == entries[i - 1]);
        }
        if j < at {
            assert(after[j] == entries[j]);
        } else if j > at {
            assert(after[j] == entries[j - 1]);
        }
    }
    assert forall|key: Seq<u8>| key != entry.0 implies has_key(after, key) == has_key(
        entries,
        key,
    ) && (has_key(entries, key) ==> find(after, key) == find(entries, key)) by {
        if has_key(entries, key) {
            let i = choose|i: int| 0 <= i < entries.len() && (#[trigger] entries[i]).0 == key;
            let j = if i < at {
                i
            } else {
                i + 1
            };
            assert(after[j] == entries[i]);
            lemma_find_at(entries, i);
            lemma_find_at(after, j);
        }
        if has_key(after, key) {
            let i = choose|i: int| 0 <= i < after.len() && (#[trigger] after[i]).0 == key;
            let j = if i < at {
                i
            } else {
                i - 1
            };
            assert(entries[j] == after[i]);
        }
    }
    lemma_find_at(after, at);
    assert(as_map(after) =~= as_map(entries).insert(entry.0, entry.1));
}

/// A bound and a key are comparable.
proof fn lemma_bounds_decide(key: Seq<u8>, bound: KeyBound)
    ensures
        match bound {
            KeyBound::Included(b) | KeyBound::Excluded(b) => {
                &&& lex_lt(key, b@) ==> !lex_le(b@, key)
                &&& lex_le(key, b@) ==> !lex_lt(b@, key)
                &&& lex_lt(b@, key) ==> !lex_le(key, b@)
                &&& lex_le(b@, key) ==> !lex_lt(key, b@)
            },
            KeyBound::Unbounded => true,
        },
{
    match bound {
        KeyBound::Included(b) | KeyBound::Excluded(b) => {
            lemma_lex_irreflexive(key);
            if lex_lt(key, b@) {
                lemma_lex_asymmetric(key, b@);
            }
            if lex_lt(b@, key) {
                lemma_lex_asymmetric(b@, key);
            }
        },
        KeyBound::Unbounded => {},
    }
}

/// No key lies below the lower end of a range and above its upper end.
proof fn lemma_range_is_ordered(key: Seq<u8>, lower: KeyBound, upper: KeyBound)
    requires
        is_range(lower, upper),
    ensures
        above_lower(key, lower) || below_upper(key, upper),
{
    match (lower, upper) {
        (KeyBound::Unbounded, _) => {},
        (_, KeyBound::Unbounded) => {},
        (KeyBound::Excluded(a) | KeyBound::Included(a), KeyBound::Excluded(b) | KeyBound::Included(b))
        => {
            lemma_lex_total(a@, key);
            lemma_lex_total(key, b@);
            lemma_lex_irreflexive(key);
            lemma_lex_irreflexive(a@);
            if lex_lt(a@, b@) {
                lemma_lex_asymmetric(a@, b@);
            }
            if lex_lt(key, a@) && lex_lt(b@, key) {
                lemma_lex_transitive(b@, key, a@);
            }
        },
    }
}

/// A write is what a later read of the same key gives back, and a read of any
/// other key is not disturbed.
pub proof fn law_read_after_write(
    table: Map<Seq<u8>, Option<Seq<u8>>>,
    key: Seq<u8>,
    value: Option<Seq<u8>>,
    other: Seq<u8>,
)
    ensures
        table.insert(key, value).contains_key(key),
        table.insert(key, value)[key] == value,
        other != key ==> table.insert(key, value).contains_key(other) == table.contains_key(other),
        other != key && table.contains_key(other) ==> table.insert(key, value)[other]
            == table[other],
{
}

/// One call of [`MemTable::put`] or [`MemTable::delete`].
pub open spec fn is_called(before: MemTable, after: MemTable, call: EntryView) -> bool {
    after@ == before@.insert(call.0, call.1)
}

/// Calls one after the other, with the table between them.
pub open spec fn are_called(tables: Seq<MemTable>, calls: Seq<EntryView>) -> bool {
    &&& tables.len() == calls.len() + 1
    &&& forall|i: int|
        0 <= i < calls.len() ==> is_called(tables[i], tables[i + 1], #[trigger] calls[i])
}

/// What the last of the calls that name a key said of it; nothing if none does.
pub open spec fn last_said(calls: Seq<EntryView>, key: Seq<u8>) -> Option<Option<Seq<u8>>>
    decreases calls.len(),
{
    if calls.len() == 0 {
        None
    } else if calls.last().0 == key {
        Some(calls.last().1)
    } else {
        last_said(calls.drop_last(), key)
    }
}

/// After any calls on an empty table, a lookup gives what the last call that named
/// the key said: its value, empty or not, or that it is deleted; and nothing exactly
/// if no call named it.
pub proof fn law_the_last_call_is_found(
    tables: Seq<MemTable>,
    calls: Seq<EntryView>,
    key: Seq<u8>,
)
    requires
        are_called(tables, calls),
        tables[0]@ == Map::<Seq<u8>, Option<Seq<u8>>>::empty(),
    ensures
        tables.last()@.contains_key(key) <==> has_key(calls, key),
        last_said(calls, key) == if tables.last()@.contains_key(key) {
            Some(tables.last()@[key])
        } else {
            None
        },
    decreases calls.len(),
{
    if calls.len() > 0 {
        let n = calls.len() - 1;
        let fewer = calls.drop_last();
        let head = tables.drop_last();
        assert forall|i: int| 0 <= i < fewer.len() implies is_called(
            head[i],
            head[i + 1],
            #[trigger] fewer[i],
        ) by {
            assert(is_called(tables[i], tables[i + 1], calls[i]));
        }
        law_the_last_call_is_found(head, fewer, key);
        assert(is_called(tables[n], tables[n + 1], calls[n]));
        if has_key(fewer, key) {
            let i = choose|i: int| 0 <= i < fewer.len() && (#[trigger] fewer[i]).0 == key;
            assert(calls[i].0 == key);
        }
        if has_key(calls, key) && calls.last().0 != key {
            let i = choose|i: int| 0 <= i < calls.len() && (#[trigger] calls[i]).0 == key;
            assert(fewer[i].0 == key);
        }
    }
}

} // verus!
