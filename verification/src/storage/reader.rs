//! Reading tables: lookups, scans and key ranges.

use std::sync::atomic::AtomicU64;

use vstd::prelude::*;

use super::block::{
    decode_block, decode_index, index_of, read_checked_block, Footer, IndexEntry, IndexView,
    FOOTER_BYTES,
};
use super::bloom::{BloomFilter, BloomView};
use super::entries::{entries_of, EntryView};
use super::memtable::Value;
use super::order::{
    compare_keys, copy_bytes, key_before, lemma_lex_asymmetric, lemma_lex_irreflexive,
    lemma_lex_mixed, lemma_lex_total, lemma_lex_transitive, lex_le, lex_lt, KeyOrder,
};
use super::sstable::{
    block_at, blocks_upto, filter_of, index_from, item_of, items_of, key_view, last_key_of,
    lemma_blocks_upto_is, not_below, ok_items, parse_table, scan, TableView,
};
use super::{Key, StorageError};

verus! {

/// The first keys of the blocks ascend.
pub open spec fn index_ascends(index: Seq<IndexView>) -> bool {
    forall|i: int, j: int|
        #![trigger index[i], index[j]]
        0 <= i < j < index.len() ==> lex_lt(index[i].first_key, index[j].first_key)
}

/// Where a lookup of one key leads: to one data block at most.
#[derive(Debug, Clone, Copy, PartialEq, Eq, Structural)]
pub enum Probe {
    /// The filter knows that the key is not here. Nothing is read, and the
    /// rejection is counted.
    Rejected,
    /// The key is below every block. Nothing is read.
    Outside,
    /// This block, and no other, could hold the key. It is read, and counted.
    Block(usize),
}

/// Where a lookup of `key` leads in a table.
pub open spec fn probe_of(table: TableView, key: Seq<u8>) -> Probe {
    if table.rejects(key) {
        Probe::Rejected
    } else if blocks_upto(table.index, key) == 0 {
        Probe::Outside
    } else {
        Probe::Block((blocks_upto(table.index, key) - 1) as usize)
    }
}

/// A table opened for reading.
///
/// The sparse index and the filter are decoded once; data blocks are decoded
/// and verified each time they are read. The two counters are shared by all
/// readers of the table.
#[derive(Debug)]
pub struct SSTable {
    file: Vec<u8>,
    index: Vec<IndexEntry>,
    ascends: bool,
    entry_count: u64,
    max_key: Option<Key>,
    bloom: Option<BloomFilter>,
    blocks_read: AtomicU64,
    bloom_rejections: AtomicU64,
}

impl View for SSTable {
    type V = TableView;

    closed spec fn view(&self) -> TableView {
        TableView {
            file: self.file@,
            index: index_of(self.index@),
            bloom: match self.bloom {
                Some(filter) => Some(filter@),
                None => None,
            },
            entry_count: self.entry_count,
            max_key: key_view(self.max_key),
        }
    }
}

fn bump(counter: &AtomicU64) {
    let _ = counter.fetch_add(1, std::sync::atomic::Ordering::Relaxed);
}

impl SSTable {
    /// The filter is well formed, and the index is known to ascend only if it
    /// does.
    pub closed spec fn wf(&self) -> bool {
        &&& self.bloom matches Some(filter) ==> filter@.wf()
        &&& self.ascends ==> index_ascends(index_of(self.index@))
    }

    /// Opens a table file: decodes its index and its filter, and reads its last
    /// block for the largest key.
    pub fn open(file: Vec<u8>) -> (opened: Result<Self, StorageError>)
        ensures
            match opened {
                Ok(table) => table.wf() && parse_table(file@) == Ok::<TableView, StorageError>(
                    table@,
                ),
                Err(error) => parse_table(file@) == Err::<TableView, StorageError>(error),
            },
    {
        let size: usize = file.len();
        if size < FOOTER_BYTES {
            return Err(StorageError::TableTooShort);
        }
        let footer_image: &[u8] = vstd::slice::slice_subrange(
            file.as_slice(),
            size - FOOTER_BYTES,
            size,
        );
        proof {
            assert(footer_image@ =~= file@.skip(file@.len() - 44));
        }
        let footer: Footer = match Footer::decode(footer_image) {
            Ok(footer) => footer,
            Err(error) => return Err(error),
        };
        let index: Vec<IndexEntry> = match Self::load_index(file.as_slice(), footer) {
            Ok(index) => index,
            Err(error) => return Err(error),
        };
        let bloom: Option<BloomFilter> = match Self::load_filter(file.as_slice(), footer) {
            Ok(bloom) => bloom,
            Err(error) => return Err(error),
        };
        let max_key: Option<Key> = match Self::load_max_key(file.as_slice(), &index) {
            Ok(max_key) => max_key,
            Err(error) => return Err(error),
        };
        let ascends: bool = Self::check_index(&index);
        Ok(
            SSTable {
                file,
                index,
                ascends,
                entry_count: footer.entry_count,
                max_key,
                bloom,
                blocks_read: AtomicU64::new(0),
                bloom_rejections: AtomicU64::new(0),
            },
        )
    }

    fn load_index(file: &[u8], footer: Footer) -> (loaded: Result<Vec<IndexEntry>, StorageError>)
        ensures
            match loaded {
                Ok(index) => index_from(file@, footer) == Ok::<Seq<IndexView>, StorageError>(
                    index_of(index@),
                ),
                Err(error) => index_from(file@, footer) == Err::<Seq<IndexView>, StorageError>(
                    error,
                ),
            },
    {
        match read_checked_block(file, footer.index_offset, footer.index_length) {
            Ok(payload) => decode_index(payload.as_slice()),
            Err(error) => Err(error),
        }
    }

    fn load_filter(file: &[u8], footer: Footer) -> (loaded: Result<
        Option<BloomFilter>,
        StorageError,
    >)
        ensures
            match loaded {
                Ok(Some(filter)) => filter@.wf() && filter_of(file@, footer) == Ok::<
                    Option<BloomView>,
                    StorageError,
                >(Some(filter@)),
                Ok(None) => filter_of(file@, footer) == Ok::<Option<BloomView>, StorageError>(None),
                Err(error) => filter_of(file@, footer) == Err::<Option<BloomView>, StorageError>(
                    error,
                ),
            },
    {
        if footer.bloom_length == 0 {
            return Ok(None);
        }
        match read_checked_block(file, footer.bloom_offset, footer.bloom_length) {
            Ok(payload) => match BloomFilter::decode(payload.as_slice()) {
                Ok(filter) => Ok(Some(filter)),
                Err(error) => Err(error),
            },
            Err(error) => Err(error),
        }
    }

    fn load_max_key(file: &[u8], index: &Vec<IndexEntry>) -> (loaded: Result<
        Option<Key>,
        StorageError,
    >)
        ensures
            match loaded {
                Ok(key) => last_key_of(file@, index_of(index@)) == Ok::<
                    Option<Seq<u8>>,
                    StorageError,
                >(key_view(key)),
                Err(error) => last_key_of(file@, index_of(index@)) == Err::<
                    Option<Seq<u8>>,
                    StorageError,
                >(error),
            },
    {
        if index.len() == 0 {
            return Ok(None);
        }
        let last: &IndexEntry = &index[index.len() - 1];
        proof {
            assert(index_of(index@).last() == last@);
        }
        match decode_at(file, last) {
            Ok(entries) => {
                if entries.len() == 0 {
                    Ok(None)
                } else {
                    let at: usize = entries.len() - 1;
                    proof {
                        assert(entries_of(entries@).last() == entries_of(entries@)[at as int]);
                    }
                    Ok(Some(copy_bytes(entries[at].0.as_slice())))
                }
            },
            Err(error) => Err(error),
        }
    }

    fn check_index(index: &Vec<IndexEntry>) -> (ascends: bool)
        ensures
            ascends == index_ascends(index_of(index@)),
    {
        let ghost view = index_of(index@);
        let mut i: usize = 1;
        while i < index.len()
            invariant
                1 <= i,
                i <= index@.len() || index@.len() == 0 && i == 1,
                view == index_of(index@),
                forall|a: int, b: int|
                    #![trigger view[a], view[b]]
                    0 <= a < b < view.len() && b < i ==> lex_lt(
                        view[a].first_key,
                        view[b].first_key,
                    ),
            decreases index@.len() - i,
        {
            if !key_before(index[i - 1].first_key.as_slice(), index[i].first_key.as_slice()) {
                proof {
                    assert(!lex_lt(view[i - 1].first_key, view[i as int].first_key));
                }
                return false;
            }
            proof {
                assert(lex_lt(view[i - 1].first_key, view[i as int].first_key));
                assert forall|a: int, b: int|
                    #![trigger view[a], view[b]]
                    0 <= a < b < view.len() && b < i + 1 implies lex_lt(
                    view[a].first_key,
                    view[b].first_key,
                ) by {
                    if b == i && a < i - 1 {
                        lemma_lex_transitive(
                            view[a].first_key,
                            view[i - 1].first_key,
                            view[b].first_key,
                        );
                    }
                }
            }
            i = i + 1;
        }
        true
    }

    /// Looks `key` up in this table only: its value, a tombstone, or nothing,
    /// in which case older tables have to be asked.
    pub fn get(&self, key: &[u8]) -> (found: Result<Option<Value>, StorageError>)
        requires
            self.wf(),
        ensures
            found_of(found) == self@.get(key@),
    {
        match self.probe(key) {
            Probe::Rejected => {
                bump(&self.bloom_rejections);
                Ok(None)
            },
            Probe::Outside => Ok(None),
            Probe::Block(block) => match self.read_block(block) {
                Err(error) => Err(error),
                Ok(entries) => Ok(scan_block(&entries, key)),
            },
        }
    }

    /// Where a lookup of `key` leads, told from the filter and the index alone.
    pub fn probe(&self, key: &[u8]) -> (probe: Probe)
        requires
            self.wf(),
        ensures
            probe == probe_of(self@, key@),
            probe matches Probe::Block(block) ==> block < self@.index.len()
                && blocks_upto(self@.index, key@) == block + 1,
    {
        match &self.bloom {
            Some(filter) => {
                if !filter.may_contain(key) {
                    return Probe::Rejected;
                }
            },
            None => {},
        }
        match self.block_for_key(key) {
            None => Probe::Outside,
            Some(block) => Probe::Block(block),
        }
    }

    /// The only block that could hold `key`: the last whose first key is not
    /// above it.
    fn block_for_key(&self, key: &[u8]) -> (block: Option<usize>)
        requires
            self.wf(),
        ensures
            match block {
                Some(block) => block < self@.index.len() && blocks_upto(self@.index, key@)
                    == block + 1,
                None => blocks_upto(self@.index, key@) == 0,
            },
    {
        let past: usize = if self.ascends {
            self.search_index(key)
        } else {
            self.walk_index(key)
        };
        if past == 0 {
            None
        } else {
            Some(past - 1)
        }
    }

    /// Counts the leading blocks whose first key is not above `key` by binary
    /// search.
    fn search_index(&self, key: &[u8]) -> (past: usize)
        requires
            index_ascends(self@.index),
        ensures
            past <= self@.index.len(),
            past == blocks_upto(self@.index, key@),
    {
        let ghost view = index_of(self.index@);
        let mut low: usize = 0;
        let mut high: usize = self.index.len();
        while low < high
            invariant
                low <= high <= self.index@.len(),
                view == index_of(self.index@),
                index_ascends(view),
                forall|i: int| 0 <= i < low ==> lex_le((#[trigger] view[i]).first_key, key@),
                forall|i: int|
                    high <= i < view.len() ==> lex_lt(key@, (#[trigger] view[i]).first_key),
            decreases high - low,
        {
            let middle: usize = low + (high - low) / 2;
            if key_before(key, self.index[middle].first_key.as_slice()) {
                proof {
                    assert forall|i: int| middle <= i < view.len() implies lex_lt(
                        key@,
                        (#[trigger] view[i]).first_key,
                    ) by {
                        if i > middle {
                            lemma_lex_transitive(
                                key@,
                                view[middle as int].first_key,
                                view[i].first_key,
                            );
                        }
                    }
                }
                high = middle;
            } else {
                proof {
                    lemma_lex_total(view[middle as int].first_key, key@);
                    assert forall|i: int| 0 <= i < middle + 1 implies lex_le(
                        (#[trigger] view[i]).first_key,
                        key@,
                    ) by {
                        if i < middle {
                            lemma_lex_mixed(
                                view[i].first_key,
                                view[middle as int].first_key,
                                key@,
                            );
                        }
                    }
                }
                low = middle + 1;
            }
        }
        proof {
            if low < view.len() {
                lemma_lex_asymmetric(key@, view[low as int].first_key);
            }
            lemma_blocks_upto_is(view, key@, low as int);
        }
        low
    }

    /// Counts the leading blocks whose first key is not above `key` one by one.
    fn walk_index(&self, key: &[u8]) -> (past: usize)
        ensures
            past <= self@.index.len(),
            past == blocks_upto(self@.index, key@),
    {
        let ghost view = index_of(self.index@);
        let mut past: usize = 0;
        while past < self.index.len()
            invariant
                past <= self.index@.len(),
                view == index_of(self.index@),
                forall|i: int| 0 <= i < past ==> lex_le((#[trigger] view[i]).first_key, key@),
            decreases self.index@.len() - past,
        {
            if key_before(key, self.index[past].first_key.as_slice()) {
                proof {
                    lemma_lex_asymmetric(key@, view[past as int].first_key);
                    lemma_blocks_upto_is(view, key@, past as int);
                }
                return past;
            }
            proof {
                lemma_lex_total(view[past as int].first_key, key@);
            }
            past = past + 1;
        }
        proof {
            lemma_blocks_upto_is(view, key@, past as int);
        }
        past
    }

    /// Reads and verifies one data block.
    pub fn read_block(&self, block: usize) -> (read: Result<Vec<(Key, Value)>, StorageError>)
        requires
            block < self@.index.len(),
        ensures
            match read {
                Ok(entries) => block_at(self@.file, self@.index[block as int]) == Ok::<
                    Seq<EntryView>,
                    StorageError,
                >(entries_of(entries@)),
                Err(error) => block_at(self@.file, self@.index[block as int]) == Err::<
                    Seq<EntryView>,
                    StorageError,
                >(error),
            },
    {
        bump(&self.blocks_read);
        decode_at(self.file.as_slice(), &self.index[block])
    }

    /// Every entry in ascending key order, tombstones included.
    pub fn iter(&self) -> (iter: SSTableIter<'_>)
        requires
            self.wf(),
        ensures
            iter@ == self@.items(),
    {
        self.iter_from_block(0)
    }

    fn iter_from_block(&self, from: usize) -> (iter: SSTableIter<'_>)
        ensures
            iter@ == self@.items_from(from as nat),
    {
        let iter = SSTableIter { table: self, next_block: from, buffered: Vec::new() };
        proof {
            assert(iter@ =~= self@.items_from(from as nat));
        }
        iter
    }

    /// What iterating over the whole table gives, as a list.
    pub fn entries(&self) -> (items: Vec<Result<(Key, Value), StorageError>>)
        requires
            self.wf(),
        ensures
            items_of(items@) == self@.items(),
    {
        self.iter().collect()
    }

    /// The entries that are not below `start`, in ascending order, reading from
    /// the one block on that could hold it.
    pub fn range_from(&self, start: &[u8]) -> (items: Vec<Result<(Key, Value), StorageError>>)
        requires
            self.wf(),
        ensures
            items_of(items@) == self@.items_at_or_after(start@),
    {
        let first: usize = match self.block_for_key(start) {
            Some(block) => block,
            None => 0,
        };
        let all: Vec<Result<(Key, Value), StorageError>> = self.iter_from_block(first).collect();
        drop_below(all, start)
    }

    /// The number of entries, as the footer has it.
    pub fn entry_count(&self) -> (count: u64)
        ensures
            count == self@.entry_count,
    {
        self.entry_count
    }

    /// The number of data blocks.
    pub fn block_count(&self) -> (count: usize)
        ensures
            count == self@.index.len(),
    {
        self.index.len()
    }

    /// The length of the file.
    pub fn file_size_bytes(&self) -> (size: u64)
        ensures
            size == self@.file.len(),
    {
        self.file.len() as u64
    }

    /// The bytes of the file.
    pub fn bytes(&self) -> (bytes: &[u8])
        ensures
            bytes@ == self@.file,
    {
        self.file.as_slice()
    }

    /// Whether the table carries a filter.
    pub fn has_bloom_filter(&self) -> (has: bool)
        ensures
            has == (self@.bloom is Some),
    {
        self.bloom.is_some()
    }

    /// Resident bytes of filter.
    pub fn bloom_bytes(&self) -> (bytes: usize)
        ensures
            bytes == match self@.bloom {
                Some(filter) => filter.num_bits / 8,
                None => 0,
            },
    {
        match &self.bloom {
            Some(filter) => (filter.num_bits() / 8) as usize,
            None => 0,
        }
    }

    /// Data blocks read by lookups and scans since the table was opened or its
    /// counters were last reset.
    pub fn blocks_read(&self) -> u64 {
        self.blocks_read.load(std::sync::atomic::Ordering::Relaxed)
    }

    /// Lookups that the filter resolved alone since the table was opened or its
    /// counters were last reset.
    pub fn bloom_rejections(&self) -> u64 {
        self.bloom_rejections.load(std::sync::atomic::Ordering::Relaxed)
    }

    /// Zeroes the counters.
    pub fn reset_counters(&self) {
        self.blocks_read.store(0, std::sync::atomic::Ordering::Relaxed);
        self.bloom_rejections.store(0, std::sync::atomic::Ordering::Relaxed);
    }

    /// The smallest key.
    pub fn min_key(&self) -> (key: Option<&Key>)
        ensures
            match key {
                Some(key) => self@.min_key() == Some(key@),
                None => self@.min_key() is None,
            },
    {
        if self.index.len() == 0 {
            None
        } else {
            proof {
                assert(index_of(self.index@)[0] == self.index@[0]@);
            }
            Some(&self.index[0].first_key)
        }
    }

    /// The largest key.
    pub fn max_key(&self) -> (key: Option<&Key>)
        ensures
            match key {
                Some(key) => self@.max_key == Some(key@),
                None => self@.max_key is None,
            },
    {
        match &self.max_key {
            Some(key) => Some(key),
            None => None,
        }
    }

    /// Whether the key ranges of two tables meet. Tables whose ranges do not
    /// can be moved between levels without a merge.
    pub fn overlaps(&self, other: &SSTable) -> (overlap: bool)
        ensures
            overlap == self@.overlaps(other@),
    {
        match (self.min_key(), self.max_key(), other.min_key(), other.max_key()) {
            (Some(self_min), Some(self_max), Some(other_min), Some(other_max)) => {
                proof {
                    lemma_not_before(other_max@, self_min@);
                    lemma_not_before(self_max@, other_min@);
                }
                !key_before(other_max.as_slice(), self_min.as_slice()) && !key_before(
                    self_max.as_slice(),
                    other_min.as_slice(),
                )
            },
            _ => false,
        }
    }
}

/// "Not before" is "at or after".
pub proof fn lemma_not_before(a: Seq<u8>, b: Seq<u8>)
    ensures
        !lex_lt(a, b) == lex_le(b, a),
{
    lemma_lex_total(a, b);
    lemma_lex_irreflexive(a);
    if lex_lt(a, b) {
        lemma_lex_asymmetric(a, b);
    }
}

/// The content of what a lookup found.
pub open spec fn found_of(found: Result<Option<Value>, StorageError>) -> Result<
    Option<Option<Seq<u8>>>,
    StorageError,
> {
    match found {
        Ok(Some(value)) => Ok(Some(value@)),
        Ok(None) => Ok(None),
        Err(error) => Err(error),
    }
}

fn decode_at(file: &[u8], entry: &IndexEntry) -> (read: Result<Vec<(Key, Value)>, StorageError>)
    ensures
        match read {
            Ok(entries) => block_at(file@, entry@) == Ok::<Seq<EntryView>, StorageError>(
                entries_of(entries@),
            ),
            Err(error) => block_at(file@, entry@) == Err::<Seq<EntryView>, StorageError>(error),
        },
{
    match read_checked_block(file, entry.offset, entry.length) {
        Ok(payload) => decode_block(payload.as_slice()),
        Err(error) => Err(error),
    }
}

/// Scans a block for `key`, stopping at the first key that is not below it.
fn scan_block(entries: &Vec<(Key, Value)>, key: &[u8]) -> (found: Option<Value>)
    ensures
        match found {
            Some(value) => scan(entries_of(entries@), key@) == Some(value@),
            None => scan(entries_of(entries@), key@) is None,
        },
{
    let ghost view = entries_of(entries@);
    let mut i: usize = 0;
    proof {
        assert(view.skip(0) =~= view);
    }
    while i < entries.len()
        invariant
            i <= entries@.len(),
            view == entries_of(entries@),
            scan(view, key@) == scan(view.skip(i as int), key@),
        decreases entries@.len() - i,
    {
        proof {
            assert(view.skip(i as int)[0] == view[i as int]);
            assert(view.skip(i as int).drop_first() =~= view.skip(i + 1));
        }
        match compare_keys(entries[i].0.as_slice(), key) {
            KeyOrder::Less => {},
            KeyOrder::Equal => {
                proof {
                    lemma_lex_irreflexive(key@);
                }
                return Some(entries[i].1.copy());
            },
            KeyOrder::Greater => {
                proof {
                    lemma_lex_asymmetric(key@, view[i as int].0);
                }
                return None;
            },
        }
        i = i + 1;
    }
    None
}

/// Leaves out the entries below `start` and keeps everything else in order.
fn drop_below(items: Vec<Result<(Key, Value), StorageError>>, start: &[u8]) -> (kept: Vec<
    Result<(Key, Value), StorageError>,
>)
    ensures
        items_of(kept@) == items_of(items@).filter(not_below(start@)),
{
    let ghost keep = not_below(start@);
    let ghost view = items_of(items@);
    let mut kept: Vec<Result<(Key, Value), StorageError>> = Vec::new();
    let mut rest: Vec<Result<(Key, Value), StorageError>> = reverse_items(items);
    proof {
        reveal(Seq::filter);
        assert(items_of(kept@) =~= view.take(0).filter(keep));
        assert(items_of(rest@) =~= view.skip(0).reverse());
    }
    let ghost mut done: int = 0;
    while rest.len() > 0
        invariant
            0 <= done <= view.len(),
            items_of(rest@) == view.skip(done).reverse(),
            items_of(kept@) == view.take(done).filter(keep),
            keep == not_below(start@),
        decreases rest@.len(),
    {
        let ghost shown = items_of(rest@);
        let ghost remaining = rest@;
        let ghost before = kept@;
        match rest.pop() {
            None => {},
            Some(item) => {
                proof {
                    assert(shown.last() == item_of(item));
                    assert(items_of(rest@) =~= shown.drop_last());
                    assert(view.skip(done).reverse().last() == view[done]);
                    assert(view.skip(done).reverse().drop_last() =~= view.skip(done + 1).reverse());
                    assert(view.take(done + 1) =~= view.take(done).push(view[done]));
                    lemma_filter_push(view.take(done), view[done], keep);
                }
                let below: bool = match &item {
                    Ok(entry) => key_before(entry.0.as_slice(), start),
                    Err(_) => false,
                };
                if !below {
                    kept.push(item);
                    proof {
                        assert(items_of(kept@) =~= items_of(before).push(item_of(item)));
                    }
                }
                proof {
                    done = done + 1;
                }
            },
        }
    }
    proof {
        assert(view.skip(done).reverse().len() == 0);
        assert(view.take(done) =~= view);
    }
    kept
}

/// Filtering a list that grew by one.
pub proof fn lemma_filter_push<T>(list: Seq<T>, item: T, keep: spec_fn(T) -> bool)
    ensures
        list.push(item).filter(keep) == if keep(item) {
            list.filter(keep).push(item)
        } else {
            list.filter(keep)
        },
{
    reveal(Seq::filter);
    assert(list.push(item).drop_last() =~= list);
}

fn reverse_items(items: Vec<Result<(Key, Value), StorageError>>) -> (reversed: Vec<
    Result<(Key, Value), StorageError>,
>)
    ensures
        items_of(reversed@) == items_of(items@).reverse(),
{
    let ghost view = items_of(items@);
    let mut rest: Vec<Result<(Key, Value), StorageError>> = items;
    let mut reversed: Vec<Result<(Key, Value), StorageError>> = Vec::new();
    while rest.len() > 0
        invariant
            rest@.len() + reversed@.len() == view.len(),
            items_of(rest@) == view.take(rest@.len() as int),
            items_of(reversed@) == view.skip(rest@.len() as int).reverse(),
        decreases rest@.len(),
    {
        let ghost shown = items_of(rest@);
        let ghost before = reversed@;
        let ghost n = rest@.len() as int;
        match rest.pop() {
            None => {},
            Some(item) => {
                reversed.push(item);
                proof {
                    assert(item_of(item) == shown.last());
                    assert(items_of(rest@) =~= shown.drop_last());
                    assert(shown.drop_last() =~= view.take(n - 1));
                    assert(items_of(reversed@) =~= items_of(before).push(item_of(item)));
                    assert(view.skip(n - 1).reverse() =~= view.skip(n).reverse().push(view[n - 1]));
                }
            },
        }
    }
    proof {
        assert(view.skip(0) =~= view);
    }
    reversed
}

/// An iteration over the entries of a table.
///
/// A block that cannot be read is one error in the iteration, which then goes
/// on with the next block: ending silently would drop data.
pub struct SSTableIter<'a> {
    table: &'a SSTable,
    next_block: usize,
    /// What is left of the block last read, in reverse.
    buffered: Vec<(Key, Value)>,
}

impl<'a> View for SSTableIter<'a> {
    type V = Seq<Result<EntryView, StorageError>>;

    /// What is still to come.
    closed spec fn view(&self) -> Seq<Result<EntryView, StorageError>> {
        ok_items(entries_of(self.buffered@).reverse()) + self.table@.items_from(
            self.next_block as nat,
        )
    }
}

impl<'a> SSTableIter<'a> {
    /// The next entry, or the error of a block that cannot be read.
    pub fn next(&mut self) -> (item: Option<Result<(Key, Value), StorageError>>)
        ensures
            match item {
                Some(item) => old(self)@.len() > 0 && item_of(item) == old(self)@[0]
                    && final(self)@ == old(self)@.drop_first(),
                None => old(self)@.len() == 0 && final(self)@ == old(self)@,
            },
    {
        let ghost all = self@;
        loop
            invariant
                self@ == all,
                all == old(self)@,
            decreases
                    self.table@.index.len() - self.next_block,
        {
            let ghost buffer = entries_of(self.buffered@);
            match self.buffered.pop() {
                Some(entry) => {
                    proof {
                        assert((entry.0@, entry.1@) == buffer.last());
                        assert(entries_of(self.buffered@) =~= buffer.drop_last());
                        assert(buffer.reverse()[0] == buffer.last());
                        assert(buffer.drop_last().reverse() =~= buffer.reverse().drop_first());
                        assert(self@ =~= all.drop_first());
                    }
                    return Some(Ok(entry));
                },
                None => {},
            }
            proof {
                assert(buffer.len() == 0);
                assert(self@ =~= self.table@.items_from(self.next_block as nat));
                assert(self@ =~= all);
            }
            if self.next_block >= self.table.index.len() {
                return None;
            }
            let block: usize = self.next_block;
            match self.table.read_block(block) {
                Ok(entries) => {
                    let ghost view = entries_of(entries@);
                    self.next_block = block + 1;
                    self.buffered = reverse_entries(entries);
                    proof {
                        assert(view.reverse().reverse() =~= view);
                        assert(self@ =~= all);
                    }
                },
                Err(error) => {
                    self.next_block = block + 1;
                    proof {
                        assert(self@ =~= all.drop_first());
                    }
                    return Some(Err(error));
                },
            }
        }
    }

    /// Everything still to come, as a list.
    pub fn collect(self) -> (items: Vec<Result<(Key, Value), StorageError>>)
        ensures
            items_of(items@) == self@,
    {
        let mut iter = self;
        let mut items: Vec<Result<(Key, Value), StorageError>> = Vec::new();
        proof {
            assert(items_of(items@) + iter@ =~= self@);
        }
        loop
            invariant_except_break
                items_of(items@) + iter@ == self@,
            ensures
                items_of(items@) == self@,
            decreases iter@.len(),
        {
            let ghost before = items_of(items@);
            let ghost left = iter@;
            match iter.next() {
                Some(item) => {
                    let ghost shown = item_of(item);
                    items.push(item);
                    proof {
                        assert(items_of(items@) =~= before.push(shown));
                        assert(items_of(items@) + iter@ =~= before + left);
                    }
                },
                None => {
                    proof {
                        assert(before + left =~= before);
                    }
                    break;
                },
            }
        }
        items
    }
}

fn reverse_entries(entries: Vec<(Key, Value)>) -> (reversed: Vec<(Key, Value)>)
    ensures
        entries_of(reversed@) == entries_of(entries@).reverse(),
{
    let ghost view = entries_of(entries@);
    let mut rest: Vec<(Key, Value)> = entries;
    let mut reversed: Vec<(Key, Value)> = Vec::new();
    while rest.len() > 0
        invariant
            rest@.len() + reversed@.len() == view.len(),
            entries_of(rest@) == view.take(rest@.len() as int),
            entries_of(reversed@) == view.skip(rest@.len() as int).reverse(),
        decreases rest@.len(),
    {
        let ghost shown = entries_of(rest@);
        let ghost before = reversed@;
        let ghost n = rest@.len() as int;
        match rest.pop() {
            None => {},
            Some(entry) => {
                reversed.push(entry);
                proof {
                    assert((entry.0@, entry.1@) == shown.last());
                    assert(entries_of(rest@) =~= shown.drop_last());
                    assert(shown.drop_last() =~= view.take(n - 1));
                    assert(entries_of(reversed@) =~= entries_of(before).push(
                        (entry.0@, entry.1@),
                    ));
                    assert(view.skip(n - 1).reverse() =~= view.skip(n).reverse().push(view[n - 1]));
                }
            },
        }
    }
    proof {
        assert(view.skip(0) =~= view);
    }
    reversed
}

/// A lookup reads one block at most: none if the filter knows that the key is not there or
/// if the key is below the first block, and else the last block that begins no later than
/// the key.
pub proof fn law_lookups_read_one_block_at_most(table: TableView, key: Seq<u8>)
    ensures
        probe_of(table, key) is Rejected <==> table.bloom is Some && !table.bloom->0.may_contain(
            super::bloom::hash_of(key),
        ),
        probe_of(table, key) is Outside ==> table.index.len() == 0 || lex_lt(
            key,
            table.index[0].first_key,
        ),
        probe_of(table, key) matches Probe::Block(block) ==> table.index.len() <= usize::MAX ==> {
            &&& block < table.index.len()
            &&& lex_le(table.index[block as int].first_key, key)
            &&& block + 1 < table.index.len() ==> lex_lt(
                key,
                table.index[block + 1].first_key,
            )
        },
{
    super::sstable::lemma_blocks_upto(table.index, key);
    let n = blocks_upto(table.index, key) as int;
    if n < table.index.len() {
        lemma_lex_total(key, table.index[n].first_key);
    }
    if n > 0 {
        assert(lex_le(table.index[n - 1].first_key, key));
    }
}

} // verus!
