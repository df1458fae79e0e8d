//! Sorted string tables: immutable sorted runs, as files.
//!
//! ```text
//! data block 0 | data block 1 | ... | index | filter | footer (44 bytes)
//! ```
//!
//! The index is sparse: it holds the first key of each block, so that a lookup
//! searches it for the one block that could hold the key, and scans that block.
//! Every block carries a CRC-32. The filter is optional; zero length in the
//! footer marks it absent. The footer is last, so that a file with an intact
//! footer is a file that was written whole.
//!
//! A table is held as the bytes of its file.

use vstd::prelude::*;

use super::block::{
    block_bytes, checked_block, encode_index, footer_bytes, index_bytes, index_of,
    law_block_round_trip, law_footer_round_trip, law_index_round_trip, law_sealed_round_trip,
    parse_block, parse_footer, parse_index, push_entry, push_sealed, readable, sealed, Footer,
    IndexEntry, IndexView, BLOCK_CRC_BYTES, FOOTER_BYTES,
};
use super::bloom::{
    at_least_one, bit_at, bits_for, hash_key, hash_of, hashes_for, law_bloom_round_trip,
    parse_bloom, position, probes, whole_bits, BloomFilter, BloomView,
};
use super::codec::lemma_le_len;
use super::entries::{
    ascending, find, has_key, lemma_find_at, lemma_find_concat, lemma_find_push, EntryView,
};
use super::memtable::{payload_len, Value};
use super::order::{
    copy_bytes, key_before, lemma_lex_irreflexive, lemma_lex_mixed, lemma_lex_total,
    lemma_lex_transitive, lex_le, lex_lt,
};
use super::{Key, StorageError};

verus! {

/// Size at which a data block is closed and a new one started.
pub const DEFAULT_BLOCK_TARGET_BYTES: usize = 4 * 1024;

/// Bits of filter per key, in units of 2^-52, for one false positive in a
/// hundred.
pub const DEFAULT_BLOOM_BITS_PER_KEY: u64 = 43_167_265_336_636_448;

/// What a table file turned out to hold when it was opened.
#[verifier::ext_equal]
pub struct TableView {
    /// The bytes of the file.
    pub file: Seq<u8>,
    /// The sparse index.
    pub index: Seq<IndexView>,
    /// The filter, if there is one.
    pub bloom: Option<BloomView>,
    /// The number of entries, as the footer has it.
    pub entry_count: u64,
    /// The last key of the last block.
    pub max_key: Option<Seq<u8>>,
}

/// The entries of block `i`, or why they cannot be had.
pub open spec fn block_at(file: Seq<u8>, entry: IndexView) -> Result<Seq<EntryView>, StorageError> {
    match checked_block(file, entry.offset, entry.length) {
        Err(error) => Err(error),
        Ok(payload) => parse_block(payload),
    }
}

/// The last key of the last block, or why it cannot be had.
pub open spec fn last_key_of(file: Seq<u8>, index: Seq<IndexView>) -> Result<
    Option<Seq<u8>>,
    StorageError,
> {
    if index.len() == 0 {
        Ok(None)
    } else {
        match block_at(file, index.last()) {
            Err(error) => Err(error),
            Ok(entries) => Ok(
                if entries.len() == 0 {
                    None
                } else {
                    Some(entries.last().0)
                },
            ),
        }
    }
}

/// The filter that a footer points to, or why it cannot be had.
pub open spec fn filter_of(file: Seq<u8>, footer: Footer) -> Result<
    Option<BloomView>,
    StorageError,
> {
    if footer.bloom_length == 0 {
        Ok(None)
    } else {
        match checked_block(file, footer.bloom_offset, footer.bloom_length) {
            Err(error) => Err(error),
            Ok(payload) => match parse_bloom(payload) {
                Err(error) => Err(error),
                Ok(filter) => Ok(Some(filter)),
            },
        }
    }
}

/// The index that a footer points to, or why it cannot be had.
pub open spec fn index_from(file: Seq<u8>, footer: Footer) -> Result<
    Seq<IndexView>,
    StorageError,
> {
    match checked_block(file, footer.index_offset, footer.index_length) {
        Err(error) => Err(error),
        Ok(payload) => parse_index(payload),
    }
}

/// What opening a file gives: a table, or the first thing wrong with it.
pub open spec fn parse_table(file: Seq<u8>) -> Result<TableView, StorageError> {
    if file.len() < FOOTER_BYTES {
        Err(StorageError::TableTooShort)
    } else {
        match parse_footer(file.skip(file.len() - 44)) {
            Err(error) => Err(error),
            Ok(footer) => match index_from(file, footer) {
                Err(error) => Err(error),
                Ok(index) => match filter_of(file, footer) {
                    Err(error) => Err(error),
                    Ok(bloom) => match last_key_of(file, index) {
                        Err(error) => Err(error),
                        Ok(max_key) => Ok(
                            TableView {
                                file,
                                index,
                                bloom,
                                entry_count: footer.entry_count,
                                max_key,
                            },
                        ),
                    },
                },
            },
        }
    }
}

/// The number of leading blocks whose first key is not above `key`.
pub open spec fn blocks_upto(index: Seq<IndexView>, key: Seq<u8>) -> nat
    decreases index.len(),
{
    if index.len() == 0 || !lex_le(index[0].first_key, key) {
        0
    } else {
        1 + blocks_upto(index.drop_first(), key)
    }
}

/// What an ascending scan for `key` comes to.
pub open spec fn scan(entries: Seq<EntryView>, key: Seq<u8>) -> Option<Option<Seq<u8>>>
    decreases entries.len(),
{
    if entries.len() == 0 {
        None
    } else if lex_lt(entries[0].0, key) {
        scan(entries.drop_first(), key)
    } else if entries[0].0 == key {
        Some(entries[0].1)
    } else {
        None
    }
}

impl TableView {
    /// The first key of the first block.
    pub open spec fn min_key(self) -> Option<Seq<u8>> {
        if self.index.len() == 0 {
            None
        } else {
            Some(self.index[0].first_key)
        }
    }

    /// The filter alone rules `key` out.
    pub open spec fn rejects(self, key: Seq<u8>) -> bool {
        self.bloom matches Some(filter) && !filter.may_contain(hash_of(key))
    }

    /// What this table alone says of `key`, or why it cannot say.
    pub open spec fn get(self, key: Seq<u8>) -> Result<Option<Option<Seq<u8>>>, StorageError> {
        if self.rejects(key) {
            Ok(None)
        } else {
            let past = blocks_upto(self.index, key);
            if past == 0 {
                Ok(None)
            } else {
                match block_at(self.file, self.index[past - 1]) {
                    Err(error) => Err(error),
                    Ok(entries) => Ok(scan(entries, key)),
                }
            }
        }
    }

    /// What iterating from block `from` on gives: entries, and an error for
    /// each block that cannot be read.
    pub open spec fn items_from(self, from: nat) -> Seq<Result<EntryView, StorageError>>
        decreases self.index.len() - from,
    {
        if from >= self.index.len() {
            Seq::empty()
        } else {
            block_items(block_at(self.file, self.index[from as int])) + self.items_from(from + 1)
        }
    }

    /// What iterating over the whole table gives.
    pub open spec fn items(self) -> Seq<Result<EntryView, StorageError>> {
        self.items_from(0)
    }

    /// What iterating from `start` on gives: errors, and the entries that are
    /// not below `start`, from the one block on that could hold it.
    pub open spec fn items_at_or_after(self, start: Seq<u8>) -> Seq<
        Result<EntryView, StorageError>,
    > {
        let past = blocks_upto(self.index, start);
        let first = if past == 0 {
            0
        } else {
            (past - 1) as nat
        };
        self.items_from(first).filter(not_below(start))
    }

    /// Whether the key ranges of two tables meet.
    pub open spec fn overlaps(self, other: TableView) -> bool {
        match (self.min_key(), self.max_key, other.min_key(), other.max_key) {
            (Some(self_min), Some(self_max), Some(other_min), Some(other_max)) => lex_le(
                self_min,
                other_max,
            ) && lex_le(other_min, self_max),
            _ => false,
        }
    }

    /// The table holds exactly these entries, and every way of reading it says
    /// so.
    pub open spec fn holds(self, entries: Seq<EntryView>) -> bool {
        &&& ascending(entries)
        &&& self.items() == ok_items(entries)
        &&& forall|key: Seq<u8>| #[trigger]
            self.get(key) == Ok::<Option<Option<Seq<u8>>>, StorageError>(find(entries, key))
        &&& forall|start: Seq<u8>| #[trigger]
            self.items_at_or_after(start) == ok_items(at_or_after(entries, start))
        &&& self.entry_count == entries.len()
        &&& self.min_key() == if entries.len() == 0 {
            None
        } else {
            Some(entries[0].0)
        }
        &&& self.max_key == if entries.len() == 0 {
            None
        } else {
            Some(entries.last().0)
        }
    }
}

/// An error, or an entry that is not below `start`.
pub open spec fn not_below(start: Seq<u8>) -> spec_fn(Result<EntryView, StorageError>) -> bool {
    |item: Result<EntryView, StorageError>| item is Err || !lex_lt(item->Ok_0.0, start)
}

/// The entries that are not below `start`.
pub open spec fn at_or_after(entries: Seq<EntryView>, start: Seq<u8>) -> Seq<EntryView> {
    entries.filter(|entry: EntryView| !lex_lt(entry.0, start))
}

/// What one block adds to an iteration.
pub open spec fn block_items(block: Result<Seq<EntryView>, StorageError>) -> Seq<
    Result<EntryView, StorageError>,
> {
    match block {
        Err(error) => seq![Err(error)],
        Ok(entries) => ok_items(entries),
    }
}

/// Entries, none of which failed to be read.
pub open spec fn ok_items(entries: Seq<EntryView>) -> Seq<Result<EntryView, StorageError>> {
    Seq::new(entries.len(), |i: int| Ok::<EntryView, StorageError>(entries[i]))
}

/// The content of a list of read results.
pub open spec fn items_of(items: Seq<Result<(Key, Value), StorageError>>) -> Seq<
    Result<EntryView, StorageError>,
> {
    Seq::new(items.len(), |i: int| item_of(items[i]))
}

/// The content of a read result.
pub open spec fn item_of(item: Result<(Key, Value), StorageError>) -> Result<
    EntryView,
    StorageError,
> {
    match item {
        Ok(entry) => Ok((entry.0@, entry.1@)),
        Err(error) => Err(error),
    }
}

// ---------------------------------------------------------------------------
// What a writer makes of its entries
// ---------------------------------------------------------------------------

/// The finished blocks and the open one after these entries were appended: a
/// block is closed as soon as its bytes reach `target`.
pub open spec fn split(entries: Seq<EntryView>, target: nat) -> (Seq<Seq<EntryView>>, Seq<EntryView>)
    decreases entries.len(),
{
    if entries.len() == 0 {
        (Seq::empty(), Seq::empty())
    } else {
        let (closed, open) = split(entries.drop_last(), target);
        let grown = open.push(entries.last());
        if block_bytes(grown).len() >= target {
            (closed.push(grown), Seq::empty())
        } else {
            (closed, grown)
        }
    }
}

/// The blocks of a finished table.
pub open spec fn blocks_of(entries: Seq<EntryView>, target: nat) -> Seq<Seq<EntryView>> {
    let (closed, open) = split(entries, target);
    if open.len() == 0 {
        closed
    } else {
        closed.push(open)
    }
}

/// The data blocks, one after the other.
pub open spec fn data_of(blocks: Seq<Seq<EntryView>>) -> Seq<u8>
    decreases blocks.len(),
{
    if blocks.len() == 0 {
        Seq::empty()
    } else {
        data_of(blocks.drop_last()) + sealed(block_bytes(blocks.last()))
    }
}

/// A length as the 32 bits of a length field hold it.
#[verifier::opaque]
pub open spec fn length_field(length: nat) -> u32 {
    (length % 0x1_0000_0000) as u32
}

/// An offset or a count as the 64 bits of a field hold it.
#[verifier::opaque]
pub open spec fn offset_field(offset: nat) -> u64 {
    (offset % 0x1_0000_0000_0000_0000) as u64
}

/// A number that fits its field is held as it is.
pub proof fn lemma_fields_hold(length: nat, offset: nat)
    ensures
        length <= u32::MAX ==> length_field(length) == length,
        offset <= u64::MAX ==> offset_field(offset) == offset,
{
    reveal(length_field);
    reveal(offset_field);
}

/// The length of a block with its checksum, as the index holds it.
pub open spec fn block_length(block: Seq<EntryView>) -> u32 {
    length_field(block_bytes(block).len() + 4)
}

/// Where the block after these goes.
pub open spec fn offset_of(blocks: Seq<Seq<EntryView>>) -> u64
    decreases blocks.len(),
{
    if blocks.len() == 0 {
        0
    } else {
        offset_field((offset_of(blocks.drop_last()) + block_length(blocks.last())) as nat)
    }
}

/// The index of these blocks.
pub open spec fn index_for(blocks: Seq<Seq<EntryView>>) -> Seq<IndexView>
    decreases blocks.len(),
{
    if blocks.len() == 0 {
        Seq::empty()
    } else {
        index_for(blocks.drop_last()).push(
            IndexView {
                first_key: blocks.last()[0].0,
                offset: offset_of(blocks.drop_last()),
                length: block_length(blocks.last()),
            },
        )
    }
}

/// Some entry's key maps to bit `at`.
pub open spec fn probed_by(filter: BloomView, entries: Seq<EntryView>, at: int) -> bool {
    exists|i: int|
        0 <= i < entries.len() && probes(filter, hash_of((#[trigger] entries[i]).0), at)
}

/// The filter of a table: none if it is given no bits, else one sized for the
/// number of entries that has the bits of their keys set and no others.
pub open spec fn is_filter_for(
    filter: Option<BloomView>,
    entries: Seq<EntryView>,
    bits_per_key: nat,
) -> bool {
    match filter {
        None => bits_per_key == 0,
        Some(filter) => {
            &&& bits_per_key > 0
            &&& filter.wf()
            &&& filter.num_bits == whole_bits(bits_for(at_least_one(entries.len()), bits_per_key))
            &&& filter.num_hashes == hashes_for(at_least_one(entries.len()), filter.num_bits)
            &&& forall|at: int|
                0 <= at < filter.num_bits ==> #[trigger] bit_at(filter.bits, at) == probed_by(
                    filter,
                    entries,
                    at,
                )
        },
    }
}

/// A table has a filter exactly if it is given bits for one. It is sized for as many keys as
/// the table has, and has no bit set but those of these keys.
pub proof fn law_filters_are_sized_for_their_table(
    filter: Option<BloomView>,
    entries: Seq<EntryView>,
    bits_per_key: nat,
)
    requires
        is_filter_for(filter, entries, bits_per_key),
        entries.len() >= 1,
        entries.len() * bits_per_key <= (u32::MAX - 8) * 0x10_0000_0000_0000,
    ensures
        filter is Some <==> bits_per_key > 0,
        filter matches Some(filter) ==> {
            let unit = 0x10_0000_0000_0000int;
            &&& filter.num_bits == 8 * filter.bits.len()
            &&& filter.num_bits * unit >= entries.len() * bits_per_key
            &&& filter.num_bits > 8 ==> (filter.num_bits - 8) * unit < entries.len() * bits_per_key
            &&& forall|at: int|
                0 <= at < filter.num_bits && #[trigger] bit_at(filter.bits, at) ==> exists|i: int|
                    0 <= i < entries.len() && probes(filter, hash_of((#[trigger] entries[i]).0), at)
        },
{
    super::bloom::law_filters_have_the_bits_asked_for(entries.len(), bits_per_key);
}

/// The bytes of the filter in a table file.
pub open spec fn filter_section(filter: Option<BloomView>) -> Seq<u8> {
    match filter {
        None => Seq::empty(),
        Some(filter) => sealed(filter.encoded()),
    }
}

/// The footer of a table.
pub open spec fn footer_for(
    entries: Seq<EntryView>,
    target: nat,
    filter: Option<BloomView>,
) -> Footer {
    let blocks = blocks_of(entries, target);
    let index_length = length_field(index_bytes(index_for(blocks)).len() + 4);
    Footer {
        index_offset: offset_of(blocks),
        index_length,
        bloom_offset: match filter {
            None => 0,
            Some(_) => offset_field((offset_of(blocks) + index_length) as nat),
        },
        bloom_length: match filter {
            None => 0,
            Some(filter) => length_field(filter.encoded().len() + 4),
        },
        entry_count: offset_field(entries.len()),
    }
}

/// The file of a table.
pub open spec fn image_of(
    entries: Seq<EntryView>,
    target: nat,
    filter: Option<BloomView>,
) -> Seq<u8> {
    let blocks = blocks_of(entries, target);
    data_of(blocks) + sealed(index_bytes(index_for(blocks))) + filter_section(filter)
        + footer_bytes(footer_for(entries, target, filter))
}

/// `image` is a file for these entries.
pub open spec fn is_image(
    image: Seq<u8>,
    entries: Seq<EntryView>,
    target: nat,
    bits_per_key: nat,
) -> bool {
    exists|filter: Option<BloomView>|
        #![trigger is_filter_for(filter, entries, bits_per_key)]
        is_filter_for(filter, entries, bits_per_key) && image == image_of(entries, target, filter)
}

/// Everything in the file of these entries fits the fields of the format.
pub open spec fn storable(entries: Seq<EntryView>, target: nat) -> bool {
    &&& forall|i: int| 0 <= i < entries.len() ==> readable(#[trigger] entries[i])
    &&& forall|i: int|
        0 <= i < blocks_of(entries, target).len() ==> block_bytes(
            #[trigger] blocks_of(entries, target)[i],
        ).len() + 4 <= u32::MAX
    &&& index_bytes(index_for(blocks_of(entries, target))).len() + 4 <= u32::MAX
    &&& data_of(blocks_of(entries, target)).len() + 0x1_0000_0000 <= u64::MAX
    &&& entries.len() <= u64::MAX
}

/// What was written of a table.
#[derive(Debug, Clone, Copy, PartialEq, Eq, Structural)]
pub struct SSTableMeta {
    pub entry_count: u64,
    pub file_size_bytes: u64,
    pub block_count: usize,
}

/// Builds a table from entries that come in ascending key order.
pub struct SSTableWriter {
    file: Vec<u8>,
    offset: u64,
    block: Vec<u8>,
    block_first_key: Option<Key>,
    index: Vec<IndexEntry>,
    entry_count: u64,
    last_key: Option<Key>,
    block_target_bytes: usize,
    key_hashes: Vec<u64>,
    bloom_bits_per_key: u64,
    appended: Ghost<Seq<EntryView>>,
}

/// A key that may be absent, by its content.
pub open spec fn key_view(key: Option<Key>) -> Option<Seq<u8>> {
    match key {
        Some(key) => Some(key@),
        None => None,
    }
}

impl View for SSTableWriter {
    type V = Seq<EntryView>;

    /// The entries appended so far.
    closed spec fn view(&self) -> Seq<EntryView> {
        self.appended@
    }
}

impl SSTableWriter {
    /// The size at which a block is closed.
    pub closed spec fn target(&self) -> nat {
        self.block_target_bytes as nat
    }

    /// Bits of filter per key, in units of 2^-52.
    pub closed spec fn bits_per_key(&self) -> nat {
        self.bloom_bits_per_key as nat
    }

    /// The buffers hold these finished blocks and this open one.
    spec fn buffers(&self, finished: Seq<Seq<EntryView>>, open: Seq<EntryView>) -> bool {
        &&& self.file@ == data_of(finished)
        &&& self.offset == offset_of(finished)
        &&& self.block@ == block_bytes(open)
        &&& index_of(self.index@) == index_for(finished)
        &&& key_view(self.block_first_key) == if open.len() == 0 {
            None
        } else {
            Some(open[0].0)
        }
    }

    /// The counts, the last key and the hashes are those of these entries.
    spec fn records(&self, entries: Seq<EntryView>) -> bool {
        &&& self.appended@ == entries
        &&& key_view(self.last_key) == if entries.len() == 0 {
            None
        } else {
            Some(entries.last().0)
        }
        &&& self.entry_count == offset_field(entries.len())
        &&& self.bloom_bits_per_key == 0 ==> self.key_hashes@.len() == 0
        &&& self.bloom_bits_per_key > 0 ==> self.key_hashes@ == hashes_of(entries)
    }

    /// The buffers hold what the entries appended so far come to.
    pub closed spec fn wf(&self) -> bool {
        &&& self.block_target_bytes > 0
        &&& appendable(self.appended@)
        &&& self.records(self.appended@)
        &&& self.buffers(
            split(self.appended@, self.block_target_bytes as nat).0,
            split(self.appended@, self.block_target_bytes as nat).1,
        )
    }

    /// What a well-formed writer was given.
    pub proof fn lemma_wf(&self)
        requires
            self.wf(),
        ensures
            self.target() > 0,
            appendable(self@),
    {
    }

    /// A writer with the default block size.
    pub fn create() -> (writer: Self)
        ensures
            writer.wf(),
            writer@.len() == 0,
            writer.target() == DEFAULT_BLOCK_TARGET_BYTES,
            writer.bits_per_key() == DEFAULT_BLOOM_BITS_PER_KEY,
    {
        Self::create_with_block_size(DEFAULT_BLOCK_TARGET_BYTES)
    }

    /// A writer that closes a block as soon as it reaches `block_target_bytes`.
    pub fn create_with_block_size(block_target_bytes: usize) -> (writer: Self)
        requires
            block_target_bytes > 0,
        ensures
            writer.wf(),
            writer@.len() == 0,
            writer.target() == block_target_bytes,
            writer.bits_per_key() == DEFAULT_BLOOM_BITS_PER_KEY,
    {
        let writer = SSTableWriter {
            file: Vec::new(),
            offset: 0,
            block: Vec::new(),
            block_first_key: None,
            index: Vec::new(),
            entry_count: 0,
            last_key: None,
            block_target_bytes,
            key_hashes: Vec::new(),
            bloom_bits_per_key: DEFAULT_BLOOM_BITS_PER_KEY,
            appended: Ghost(Seq::empty()),
        };
        proof {
            assert(index_of(writer.index@) =~= Seq::<IndexView>::empty());
            lemma_fields_hold(0, 0);
            assert(writer.key_hashes@ =~= hashes_of(writer@));
        }
        writer
    }

    /// Sets how many bits of filter a key is given, in units of 2^-52. Zero
    /// leaves the filter out. Keys appended while it was left out are not in a
    /// filter, so it is not brought back behind them.
    pub fn with_bloom_bits_per_key(self, bits_per_key: u64) -> (writer: Self)
        requires
            self.wf(),
            self@.len() == 0 || self.bits_per_key() > 0,
        ensures
            writer.wf(),
            writer@ == self@,
            writer.target() == self.target(),
            writer.bits_per_key() == bits_per_key,
    {
        let mut writer = self;
        writer.bloom_bits_per_key = bits_per_key;
        if bits_per_key == 0 {
            writer.key_hashes = Vec::new();
        }
        proof {
            if self@.len() == 0 {
                assert(writer.key_hashes@ =~= hashes_of(writer@));
            }
        }
        writer
    }

    /// Whether nothing has been appended yet.
    pub fn is_empty(&self) -> (empty: bool)
        requires
            self.wf(),
        ensures
            empty == (self@.len() == 0),
    {
        self.last_key.is_none()
    }

    /// Appends one entry. Keys have to come in strictly ascending order.
    pub fn append(&mut self, key: &[u8], value: &Value) -> (outcome: Result<(), StorageError>)
        requires
            old(self).wf(),
        ensures
            final(self).wf(),
            final(self).target() == old(self).target(),
            final(self).bits_per_key() == old(self).bits_per_key(),
            outcome == append_outcome(old(self)@, (key@, value@)),
            outcome is Ok ==> final(self)@ == old(self)@.push((key@, value@)),
            outcome is Err ==> *final(self) == *old(self),
    {
        let ghost entries = self.appended@;
        let ghost entry = (key@, value@);
        match &self.last_key {
            Some(last) => {
                if !key_before(last.as_slice(), key) {
                    return Err(StorageError::KeysOutOfOrder);
                }
            },
            None => {},
        }
        if key.len() as u64 > u32::MAX as u64 {
            return Err(StorageError::TableKeyTooLarge);
        }
        if value.byte_len() as u64 > u32::MAX as u64 {
            return Err(StorageError::TableValueTooLarge);
        }
        let ghost target = self.block_target_bytes as nat;
        let ghost finished = split(entries, target).0;
        let ghost open = split(entries, target).1;
        proof {
            lemma_appendable_push(entries, entry);
            lemma_split_push(entries, entry, target);
        }
        self.buffer_entry(key, value, Ghost(finished), Ghost(open));
        self.record_entry(key, Ghost(entries), Ghost(entry));
        if self.block.len() >= self.block_target_bytes {
            self.flush_block(Ghost(finished), Ghost(open.push(entry)));
        }
        Ok(())
    }

    /// Adds an entry to the block being filled.
    fn buffer_entry(
        &mut self,
        key: &[u8],
        value: &Value,
        finished: Ghost<Seq<Seq<EntryView>>>,
        open: Ghost<Seq<EntryView>>,
    )
        requires
            old(self).buffers(finished@, open@),
            key@.len() <= u32::MAX,
            payload_len(value@) <= u32::MAX,
        ensures
            final(self).buffers(finished@, open@.push((key@, value@))),
            final(self).entry_count == old(self).entry_count,
            final(self).last_key == old(self).last_key,
            final(self).block_target_bytes == old(self).block_target_bytes,
            final(self).key_hashes == old(self).key_hashes,
            final(self).bloom_bits_per_key == old(self).bloom_bits_per_key,
            final(self).appended == old(self).appended,
    {
        match &self.block_first_key {
            None => {
                self.block_first_key = Some(copy_bytes(key));
            },
            Some(_) => {},
        }
        push_entry(&mut self.block, key, value);
        proof {
            assert(open@.push((key@, value@)).drop_last() =~= open@);
        }
    }

    /// Takes note of an entry: the count, the last key and the hash.
    fn record_entry(&mut self, key: &[u8], entries: Ghost<Seq<EntryView>>, entry: Ghost<EntryView>)
        requires
            old(self).records(entries@),
            entry@.0 == key@,
        ensures
            final(self).records(entries@.push(entry@)),
            final(self).file == old(self).file,
            final(self).offset == old(self).offset,
            final(self).block == old(self).block,
            final(self).block_first_key == old(self).block_first_key,
            final(self).index == old(self).index,
            final(self).block_target_bytes == old(self).block_target_bytes,
            final(self).bloom_bits_per_key == old(self).bloom_bits_per_key,
    {
        proof {
            reveal(offset_field);
        }
        self.entry_count = self.entry_count.wrapping_add(1);
        self.last_key = Some(copy_bytes(key));
        if self.bloom_bits_per_key > 0 {
            self.key_hashes.push(hash_key(key));
        }
        proof {
            self.appended@ = entries@.push(entry@);
            if self.bloom_bits_per_key > 0 {
                assert(self.key_hashes@ =~= hashes_of(entries@.push(entry@)));
            }
        }
    }

    /// Closes the block being filled and records it in the index.
    fn flush_block(&mut self, finished: Ghost<Seq<Seq<EntryView>>>, open: Ghost<Seq<EntryView>>)
        requires
            open@.len() > 0,
            old(self).buffers(finished@, open@),
        ensures
            final(self).buffers(finished@.push(open@), Seq::empty()),
            final(self).entry_count == old(self).entry_count,
            final(self).last_key == old(self).last_key,
            final(self).block_target_bytes == old(self).block_target_bytes,
            final(self).key_hashes == old(self).key_hashes,
            final(self).bloom_bits_per_key == old(self).bloom_bits_per_key,
            final(self).appended == old(self).appended,
    {
        let ghost blocks = finished@.push(open@);
        proof {
            assert(blocks.drop_last() =~= finished@);
        }
        let mut first_key: Option<Key> = None;
        std::mem::swap(&mut first_key, &mut self.block_first_key);
        match first_key {
            Some(first_key) => {
                push_sealed(&mut self.file, self.block.as_slice());
                let length: u32 = sealed_length(&self.block);
                let entry = IndexEntry { first_key, offset: self.offset, length };
                let ghost shown = entry@;
                let ghost before = self.index@;
                self.index.push(entry);
                proof {
                    assert(index_of(self.index@) =~= index_of(before).push(shown));
                }
                self.offset = add_offset(self.offset, length);
                self.block.clear();
                proof {
                    assert(self.block@ =~= Seq::<u8>::empty());
                }
            },
            None => {},
        }
    }

    /// Finishes the file: closes the last block, and writes the index, the
    /// filter and the footer.
    pub fn finish(self) -> (finished: (Vec<u8>, SSTableMeta))
        requires
            self.wf(),
        ensures
            is_image(finished.0@, self@, self.target(), self.bits_per_key()),
            finished.1.entry_count == offset_field(self@.len()),
            finished.1.file_size_bytes == finished.0@.len(),
            finished.1.block_count == blocks_of(self@, self.target()).len(),
    {
        let mut writer = self;
        let ghost entries = self.appended@;
        let ghost target = self.block_target_bytes as nat;
        let ghost finished = split(entries, target).0;
        let ghost open = split(entries, target).1;
        let ghost blocks = blocks_of(entries, target);
        proof {
            lemma_block_bytes_nonempty(open);
        }
        if writer.block.len() > 0 {
            writer.flush_block(Ghost(finished), Ghost(open));
        }
        let index_offset: u64 = writer.offset;
        let index_length: u32 = writer.write_index(Ghost(entries), Ghost(target));
        let filter_offset: u64 = add_offset(index_offset, index_length);
        let ghost before_filter = writer.file@;
        let ghost mut filter: Option<BloomView> = None;
        let mut bloom_offset: u64 = 0;
        let mut bloom_length: u32 = 0;
        if writer.bloom_bits_per_key > 0 {
            let built: BloomFilter = build_filter(
                &writer.key_hashes,
                writer.bloom_bits_per_key,
                Ghost(entries),
            );
            let encoded: Vec<u8> = built.encode();
            push_sealed(&mut writer.file, encoded.as_slice());
            bloom_offset = filter_offset;
            bloom_length = sealed_length(&encoded);
            proof {
                filter = Some(built@);
            }
        }
        proof {
            assert(writer.file@ =~= before_filter + filter_section(filter));
        }
        let footer = Footer {
            index_offset,
            index_length,
            bloom_offset,
            bloom_length,
            entry_count: writer.entry_count,
        };
        let footer_image: Vec<u8> = footer.encode();
        let ghost before_footer = writer.file@;
        writer.file.extend_from_slice(footer_image.as_slice());
        proof {
            assert(footer == footer_for(entries, target, filter));
            assert(writer.file@ =~= before_footer + footer_bytes(footer));
            assert(writer.file@ == image_of(entries, target, filter));
            assert(is_filter_for(filter, entries, self.bloom_bits_per_key as nat));
            lemma_index_len(blocks);
        }
        let meta = SSTableMeta {
            entry_count: writer.entry_count,
            file_size_bytes: writer.file.len() as u64,
            block_count: writer.index.len(),
        };
        (writer.file, meta)
    }

    /// Writes the index behind the data blocks and gives its length.
    fn write_index(&mut self, entries: Ghost<Seq<EntryView>>, target: Ghost<nat>) -> (length: u32)
        requires
            appendable(entries@),
            index_of(old(self).index@) == index_for(blocks_of(entries@, target@)),
        ensures
            final(self).file@ == old(self).file@ + sealed(
                index_bytes(index_for(blocks_of(entries@, target@))),
            ),
            length == length_field(
                index_bytes(index_for(blocks_of(entries@, target@))).len() + 4,
            ),
            final(self).index == old(self).index,
            final(self).entry_count == old(self).entry_count,
            final(self).key_hashes == old(self).key_hashes,
            final(self).bloom_bits_per_key == old(self).bloom_bits_per_key,
    {
        proof {
            lemma_index_keys_short(entries@, target@);
            assert forall|i: int| 0 <= i < self.index@.len() implies (
            #[trigger] self.index@[i]).first_key@.len() <= u32::MAX by {
                assert(index_of(self.index@)[i] == self.index@[i]@);
            }
        }
        let payload: Vec<u8> = encode_index(&self.index);
        push_sealed(&mut self.file, payload.as_slice());
        sealed_length(&payload)
    }
}

/// The hashes of the keys of these entries.
pub open spec fn hashes_of(entries: Seq<EntryView>) -> Seq<u64> {
    Seq::new(entries.len(), |i: int| hash_of(entries[i].0))
}

/// Entries that a writer accepts one after the other.
pub open spec fn appendable(entries: Seq<EntryView>) -> bool {
    &&& ascending(entries)
    &&& forall|i: int|
        0 <= i < entries.len() ==> (#[trigger] entries[i]).0.len() <= u32::MAX && payload_len(
            entries[i].1,
        ) <= u32::MAX
}

proof fn lemma_appendable_push(entries: Seq<EntryView>, entry: EntryView)
    requires
        appendable(entries),
        entries.len() > 0 ==> lex_lt(entries.last().0, entry.0),
        entry.0.len() <= u32::MAX,
        payload_len(entry.1) <= u32::MAX,
    ensures
        appendable(entries.push(entry)),
{
    let more = entries.push(entry);
    lemma_appended_is_last(entries, entry);
    lemma_find_push(entries, entry, entry.0);
    assert forall|i: int| 0 <= i < more.len() implies (#[trigger] more[i]).0.len() <= u32::MAX
        && payload_len(more[i].1) <= u32::MAX by {
        if i < entries.len() {
            assert(more[i] == entries[i]);
        }
    }
}

proof fn lemma_split_push(entries: Seq<EntryView>, entry: EntryView, target: nat)
    ensures
        split(entries.push(entry), target) == {
            let (finished, open) = split(entries, target);
            let grown = open.push(entry);
            if block_bytes(grown).len() >= target {
                (finished.push(grown), Seq::empty())
            } else {
                (finished, grown)
            }
        },
{
    assert(entries.push(entry).drop_last() =~= entries);
}

/// What appending an entry behind others comes to.
pub open spec fn append_outcome(entries: Seq<EntryView>, entry: EntryView) -> Result<
    (),
    StorageError,
> {
    if entries.len() > 0 && !lex_lt(entries.last().0, entry.0) {
        Err(StorageError::KeysOutOfOrder)
    } else if entry.0.len() > u32::MAX {
        Err(StorageError::TableKeyTooLarge)
    } else if payload_len(entry.1) > u32::MAX {
        Err(StorageError::TableValueTooLarge)
    } else {
        Ok(())
    }
}

/// Builds the filter of a table from the hashes of its keys.
fn build_filter(hashes: &Vec<u64>, bits_per_key: u64, entries: Ghost<Seq<EntryView>>) -> (filter:
    BloomFilter)
    requires
        bits_per_key > 0,
        hashes@ == hashes_of(entries@),
    ensures
        is_filter_for(Some(filter@), entries@, bits_per_key as nat),
{
    let mut filter: BloomFilter = BloomFilter::with_capacity(hashes.len(), bits_per_key);
    let ghost start = filter@;
    let mut i: usize = 0;
    proof {
        assert forall|at: int| 0 <= at < start.num_bits implies #[trigger] bit_at(
            filter@.bits,
            at,
        ) == probed_by(start, entries@.take(0), at) by {
            assert(!bit_at(start.bits, at));
        }
    }
    while i < hashes.len()
        invariant
            i <= hashes@.len(),
            hashes@ == hashes_of(entries@),
            start.wf(),
            filter@.wf(),
            filter@.num_bits == start.num_bits,
            filter@.num_hashes == start.num_hashes,
            forall|at: int|
                0 <= at < start.num_bits ==> #[trigger] bit_at(filter@.bits, at) == probed_by(
                    start,
                    entries@.take(i as int),
                    at,
                ),
        decreases hashes@.len() - i,
    {
        let ghost before = filter@;
        filter.insert_hash(hashes[i]);
        proof {
            let done = entries@.take(i as int);
            let more = entries@.take(i + 1);
            let hash = hash_of(entries@[i as int].0);
            assert(more[i as int] == entries@[i as int]);
            assert forall|at: int| 0 <= at < start.num_bits implies #[trigger] bit_at(
                filter@.bits,
                at,
            ) == probed_by(start, more, at) by {
                assert(bit_at(before.bits, at) == probed_by(start, done, at));
                lemma_same_probes(before, start, hash, at);
                if probed_by(start, done, at) {
                    let j = choose|j: int|
                        0 <= j < done.len() && probes(start, hash_of((#[trigger] done[j]).0), at);
                    assert(more[j] == done[j]);
                }
                if probes(start, hash, at) {
                    assert(probes(start, hash_of(more[i as int].0), at));
                }
                if probed_by(start, more, at) && !probes(start, hash, at) {
                    let j = choose|j: int|
                        0 <= j < more.len() && probes(start, hash_of((#[trigger] more[j]).0), at);
                    assert(done[j] == more[j]);
                }
            }
        }
        i = i + 1;
    }
    proof {
        assert(entries@.take(i as int) =~= entries@);
        assert forall|at: int| 0 <= at < filter@.num_bits implies #[trigger] bit_at(
            filter@.bits,
            at,
        ) == probed_by(filter@, entries@, at) by {
            assert forall|j: int| 0 <= j < entries@.len() implies probes(
                start,
                hash_of((#[trigger] entries@[j]).0),
                at,
            ) == probes(filter@, hash_of(entries@[j].0), at) by {
                lemma_same_probes(filter@, start, hash_of(entries@[j].0), at);
            }
            if probed_by(start, entries@, at) {
                let j = choose|j: int|
                    0 <= j < entries@.len() && probes(
                        start,
                        hash_of((#[trigger] entries@[j]).0),
                        at,
                    );
                assert(probes(filter@, hash_of(entries@[j].0), at));
            }
            if probed_by(filter@, entries@, at) {
                let j = choose|j: int|
                    0 <= j < entries@.len() && probes(
                        filter@,
                        hash_of((#[trigger] entries@[j]).0),
                        at,
                    );
                assert(probes(start, hash_of(entries@[j].0), at));
            }
        }
    }
    filter
}

proof fn lemma_same_probes(a: BloomView, b: BloomView, hash: u64, at: int)
    requires
        a.num_bits == b.num_bits,
        a.num_hashes == b.num_hashes,
    ensures
        probes(a, hash, at) == probes(b, hash, at),
{
}

/// The offset `length` bytes further on.
fn add_offset(offset: u64, length: u32) -> (sum: u64)
    ensures
        sum == offset_field((offset + length) as nat),
{
    proof {
        reveal(offset_field);
    }
    offset.wrapping_add(length as u64)
}

/// The length of a payload with its checksum, as a length field holds it.
fn sealed_length(payload: &Vec<u8>) -> (length: u32)
    ensures
        length == length_field(payload@.len() + 4),
{
    proof {
        reveal(length_field);
    }
    let whole: u64 = payload.len() as u64;
    let low: u32 = whole as u32;
    assert(low == whole % 0x1_0000_0000) by (bit_vector)
        requires
            low == whole as u32,
    ;
    low.wrapping_add(BLOCK_CRC_BYTES as u32)
}

proof fn lemma_appended_is_last(entries: Seq<EntryView>, entry: EntryView)
    requires
        ascending(entries),
        entries.len() > 0 ==> lex_lt(entries.last().0, entry.0),
    ensures
        forall|i: int| 0 <= i < entries.len() ==> lex_lt((#[trigger] entries[i]).0, entry.0),
{
    assert forall|i: int| 0 <= i < entries.len() implies lex_lt(
        (#[trigger] entries[i]).0,
        entry.0,
    ) by {
        if i < entries.len() - 1 {
            lemma_lex_transitive(entries[i].0, entries[entries.len() - 1].0, entry.0);
        }
    }
}

proof fn lemma_block_bytes_nonempty(entries: Seq<EntryView>)
    ensures
        (block_bytes(entries).len() == 0) == (entries.len() == 0),
{
    broadcast use lemma_le_len;

}

proof fn lemma_index_len(blocks: Seq<Seq<EntryView>>)
    ensures
        index_for(blocks).len() == blocks.len(),
    decreases blocks.len(),
{
    if blocks.len() > 0 {
        lemma_index_len(blocks.drop_last());
    }
}

/// The entries of blocks, one after the other.
pub open spec fn flatten(blocks: Seq<Seq<EntryView>>) -> Seq<EntryView>
    decreases blocks.len(),
{
    if blocks.len() == 0 {
        Seq::empty()
    } else {
        flatten(blocks.drop_last()) + blocks.last()
    }
}

/// Splitting into blocks loses nothing and leaves no closed block empty.
proof fn lemma_split_shape(entries: Seq<EntryView>, target: nat)
    ensures
        flatten(split(entries, target).0) + split(entries, target).1 == entries,
        forall|i: int|
            0 <= i < split(entries, target).0.len() ==> (#[trigger] split(
                entries,
                target,
            ).0[i]).len() > 0,
    decreases entries.len(),
{
    let (closed, open) = split(entries, target);
    if entries.len() == 0 {
        assert(flatten(closed) + open =~= entries);
    } else {
        lemma_split_shape(entries.drop_last(), target);
        let (before, was_open) = split(entries.drop_last(), target);
        let grown = was_open.push(entries.last());
        assert(flatten(before) + grown =~= (flatten(before) + was_open).push(entries.last()));
        assert(entries =~= entries.drop_last().push(entries.last()));
        if block_bytes(grown).len() >= target {
            assert(closed.drop_last() =~= before);
            assert(flatten(closed) + open =~= flatten(before) + grown);
        }
    }
}

/// The blocks of a table hold its entries, and none is empty.
pub proof fn lemma_blocks_shape(entries: Seq<EntryView>, target: nat)
    ensures
        flatten(blocks_of(entries, target)) == entries,
        forall|i: int|
            0 <= i < blocks_of(entries, target).len() ==> (#[trigger] blocks_of(
                entries,
                target,
            )[i]).len() > 0,
{
    lemma_split_shape(entries, target);
    let (closed, open) = split(entries, target);
    if open.len() == 0 {
        assert(flatten(closed) + open =~= flatten(closed));
    } else {
        assert(closed.push(open).drop_last() =~= closed);
    }
}

/// Every entry of a block is an entry of the whole.
proof fn lemma_flatten_contains(blocks: Seq<Seq<EntryView>>, b: int, i: int) -> (at: int)
    requires
        0 <= b < blocks.len(),
        0 <= i < blocks[b].len(),
    ensures
        0 <= at < flatten(blocks).len(),
        flatten(blocks)[at] == blocks[b][i],
    decreases blocks.len(),
{
    let head = flatten(blocks.drop_last());
    if b == blocks.len() - 1 {
        head.len() + i
    } else {
        assert(blocks.drop_last()[b] == blocks[b]);
        lemma_flatten_contains(blocks.drop_last(), b, i)
    }
}

proof fn lemma_index_at(blocks: Seq<Seq<EntryView>>, i: int)
    requires
        0 <= i < blocks.len(),
    ensures
        index_for(blocks).len() == blocks.len(),
        index_for(blocks)[i] == (IndexView {
            first_key: blocks[i][0].0,
            offset: offset_of(blocks.take(i)),
            length: block_length(blocks[i]),
        }),
    decreases blocks.len(),
{
    lemma_index_len(blocks);
    lemma_index_len(blocks.drop_last());
    if i == blocks.len() - 1 {
        assert(blocks.take(i) =~= blocks.drop_last());
    } else {
        lemma_index_at(blocks.drop_last(), i);
        assert(blocks.drop_last()[i] == blocks[i]);
        assert(blocks.drop_last().take(i) =~= blocks.take(i));
    }
}

proof fn lemma_index_keys_short(entries: Seq<EntryView>, target: nat)
    requires
        appendable(entries),
    ensures
        forall|i: int|
            0 <= i < index_for(blocks_of(entries, target)).len() ==> (#[trigger] index_for(
                blocks_of(entries, target),
            )[i]).first_key.len() <= u32::MAX,
{
    let blocks = blocks_of(entries, target);
    lemma_blocks_shape(entries, target);
    lemma_index_len(blocks);
    assert forall|i: int| 0 <= i < index_for(blocks).len() implies (#[trigger] index_for(
        blocks,
    )[i]).first_key.len() <= u32::MAX by {
        lemma_index_at(blocks, i);
        let at = lemma_flatten_contains(blocks, i, 0);
        assert(entries[at].0.len() <= u32::MAX);
    }
}

proof fn lemma_data_split(blocks: Seq<Seq<EntryView>>, i: int)
    requires
        0 <= i < blocks.len(),
    ensures
        data_of(blocks) == data_of(blocks.take(i)) + sealed(block_bytes(blocks[i])) + data_tail(
            blocks,
            i + 1,
        ),
    decreases blocks.len(),
{
    let head = blocks.drop_last();
    if i == blocks.len() - 1 {
        assert(blocks.take(i) =~= head);
        assert(data_of(blocks) =~= data_of(blocks.take(i)) + sealed(block_bytes(blocks[i]))
            + data_tail(blocks, i + 1));
    } else {
        lemma_data_split(head, i);
        assert(head.take(i) =~= blocks.take(i));
        assert(head[i] == blocks[i]);
        lemma_data_tail(blocks, i + 1);
        assert(data_of(blocks) =~= data_of(blocks.take(i)) + sealed(block_bytes(blocks[i]))
            + data_tail(blocks, i + 1));
    }
}

/// The data blocks from block `from` on.
spec fn data_tail(blocks: Seq<Seq<EntryView>>, from: int) -> Seq<u8>
    decreases blocks.len(),
{
    if from >= blocks.len() || blocks.len() == 0 {
        Seq::empty()
    } else {
        data_tail(blocks.drop_last(), from) + sealed(block_bytes(blocks.last()))
    }
}

proof fn lemma_data_tail(blocks: Seq<Seq<EntryView>>, from: int)
    requires
        0 <= from < blocks.len(),
    ensures
        data_tail(blocks, from) == data_tail(blocks.drop_last(), from) + sealed(
            block_bytes(blocks.last()),
        ),
{
}

/// While every block fits its length field, offsets are true.
proof fn lemma_offset_is_length(blocks: Seq<Seq<EntryView>>)
    requires
        forall|i: int|
            0 <= i < blocks.len() ==> block_bytes(#[trigger] blocks[i]).len() + 4 <= u32::MAX,
        data_of(blocks).len() <= u64::MAX,
    ensures
        offset_of(blocks) == data_of(blocks).len(),
    decreases blocks.len(),
{
    broadcast use lemma_le_len;

    if blocks.len() > 0 {
        let head = blocks.drop_last();
        assert forall|i: int| 0 <= i < head.len() implies block_bytes(#[trigger] head[i]).len() + 4
            <= u32::MAX by {
            assert(head[i] == blocks[i]);
        }
        let last = block_bytes(blocks[blocks.len() - 1]);
        assert(last.len() + 4 <= u32::MAX);
        lemma_fields_hold(last.len() + 4, data_of(blocks).len());
        lemma_offset_is_length(head);
    }
}

/// Where a block lies in the data section.
proof fn lemma_block_place(blocks: Seq<Seq<EntryView>>, i: int)
    requires
        0 <= i < blocks.len(),
        forall|b: int|
            0 <= b < blocks.len() ==> block_bytes(#[trigger] blocks[b]).len() + 4 <= u32::MAX,
        data_of(blocks).len() <= u64::MAX,
    ensures
        index_for(blocks).len() == blocks.len(),
        index_for(blocks)[i].offset == data_of(blocks.take(i)).len(),
        index_for(blocks)[i].length == block_bytes(blocks[i]).len() + 4,
        data_of(blocks.take(i)).len() <= u64::MAX,
{
    lemma_index_at(blocks, i);
    lemma_data_split(blocks, i);
    let head = blocks.take(i);
    assert forall|b: int| 0 <= b < head.len() implies block_bytes(#[trigger] head[b]).len() + 4
        <= u32::MAX by {
        assert(head[b] == blocks[b]);
    }
    assert(block_bytes(blocks[i]).len() + 4 <= u32::MAX);
    lemma_fields_hold(block_bytes(blocks[i]).len() + 4, 0);
    lemma_offset_is_length(head);
}

/// Each block of a written table is read back.
proof fn lemma_block_is_read_back(blocks: Seq<Seq<EntryView>>, rest: Seq<u8>, i: int)
    requires
        0 <= i < blocks.len(),
        forall|b: int|
            0 <= b < blocks.len() ==> block_bytes(#[trigger] blocks[b]).len() + 4 <= u32::MAX,
        forall|j: int| 0 <= j < blocks[i].len() ==> readable(#[trigger] blocks[i][j]),
        data_of(blocks).len() <= u64::MAX,
    ensures
        index_for(blocks).len() == blocks.len(),
        block_at(data_of(blocks) + rest, index_for(blocks)[i]) == Ok::<
            Seq<EntryView>,
            StorageError,
        >(blocks[i]),
{
    lemma_block_place(blocks, i);
    lemma_data_split(blocks, i);
    lemma_block_at(
        data_of(blocks.take(i)),
        blocks[i],
        data_tail(blocks, i + 1) + rest,
        data_of(blocks) + rest,
        index_for(blocks)[i],
    );
}

proof fn lemma_block_at(
    before: Seq<u8>,
    block: Seq<EntryView>,
    after: Seq<u8>,
    file: Seq<u8>,
    entry: IndexView,
)
    requires
        file =~= before + sealed(block_bytes(block)) + after,
        before.len() <= u64::MAX,
        entry.offset == before.len(),
        entry.length == block_bytes(block).len() + 4,
        forall|j: int| 0 <= j < block.len() ==> readable(#[trigger] block[j]),
    ensures
        block_at(file, entry) == Ok::<Seq<EntryView>, StorageError>(block),
{
    law_sealed_round_trip(before, block_bytes(block), after);
    law_block_round_trip(block);
}

/// A filter never rules out a key of its table.
pub proof fn law_filter_admits_every_key(
    filter: Option<BloomView>,
    entries: Seq<EntryView>,
    bits_per_key: nat,
    i: int,
)
    requires
        is_filter_for(filter, entries, bits_per_key),
        0 <= i < entries.len(),
    ensures
        filter matches Some(filter) ==> filter.may_contain(hash_of(entries[i].0)),
{
    if let Some(filter) = filter {
        let hash = hash_of(entries[i].0);
        assert forall|j: int| 0 <= j < filter.num_hashes implies bit_at(
            filter.bits,
            #[trigger] position(hash, j, filter.num_bits),
        ) by {
            let at = position(hash, j, filter.num_bits);
            assert(0 <= at < filter.num_bits);
            assert(probes(filter, hash, at));
            assert(probes(filter, hash_of(entries[i].0), at));
        }
    }
}

/// In an ascending list a scan finds what is there.
proof fn lemma_scan_finds(entries: Seq<EntryView>, key: Seq<u8>)
    requires
        ascending(entries),
    ensures
        scan(entries, key) == find(entries, key),
    decreases entries.len(),
{
    if entries.len() > 0 {
        let rest = entries.drop_first();
        assert(entries =~= seq![entries[0]] + rest);
        lemma_find_concat(seq![entries[0]], rest, key);
        lemma_lex_irreflexive(key);
        if lex_lt(entries[0].0, key) {
            lemma_scan_finds(rest, key);
            if has_key(seq![entries[0]], key) {
                let i = choose|i: int|
                    0 <= i < seq![entries[0]].len() && (#[trigger] seq![entries[0]][i]).0 == key;
                assert(i == 0);
            }
        } else if entries[0].0 == key {
            lemma_find_at(entries, 0);
        } else {
            lemma_lex_total(entries[0].0, key);
            assert forall|i: int| 0 <= i < entries.len() implies (#[trigger] entries[i]).0
                != key by {
                if i > 0 {
                    lemma_lex_transitive(key, entries[0].0, entries[i].0);
                }
            }
        }
    }
}

/// The first keys of the blocks ascend when the entries do, and the blocks
/// before and after the candidate cannot hold the key.
proof fn lemma_flatten_find(blocks: Seq<Seq<EntryView>>, key: Seq<u8>, past: int)
    requires
        ascending(flatten(blocks)),
        forall|b: int| 0 <= b < blocks.len() ==> (#[trigger] blocks[b]).len() > 0,
        0 <= past <= blocks.len(),
        past > 0 ==> lex_le(blocks[past - 1][0].0, key),
        past < blocks.len() ==> lex_lt(key, blocks[past][0].0),
    ensures
        past == 0 ==> find(flatten(blocks), key) is None,
        past > 0 ==> ascending(blocks[past - 1]) && find(flatten(blocks), key) == find(
            blocks[past - 1],
            key,
        ),
    decreases blocks.len(),
{
    if blocks.len() == 0 {
    } else {
        let head = blocks.drop_last();
        let last = blocks.last();
        lemma_find_concat(flatten(head), last, key);
        assert forall|b: int| 0 <= b < head.len() implies (#[trigger] head[b]).len() > 0 by {
            assert(head[b] == blocks[b]);
        }
        assert(last.len() > 0);
        let all = flatten(blocks);
        let base = flatten(head).len() as int;
        if past == blocks.len() {
            // Everything before the last block is below its first key.
            assert forall|i: int| 0 <= i < flatten(head).len() implies (#[trigger] flatten(
                head,
            )[i]).0 != key by {
                assert(all[i] == flatten(head)[i]);
                assert(all[base] == last[0]);
                assert(lex_lt(all[i].0, all[base].0));
                lemma_lex_mixed(all[i].0, last[0].0, key);
                lemma_lex_irreflexive(key);
            }
        } else {
            // Everything in the last block is above the key.
            if past < head.len() {
                assert(head[past] == blocks[past]);
            }
            if past > 0 {
                assert(head[past - 1] == blocks[past - 1]);
            }
            let first_above = lemma_flatten_contains(blocks, past, 0);
            assert forall|i: int| 0 <= i < last.len() implies (#[trigger] last[i]).0 != key by {
                assert(all[base + i] == last[i]);
                lemma_lex_irreflexive(key);
                if past == blocks.len() - 1 {
                    assert(all[base] == last[0]);
                    if i > 0 {
                        lemma_lex_transitive(key, last[0].0, last[i].0);
                    }
                } else {
                    let at = lemma_flatten_contains(head, past, 0);
                    assert(all[at] == flatten(head)[at]);
                    assert(lex_lt(all[at].0, all[base + i].0));
                    lemma_lex_transitive(key, all[at].0, last[i].0);
                }
            }
            lemma_flatten_find(head, key, past);
        }
    }
}

/// What `blocks_upto` counts, said of its result.
pub proof fn lemma_blocks_upto(index: Seq<IndexView>, key: Seq<u8>)
    ensures
        blocks_upto(index, key) <= index.len(),
        forall|i: int|
            0 <= i < blocks_upto(index, key) ==> lex_le((#[trigger] index[i]).first_key, key),
        blocks_upto(index, key) < index.len() ==> !lex_le(
            index[blocks_upto(index, key) as int].first_key,
            key,
        ),
    decreases index.len(),
{
    if index.len() == 0 || !lex_le(index[0].first_key, key) {
    } else {
        let rest = index.drop_first();
        lemma_blocks_upto(rest, key);
        assert forall|i: int| 0 <= i < blocks_upto(index, key) implies lex_le(
            (#[trigger] index[i]).first_key,
            key,
        ) by {
            if i > 0 {
                assert(rest[i - 1] == index[i]);
            }
        }
        if blocks_upto(index, key) < index.len() {
            assert(rest[blocks_upto(rest, key) as int] == index[blocks_upto(index, key) as int]);
        }
    }
}

/// The count is the only number with this property.
pub proof fn lemma_blocks_upto_is(index: Seq<IndexView>, key: Seq<u8>, n: int)
    requires
        0 <= n <= index.len(),
        forall|i: int| 0 <= i < n ==> lex_le((#[trigger] index[i]).first_key, key),
        n < index.len() ==> !lex_le(index[n].first_key, key),
    ensures
        blocks_upto(index, key) == n,
{
    lemma_blocks_upto(index, key);
    let m = blocks_upto(index, key) as int;
    if m < n {
        assert(lex_le(index[m].first_key, key));
    }
    if n < m {
        assert(lex_le(index[n].first_key, key));
    }
}

proof fn lemma_items_tail(table: TableView, blocks: Seq<Seq<EntryView>>, from: nat)
    requires
        table.index.len() == blocks.len(),
        from <= blocks.len(),
        forall|i: int|
            0 <= i < blocks.len() ==> block_at(table.file, #[trigger] table.index[i]) == Ok::<
                Seq<EntryView>,
                StorageError,
            >(blocks[i]),
    ensures
        ok_items(flatten(blocks.take(from as int))) + table.items_from(from) == ok_items(
            flatten(blocks),
        ),
    decreases blocks.len() - from,
{
    if from == blocks.len() {
        assert(blocks.take(from as int) =~= blocks);
        assert(ok_items(flatten(blocks)) + Seq::<Result<EntryView, StorageError>>::empty()
            =~= ok_items(flatten(blocks)));
    } else {
        lemma_items_tail(table, blocks, from + 1);
        let b = blocks[from as int];
        assert(block_at(table.file, table.index[from as int]) == Ok::<Seq<EntryView>, StorageError>(
            b,
        ));
        assert(blocks.take(from as int + 1).drop_last() =~= blocks.take(from as int));
        let head = flatten(blocks.take(from as int));
        assert(ok_items(head + b) =~= ok_items(head) + ok_items(b));
        assert(ok_items(head) + (ok_items(b) + table.items_from(from + 1)) =~= ok_items(head + b)
            + table.items_from(from + 1));
    }
}

/// A table that was written whole opens, and holds exactly what was appended:
/// by lookup, by iteration, and in its key range.
pub proof fn law_table_round_trip(
    entries: Seq<EntryView>,
    target: nat,
    bits_per_key: nat,
    image: Seq<u8>,
)
    requires
        is_image(image, entries, target, bits_per_key),
        ascending(entries),
        storable(entries, target),
    ensures
        parse_table(image) is Ok,
        parse_table(image)->Ok_0.file == image,
        parse_table(image)->Ok_0.holds(entries),
{
    let filter = choose|filter: Option<BloomView>|
        #![trigger is_filter_for(filter, entries, bits_per_key)]
        is_filter_for(filter, entries, bits_per_key) && image == image_of(entries, target, filter);
    let blocks = blocks_of(entries, target);
    let index = index_for(blocks);
    let footer = footer_for(entries, target, filter);
    lemma_blocks_shape(entries, target);
    lemma_index_len(blocks);
    lemma_sections_are_read_back(entries, target, bits_per_key, filter);
    assert forall|i: int| 0 <= i < blocks.len() implies block_at(image, #[trigger] index[i]) == Ok::<
        Seq<EntryView>,
        StorageError,
    >(blocks[i]) by {
        lemma_written_block_is_read_back(entries, target, filter, i);
    }
    if blocks.len() > 0 {
        assert(index.last() == index[blocks.len() - 1]);
        assert(blocks[blocks.len() - 1].len() > 0);
        assert(entries.last() == blocks.last().last());
        lemma_index_at(blocks, 0);
        lemma_flatten_first(blocks);
    }
    lemma_fields_hold(0, entries.len());
    let last = if entries.len() == 0 {
        None
    } else {
        Some(entries.last().0)
    };
    assert(last_key_of(image, index) == Ok::<Option<Seq<u8>>, StorageError>(last));
    let table = TableView {
        file: image,
        index,
        bloom: filter,
        entry_count: footer.entry_count,
        max_key: last,
    };
    lemma_parse_table(image, footer, table);
    lemma_items_tail(table, blocks, 0);
    assert(ok_items(flatten(blocks.take(0))) + table.items_from(0) =~= table.items_from(0));
    assert forall|key: Seq<u8>| #[trigger] table.get(key) == Ok::<
        Option<Option<Seq<u8>>>,
        StorageError,
    >(find(entries, key)) by {
        lemma_get_finds(table, entries, blocks, key, bits_per_key);
    }
    assert forall|start: Seq<u8>| #[trigger] table.items_at_or_after(start) == ok_items(
        at_or_after(entries, start),
    ) by {
        lemma_range_finds(table, entries, blocks, start);
    }
}

/// Filtering entries is filtering what they are read as.
pub proof fn lemma_filter_items(entries: Seq<EntryView>, start: Seq<u8>)
    ensures
        ok_items(entries).filter(not_below(start)) == ok_items(at_or_after(entries, start)),
    decreases entries.len(),
{
    reveal(Seq::filter);
    if entries.len() == 0 {
        assert(ok_items(entries).filter(not_below(start)) =~= ok_items(
            at_or_after(entries, start),
        ));
    } else {
        let head = entries.drop_last();
        lemma_filter_items(head, start);
        assert(ok_items(entries).drop_last() =~= ok_items(head));
        assert(ok_items(entries).last() == Ok::<EntryView, StorageError>(entries.last()));
        assert(ok_items(entries).filter(not_below(start)) =~= ok_items(
            at_or_after(entries, start),
        ));
    }
}

/// Entries that are all below `start` leave nothing.
pub proof fn lemma_all_below(entries: Seq<EntryView>, start: Seq<u8>)
    requires
        forall|i: int| 0 <= i < entries.len() ==> lex_lt((#[trigger] entries[i]).0, start),
    ensures
        at_or_after(entries, start) == Seq::<EntryView>::empty(),
    decreases entries.len(),
{
    reveal(Seq::filter);
    if entries.len() > 0 {
        let head = entries.drop_last();
        assert forall|i: int| 0 <= i < head.len() implies lex_lt(
            (#[trigger] head[i]).0,
            start,
        ) by {
            assert(head[i] == entries[i]);
        }
        lemma_all_below(head, start);
        assert(lex_lt(entries[entries.len() - 1].0, start));
    }
    assert(at_or_after(entries, start) =~= Seq::<EntryView>::empty());
}

/// Filtering a concatenation is filtering its parts.
pub proof fn lemma_at_or_after_concat(a: Seq<EntryView>, b: Seq<EntryView>, start: Seq<u8>)
    ensures
        at_or_after(a + b, start) == at_or_after(a, start) + at_or_after(b, start),
    decreases b.len(),
{
    reveal(Seq::filter);
    if b.len() == 0 {
        assert(a + b =~= a);
        assert(at_or_after(a, start) + at_or_after(b, start) =~= at_or_after(a, start));
    } else {
        assert((a + b).drop_last() =~= a + b.drop_last());
        assert((a + b).last() == b.last());
        lemma_at_or_after_concat(a, b.drop_last(), start);
        assert(at_or_after(a + b, start) =~= at_or_after(a, start) + at_or_after(b, start));
    }
}

proof fn lemma_range_finds(
    table: TableView,
    entries: Seq<EntryView>,
    blocks: Seq<Seq<EntryView>>,
    start: Seq<u8>,
)
    requires
        ascending(entries),
        flatten(blocks) == entries,
        forall|b: int| 0 <= b < blocks.len() ==> (#[trigger] blocks[b]).len() > 0,
        table.index == index_for(blocks),
        forall|i: int|
            0 <= i < blocks.len() ==> block_at(table.file, #[trigger] table.index[i]) == Ok::<
                Seq<EntryView>,
                StorageError,
            >(blocks[i]),
    ensures
        table.items_at_or_after(start) == ok_items(at_or_after(entries, start)),
{
    let past = blocks_upto(table.index, start);
    lemma_blocks_upto(table.index, start);
    lemma_index_len(blocks);
    let first = if past == 0 {
        0
    } else {
        (past - 1) as nat
    };
    let head = flatten(blocks.take(first as int));
    lemma_items_tail(table, blocks, first);
    let tail = entries.skip(head.len() as int);
    let all = ok_items(entries);
    assert(all == ok_items(head) + table.items_from(first));
    assert(head.len() <= entries.len()) by {
        assert(all.len() == entries.len());
    }
    assert forall|i: int| 0 <= i < head.len() implies #[trigger] entries[i] == head[i] by {
        assert(all[i] == ok_items(head)[i]);
    }
    assert(entries =~= head + tail);
    assert(table.items_from(first) =~= ok_items(tail)) by {
        let items = table.items_from(first);
        assert((ok_items(head) + items).len() == ok_items(head).len() + items.len());
        assert(items.len() == tail.len());
        assert forall|i: int| 0 <= i < tail.len() implies table.items_from(first)[i] == ok_items(
            tail,
        )[i] by {
            assert((ok_items(head) + items)[ok_items(head).len() + i] == items[i]);
            assert(all[head.len() + i] == Ok::<EntryView, StorageError>(entries[head.len() + i]));
        }
    }
    lemma_filter_items(tail, start);
    lemma_at_or_after_concat(head, tail, start);
    if first > 0 {
        let b = first as int;
        lemma_index_at(blocks, b);
        assert(lex_le(table.index[b].first_key, start));
        assert(blocks[b].len() > 0);
        // The first entry of that block is the first of the tail.
        assert(blocks.take(b + 1).drop_last() =~= blocks.take(b));
        assert(flatten(blocks.take(b + 1)) == head + blocks[b]);
        lemma_items_tail(table, blocks, (b + 1) as nat);
        let upto = flatten(blocks.take(b + 1));
        assert(ok_items(upto) + table.items_from((b + 1) as nat) == all);
        assert(all[head.len() as int] == ok_items(upto)[head.len() as int]);
        assert(upto[head.len() as int] == blocks[b][0]);
        assert(entries[head.len() as int] == blocks[b][0]);
        assert forall|i: int| 0 <= i < head.len() implies lex_lt(
            (#[trigger] head[i]).0,
            start,
        ) by {
            assert(entries[i] == head[i]);
            assert(lex_lt(entries[i].0, entries[head.len() as int].0));
            lemma_lex_mixed(entries[i].0, blocks[b][0].0, start);
        }
        lemma_all_below(head, start);
    } else {
        assert(blocks.take(0) =~= Seq::<Seq<EntryView>>::empty());
        assert(head =~= Seq::<EntryView>::empty());
        lemma_all_below(head, start);
    }
    assert(Seq::<EntryView>::empty() + at_or_after(tail, start) =~= at_or_after(tail, start));
}

/// The footer, the index and the filter of a written table are read back.
proof fn lemma_sections_are_read_back(
    entries: Seq<EntryView>,
    target: nat,
    bits_per_key: nat,
    filter: Option<BloomView>,
)
    requires
        ascending(entries),
        storable(entries, target),
        is_filter_for(filter, entries, bits_per_key),
    ensures
        ({
            let image = image_of(entries, target, filter);
            let footer = footer_for(entries, target, filter);
            &&& image.len() >= 44
            &&& parse_footer(image.skip(image.len() - 44)) == Ok::<Footer, StorageError>(footer)
            &&& index_from(image, footer) == Ok::<Seq<IndexView>, StorageError>(
                index_for(blocks_of(entries, target)),
            )
            &&& filter_of(image, footer) == Ok::<Option<BloomView>, StorageError>(filter)
        }),
{
    let image = image_of(entries, target, filter);
    let blocks = blocks_of(entries, target);
    let index = index_for(blocks);
    let footer = footer_for(entries, target, filter);
    let data = data_of(blocks);
    let index_section = sealed(index_bytes(index));
    let tail = footer_bytes(footer);
    lemma_footer_fields(entries, target, filter);
    lemma_footer_is_read_back(data + index_section + filter_section(filter), footer);
    lemma_appendable_if_storable(entries, target);
    lemma_index_keys_short(entries, target);
    lemma_index_is_read_back(data, index, filter_section(filter) + tail, footer);
    assert(image =~= data + index_section + (filter_section(filter) + tail));
    match filter {
        Some(f) => {
            lemma_filter_is_read_back(data + index_section, f, tail, footer);
        },
        None => {},
    }
}

proof fn lemma_appendable_if_storable(entries: Seq<EntryView>, target: nat)
    requires
        ascending(entries),
        storable(entries, target),
    ensures
        appendable(entries),
{
    assert forall|i: int| 0 <= i < entries.len() implies (#[trigger] entries[i]).0.len() <= u32::MAX
        && payload_len(entries[i].1) <= u32::MAX by {
        assert(readable(entries[i]));
    }
}

/// While everything fits, the footer holds true offsets and lengths.
proof fn lemma_footer_fields(entries: Seq<EntryView>, target: nat, filter: Option<BloomView>)
    requires
        storable(entries, target),
        filter matches Some(f) ==> f.wf(),
    ensures
        ({
            let footer = footer_for(entries, target, filter);
            let data = data_of(blocks_of(entries, target));
            let index = index_bytes(index_for(blocks_of(entries, target)));
            &&& footer.index_offset == data.len()
            &&& footer.index_length == index.len() + 4
            &&& (data + sealed(index)).len() <= u64::MAX
            &&& filter is None ==> footer.bloom_length == 0
            &&& filter matches Some(f) ==> footer.bloom_offset == (data + sealed(index)).len()
                && footer.bloom_length == f.encoded().len() + 4
        }),
{
    let blocks = blocks_of(entries, target);
    lemma_offset_is_length(blocks);
    let index = index_bytes(index_for(blocks));
    lemma_sealed_len(index);
    lemma_fields_hold(index.len() + 4, data_of(blocks).len() + index.len() + 4);
    match filter {
        Some(f) => {
            law_bloom_round_trip(f);
            lemma_fields_hold(f.encoded().len() + 4, 0);
        },
        None => {},
    }
}

proof fn lemma_sealed_len(payload: Seq<u8>)
    ensures
        sealed(payload).len() == payload.len() + 4,
{
    broadcast use lemma_le_len;

}

proof fn lemma_footer_is_read_back(front: Seq<u8>, footer: Footer)
    ensures
        (front + footer_bytes(footer)).len() >= 44,
        parse_footer(
            (front + footer_bytes(footer)).skip((front + footer_bytes(footer)).len() - 44),
        ) == Ok::<Footer, StorageError>(footer),
{
    law_footer_round_trip(footer);
    let file = front + footer_bytes(footer);
    assert(file.skip(file.len() - 44) =~= footer_bytes(footer));
}

proof fn lemma_index_is_read_back(
    before: Seq<u8>,
    index: Seq<IndexView>,
    after: Seq<u8>,
    footer: Footer,
)
    requires
        before.len() <= u64::MAX,
        footer.index_offset == before.len(),
        footer.index_length == index_bytes(index).len() + 4,
        forall|i: int| 0 <= i < index.len() ==> (#[trigger] index[i]).first_key.len() <= u32::MAX,
    ensures
        index_from(before + sealed(index_bytes(index)) + after, footer) == Ok::<
            Seq<IndexView>,
            StorageError,
        >(index),
{
    law_sealed_round_trip(before, index_bytes(index), after);
    law_index_round_trip(index);
}

proof fn lemma_filter_is_read_back(
    before: Seq<u8>,
    filter: BloomView,
    after: Seq<u8>,
    footer: Footer,
)
    requires
        before.len() <= u64::MAX,
        filter.wf(),
        footer.bloom_offset == before.len(),
        footer.bloom_length == filter.encoded().len() + 4,
    ensures
        filter_of(before + sealed(filter.encoded()) + after, footer) == Ok::<
            Option<BloomView>,
            StorageError,
        >(Some(filter)),
{
    law_sealed_round_trip(before, filter.encoded(), after);
    law_bloom_round_trip(filter);
}

/// Each block of a written table is read back through the index.
proof fn lemma_written_block_is_read_back(
    entries: Seq<EntryView>,
    target: nat,
    filter: Option<BloomView>,
    i: int,
)
    requires
        storable(entries, target),
        0 <= i < blocks_of(entries, target).len(),
    ensures
        block_at(
            image_of(entries, target, filter),
            index_for(blocks_of(entries, target))[i],
        ) == Ok::<Seq<EntryView>, StorageError>(blocks_of(entries, target)[i]),
{
    let blocks = blocks_of(entries, target);
    let rest = sealed(index_bytes(index_for(blocks))) + filter_section(filter) + footer_bytes(
        footer_for(entries, target, filter),
    );
    lemma_blocks_shape(entries, target);
    assert(image_of(entries, target, filter) =~= data_of(blocks) + rest);
    assert forall|j: int| 0 <= j < blocks[i].len() implies readable(#[trigger] blocks[i][j]) by {
        let at = lemma_flatten_contains(blocks, i, j);
        assert(readable(entries[at]));
    }
    lemma_block_is_read_back(blocks, rest, i);
}

proof fn lemma_parse_table(image: Seq<u8>, footer: Footer, table: TableView)
    requires
        image.len() >= 44,
        parse_footer(image.skip(image.len() - 44)) == Ok::<Footer, StorageError>(footer),
        index_from(image, footer) == Ok::<Seq<IndexView>, StorageError>(table.index),
        filter_of(image, footer) == Ok::<Option<BloomView>, StorageError>(table.bloom),
        last_key_of(image, table.index) == Ok::<Option<Seq<u8>>, StorageError>(table.max_key),
        table.file == image,
        table.entry_count == footer.entry_count,
    ensures
        parse_table(image) == Ok::<TableView, StorageError>(table),
{
}

proof fn lemma_flatten_first(blocks: Seq<Seq<EntryView>>)
    requires
        blocks.len() > 0,
        forall|b: int| 0 <= b < blocks.len() ==> (#[trigger] blocks[b]).len() > 0,
    ensures
        flatten(blocks).len() > 0,
        flatten(blocks)[0] == blocks[0][0],
    decreases blocks.len(),
{
    if blocks.len() == 1 {
        assert(blocks.drop_last() =~= Seq::<Seq<EntryView>>::empty());
        assert(flatten(blocks.drop_last()) =~= Seq::<EntryView>::empty());
        assert(flatten(blocks) =~= blocks[0]);
        assert(blocks[0].len() > 0);
    } else {
        let head = blocks.drop_last();
        assert forall|b: int| 0 <= b < head.len() implies (#[trigger] head[b]).len() > 0 by {
            assert(head[b] == blocks[b]);
        }
        lemma_flatten_first(head);
    }
}

proof fn lemma_get_finds(
    table: TableView,
    entries: Seq<EntryView>,
    blocks: Seq<Seq<EntryView>>,
    key: Seq<u8>,
    bits_per_key: nat,
)
    requires
        ascending(entries),
        flatten(blocks) == entries,
        forall|b: int| 0 <= b < blocks.len() ==> (#[trigger] blocks[b]).len() > 0,
        table.index == index_for(blocks),
        forall|i: int|
            0 <= i < blocks.len() ==> block_at(table.file, #[trigger] table.index[i]) == Ok::<
                Seq<EntryView>,
                StorageError,
            >(blocks[i]),
        is_filter_for(table.bloom, entries, bits_per_key),
    ensures
        table.get(key) == Ok::<Option<Option<Seq<u8>>>, StorageError>(find(entries, key)),
{
    if has_key(entries, key) {
        let i = choose|i: int| 0 <= i < entries.len() && (#[trigger] entries[i]).0 == key;
        law_filter_admits_every_key(table.bloom, entries, bits_per_key, i);
    }
    let past = blocks_upto(table.index, key) as int;
    lemma_blocks_upto(table.index, key);
    lemma_index_len(blocks);
    if past > 0 {
        lemma_index_at(blocks, past - 1);
        assert(lex_le(table.index[past - 1].first_key, key));
    }
    if past < blocks.len() {
        lemma_index_at(blocks, past);
        lemma_lex_total(blocks[past][0].0, key);
    }
    lemma_flatten_find(blocks, key, past);
    if past > 0 {
        lemma_scan_finds(blocks[past - 1], key);
    }
}

} // verus!
