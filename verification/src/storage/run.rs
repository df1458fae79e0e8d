//! Runs: sorted sequences of entries, split across tables with disjoint key
//! ranges.
//!
//! Searching a run means finding the one table whose range could hold the key
//! and probing that alone, so a run costs one lookup however many tables it
//! has.

use vstd::prelude::*;

use super::entries::{ascending, entries_of, find, has_key, lemma_find_concat, EntryView};
use super::manifest::{table_filename, table_name};
use super::memtable::{payload_len, Value};
use super::merge::{entries_or_error, lemma_all_entries, Source};
use super::order::{
    key_before, lemma_lex_irreflexive, lemma_lex_mixed, lemma_lex_transitive, lex_le, lex_lt,
};
use super::reader::{found_of, lemma_not_before, SSTable};
use super::shape::saturated;
use super::sstable::{
    append_outcome, appendable, at_or_after, is_image, items_of, law_table_round_trip,
    lemma_all_below, lemma_at_or_after_concat, ok_items, parse_table, storable, SSTableMeta,
    SSTableWriter, TableView,
};
use super::{Key, StorageError};

verus! {

/// A table and the name of its file.
#[derive(Debug)]
pub struct NamedTable {
    pub name: String,
    pub table: SSTable,
}

/// What a named table is.
#[verifier::ext_equal]
pub struct NamedView {
    pub name: Seq<char>,
    pub table: TableView,
}

impl View for NamedTable {
    type V = NamedView;

    open spec fn view(&self) -> NamedView {
        NamedView { name: self.name@, table: self.table@ }
    }
}

/// The content of a list of named tables.
pub open spec fn tables_of(tables: Seq<NamedTable>) -> Seq<NamedView> {
    Seq::new(tables.len(), |i: int| tables[i]@)
}

/// What a run is.
#[verifier::ext_equal]
pub struct RunView {
    pub sequence: nat,
    pub units: nat,
    pub tables: Seq<NamedView>,
}

// ---------------------------------------------------------------------------
// Reading a run
// ---------------------------------------------------------------------------

/// A table does not begin above `key`.
pub open spec fn begins_by(table: TableView, key: Seq<u8>) -> bool {
    match table.min_key() {
        Some(min) => lex_le(min, key),
        None => true,
    }
}

/// The number of leading tables that do not begin above `key`.
pub open spec fn tables_upto(tables: Seq<NamedView>, key: Seq<u8>) -> nat
    decreases tables.len(),
{
    if tables.len() == 0 || !begins_by(tables[0].table, key) {
        0
    } else {
        1 + tables_upto(tables.drop_first(), key)
    }
}

/// What a run alone says of `key`, or why it cannot say.
pub open spec fn run_get(tables: Seq<NamedView>, key: Seq<u8>) -> Result<
    Option<Option<Seq<u8>>>,
    StorageError,
> {
    let past = tables_upto(tables, key) as int;
    if 0 < past <= tables.len() {
        tables[past - 1].table.get(key)
    } else {
        Ok(None)
    }
}

/// What iterating over a run gives.
pub open spec fn run_items(tables: Seq<NamedView>) -> Seq<Result<EntryView, StorageError>>
    decreases tables.len(),
{
    if tables.len() == 0 {
        Seq::empty()
    } else {
        run_items(tables.drop_last()) + tables.last().table.items()
    }
}

/// A table ends below `start`, or holds nothing.
pub open spec fn ends_before(table: TableView, start: Seq<u8>) -> bool {
    match table.max_key {
        Some(max) => lex_lt(max, start),
        None => true,
    }
}

/// The number of leading tables that end below `start`.
pub open spec fn tables_before(tables: Seq<NamedView>, start: Seq<u8>) -> nat
    decreases tables.len(),
{
    if tables.len() == 0 || !ends_before(tables[0].table, start) {
        0
    } else {
        1 + tables_before(tables.drop_first(), start)
    }
}

/// What iterating over tables from `start` on gives, table by table.
pub open spec fn items_from_all(tables: Seq<NamedView>, start: Seq<u8>) -> Seq<
    Result<EntryView, StorageError>,
>
    decreases tables.len(),
{
    if tables.len() == 0 {
        Seq::empty()
    } else {
        items_from_all(tables.drop_last(), start) + tables.last().table.items_at_or_after(start)
    }
}

/// What iterating over a run from `start` on gives: the tables that end below
/// it are not opened at all.
pub open spec fn run_items_from(tables: Seq<NamedView>, start: Seq<u8>) -> Seq<
    Result<EntryView, StorageError>,
> {
    items_from_all(tables.skip(tables_before(tables, start) as int), start)
}

/// The entries of a table that can be read whole.
pub open spec fn table_entries(table: TableView) -> Seq<EntryView> {
    match entries_or_error(table.items()) {
        Ok(entries) => entries,
        Err(_) => Seq::empty(),
    }
}

/// A table can be read whole, by lookup and by iteration, and holds something.
pub open spec fn intact(table: TableView) -> bool {
    table.holds(table_entries(table)) && table_entries(table).len() > 0
}

/// The entries of tables, one after the other.
pub open spec fn run_entries(tables: Seq<NamedView>) -> Seq<EntryView>
    decreases tables.len(),
{
    if tables.len() == 0 {
        Seq::empty()
    } else {
        run_entries(tables.drop_last()) + table_entries(tables.last().table)
    }
}

/// A run can be read whole, and its tables divide its keys in ascending order.
pub open spec fn run_intact(tables: Seq<NamedView>) -> bool {
    &&& forall|i: int| 0 <= i < tables.len() ==> intact((#[trigger] tables[i]).table)
    &&& ascending(run_entries(tables))
}

/// What a table holds, it can be read for.
pub proof fn lemma_holds_is_entries(table: TableView, entries: Seq<EntryView>)
    requires
        table.holds(entries),
    ensures
        table_entries(table) == entries,
{
    lemma_all_entries(entries);
}

/// The entries of tables joined end to end.
pub proof fn lemma_run_entries_concat(a: Seq<NamedView>, b: Seq<NamedView>)
    ensures
        run_entries(a + b) == run_entries(a) + run_entries(b),
    decreases b.len(),
{
    if b.len() == 0 {
        assert(a + b =~= a);
        assert(run_entries(a) + run_entries(b) =~= run_entries(a));
    } else {
        assert((a + b).drop_last() =~= a + b.drop_last());
        lemma_run_entries_concat(a, b.drop_last());
        assert(run_entries(a + b) =~= run_entries(a) + run_entries(b));
    }
}

/// The first and the rest of the tables of a run.
pub proof fn lemma_run_entries_first(tables: Seq<NamedView>)
    requires
        tables.len() > 0,
    ensures
        run_entries(tables) == table_entries(tables[0].table) + run_entries(tables.drop_first()),
{
    let first = seq![tables[0]];
    assert(tables =~= first + tables.drop_first());
    lemma_run_entries_concat(first, tables.drop_first());
    assert(first.drop_last() =~= Seq::<NamedView>::empty());
    assert(run_entries(first.drop_last()) =~= Seq::<EntryView>::empty());
    assert(run_entries(first) =~= table_entries(tables[0].table));
}

/// The rest of an intact run is intact, and lies above its first table.
pub proof fn lemma_run_rest(tables: Seq<NamedView>)
    requires
        run_intact(tables),
        tables.len() > 0,
    ensures
        run_intact(tables.drop_first()),
        tables.drop_first().len() > 0 ==> lex_lt(
            table_entries(tables[0].table).last().0,
            table_entries(tables[1].table)[0].0,
        ),
        forall|i: int|
            0 <= i < run_entries(tables.drop_first()).len() ==> lex_lt(
                table_entries(tables[0].table).last().0,
                (#[trigger] run_entries(tables.drop_first())[i]).0,
            ),
{
    let rest = tables.drop_first();
    let all = run_entries(tables);
    let first = table_entries(tables[0].table);
    assert(intact(tables[0].table));
    lemma_run_entries_first(tables);
    lemma_find_concat(first, run_entries(rest), Seq::empty());
    assert forall|i: int| 0 <= i < rest.len() implies intact((#[trigger] rest[i]).table) by {
        assert(rest[i] == tables[i + 1]);
    }
    assert forall|i: int| 0 <= i < run_entries(rest).len() implies lex_lt(
        first.last().0,
        (#[trigger] run_entries(rest)[i]).0,
    ) by {
        assert(all[first.len() + i] == run_entries(rest)[i]);
        assert(all[first.len() - 1] == first.last());
    }
    if rest.len() > 0 {
        lemma_run_entries_first(rest);
        assert(rest[0] == tables[1]);
        assert(intact(rest[0].table));
        assert(run_entries(rest)[0] == table_entries(tables[1].table)[0]);
    }
}

/// In an intact run a lookup finds what is there.
#[verifier::rlimit(40)]
pub proof fn law_run_get_finds(tables: Seq<NamedView>, key: Seq<u8>)
    requires
        run_intact(tables),
    ensures
        run_get(tables, key) == Ok::<Option<Option<Seq<u8>>>, StorageError>(
            find(run_entries(tables), key),
        ),
    decreases tables.len(),
{
    if tables.len() == 0 {
    } else {
        let first = tables[0].table;
        let rest = tables.drop_first();
        let entries = table_entries(first);
        assert(intact(first));
        lemma_run_rest(tables);
        lemma_run_entries_first(tables);
        lemma_find_concat(entries, run_entries(rest), key);
        law_run_get_finds(rest, key);
        assert(first.min_key() == Some(entries[0].0));
        assert(first.get(key) == Ok::<Option<Option<Seq<u8>>>, StorageError>(
            find(entries, key),
        ));
        let past = tables_upto(tables, key);
        lemma_tables_upto_bound(tables, key);
        if past == 0 {
            // The key is below everything.
            lemma_not_before(key, entries[0].0);
            assert(!has_key(run_entries(tables), key)) by {
                let all = run_entries(tables);
                assert(all[0] == entries[0]);
                assert forall|i: int| 0 <= i < all.len() implies (#[trigger] all[i]).0 != key by {
                    lemma_lex_irreflexive(key);
                    if i > 0 {
                        lemma_lex_transitive(key, all[0].0, all[i].0);
                    }
                }
            }
        } else if past == 1 {
            // The next table, if there is one, begins above the key.
            assert(tables_upto(rest, key) == 0);
            if rest.len() > 0 {
                assert(rest[0] == tables[1]);
                assert(run_get(rest, key) == Ok::<Option<Option<Seq<u8>>>, StorageError>(None));
                assert(find(run_entries(rest), key) is None);
            }
        } else {
            // A later table begins by the key, so this one ends below it.
            assert(tables_upto(rest, key) == past - 1);
            assert(rest[past - 2] == tables[past - 1]);
            assert(rest[0] == tables[1]);
            assert(begins_by(rest[0].table, key));
            assert(intact(rest[0].table));
            let next = table_entries(rest[0].table)[0].0;
            assert(rest[0].table.min_key() == Some(next));
            lemma_lex_mixed(entries.last().0, next, key);
            assert(!has_key(entries, key)) by {
                assert forall|i: int| 0 <= i < entries.len() implies (#[trigger] entries[i]).0
                    != key by {
                    lemma_lex_irreflexive(key);
                    if i < entries.len() - 1 {
                        lemma_lex_transitive(entries[i].0, entries[entries.len() - 1].0, key);
                    }
                }
            }
        }
    }
}

proof fn lemma_tables_upto_bound(tables: Seq<NamedView>, key: Seq<u8>)
    ensures
        tables_upto(tables, key) <= tables.len(),
    decreases tables.len(),
{
    if tables.len() > 0 && begins_by(tables[0].table, key) {
        lemma_tables_upto_bound(tables.drop_first(), key);
    }
}

/// An intact run iterates over its entries.
pub proof fn law_run_items(tables: Seq<NamedView>)
    requires
        forall|i: int| 0 <= i < tables.len() ==> intact((#[trigger] tables[i]).table),
    ensures
        run_items(tables) == ok_items(run_entries(tables)),
    decreases tables.len(),
{
    if tables.len() == 0 {
        assert(run_items(tables) =~= ok_items(run_entries(tables)));
    } else {
        let head = tables.drop_last();
        assert forall|i: int| 0 <= i < head.len() implies intact((#[trigger] head[i]).table) by {
            assert(head[i] == tables[i]);
        }
        law_run_items(head);
        assert(intact(tables[tables.len() - 1].table));
        assert(run_items(tables) =~= ok_items(run_entries(tables)));
    }
}

/// An intact run iterates, from a key on, over its entries that are not below
/// that key.
pub proof fn law_run_items_from(tables: Seq<NamedView>, start: Seq<u8>)
    requires
        run_intact(tables),
    ensures
        run_items_from(tables, start) == ok_items(at_or_after(run_entries(tables), start)),
    decreases tables.len(),
{
    if tables.len() > 0 && ends_before(tables[0].table, start) {
        // The first table has nothing to give.
        let first = table_entries(tables[0].table);
        let rest = tables.drop_first();
        assert(intact(tables[0].table));
        lemma_run_rest(tables);
        lemma_run_entries_first(tables);
        law_run_items_from(rest, start);
        assert forall|i: int| 0 <= i < first.len() implies lex_lt(
            (#[trigger] first[i]).0,
            start,
        ) by {
            assert(first.last() == first[first.len() - 1]);
            if i < first.len() - 1 {
                lemma_lex_transitive(first[i].0, first.last().0, start);
            }
        }
        lemma_all_below(first, start);
        lemma_at_or_after_concat(first, run_entries(rest), start);
        assert(Seq::<EntryView>::empty() + at_or_after(run_entries(rest), start) =~= at_or_after(
            run_entries(rest),
            start,
        ));
        lemma_tables_before_bound(rest, start);
        assert(tables.skip(tables_before(tables, start) as int) =~= rest.skip(
            tables_before(rest, start) as int,
        ));
    } else {
        assert(tables.skip(0) =~= tables);
        lemma_items_from_all(tables, start);
    }
}

proof fn lemma_tables_before_bound(tables: Seq<NamedView>, start: Seq<u8>)
    ensures
        tables_before(tables, start) <= tables.len(),
    decreases tables.len(),
{
    if tables.len() > 0 && ends_before(tables[0].table, start) {
        lemma_tables_before_bound(tables.drop_first(), start);
    }
}

proof fn lemma_items_from_all(tables: Seq<NamedView>, start: Seq<u8>)
    requires
        forall|i: int| 0 <= i < tables.len() ==> intact((#[trigger] tables[i]).table),
    ensures
        items_from_all(tables, start) == ok_items(at_or_after(run_entries(tables), start)),
    decreases tables.len(),
{
    if tables.len() == 0 {
        lemma_all_below(run_entries(tables), start);
        assert(items_from_all(tables, start) =~= ok_items(
            at_or_after(run_entries(tables), start),
        ));
    } else {
        let head = tables.drop_last();
        let last = tables.last().table;
        assert forall|i: int| 0 <= i < head.len() implies intact((#[trigger] head[i]).table) by {
            assert(head[i] == tables[i]);
        }
        assert(intact(tables[tables.len() - 1].table));
        lemma_items_from_all(head, start);
        assert(last.items_at_or_after(start) == ok_items(
            at_or_after(table_entries(last), start),
        ));
        lemma_at_or_after_concat(run_entries(head), table_entries(last), start);
        assert(items_from_all(tables, start) =~= ok_items(
            at_or_after(run_entries(tables), start),
        ));
    }
}

/// A sorted run.
#[derive(Debug)]
pub struct Run {
    /// Creation order. Within a level, higher is newer.
    pub sequence: u64,
    /// Tables in ascending key order.
    pub tables: Vec<NamedTable>,
    /// How many memtable flushes' worth of data this stands for: 1 for a flush,
    /// the sum of its inputs for a merge.
    pub units: usize,
}

impl View for Run {
    type V = RunView;

    open spec fn view(&self) -> RunView {
        RunView {
            sequence: self.sequence as nat,
            units: self.units as nat,
            tables: tables_of(self.tables@),
        }
    }
}

/// The bytes of tables together.
pub open spec fn tables_bytes(tables: Seq<NamedView>) -> nat
    decreases tables.len(),
{
    if tables.len() == 0 {
        0
    } else {
        tables_bytes(tables.drop_last()) + tables.last().table.file.len()
    }
}

/// The entries that the footers of tables count together.
pub open spec fn tables_count(tables: Seq<NamedView>) -> nat
    decreases tables.len(),
{
    if tables.len() == 0 {
        0
    } else {
        tables_count(tables.drop_last()) + tables.last().table.entry_count as nat
    }
}

/// The smallest key of the first table.
pub open spec fn run_min(tables: Seq<NamedView>) -> Option<Seq<u8>> {
    if tables.len() == 0 {
        None
    } else {
        tables[0].table.min_key()
    }
}

/// The largest key of the last table.
pub open spec fn run_max(tables: Seq<NamedView>) -> Option<Seq<u8>> {
    if tables.len() == 0 {
        None
    } else {
        tables.last().table.max_key
    }
}

impl Run {
    /// Every table is open.
    pub open spec fn wf(&self) -> bool {
        forall|i: int| 0 <= i < self.tables@.len() ==> (#[trigger] self.tables@[i]).table.wf()
    }

    /// Creation order. Within a level, higher is newer.
    pub fn sequence(&self) -> (sequence: u64)
        ensures
            sequence == self@.sequence,
    {
        self.sequence
    }

    /// How many memtable flushes' worth of data this stands for.
    pub fn units(&self) -> (units: usize)
        ensures
            units == self@.units,
    {
        self.units
    }

    /// The number of tables.
    pub fn file_count(&self) -> (count: usize)
        ensures
            count == self@.tables.len(),
    {
        self.tables.len()
    }

    /// The bytes of the run.
    pub fn bytes(&self) -> (bytes: u64)
        ensures
            bytes == saturated(tables_bytes(self@.tables)),
    {
        let ghost tables = tables_of(self.tables@);
        let mut total: u64 = 0;
        let mut i: usize = 0;
        while i < self.tables.len()
            invariant
                i <= self.tables@.len(),
                tables == tables_of(self.tables@),
                total == saturated(tables_bytes(tables.take(i as int))),
            decreases self.tables@.len() - i,
        {
            proof {
                assert(tables.take(i + 1).drop_last() =~= tables.take(i as int));
                assert(tables.take(i + 1).last() == self.tables@[i as int]@);
            }
            total = total.saturating_add(self.tables[i].table.file_size_bytes());
            i = i + 1;
        }
        proof {
            assert(tables.take(i as int) =~= tables);
        }
        total
    }

    /// The number of entries, as the footers have it.
    pub fn entry_count(&self) -> (count: u64)
        ensures
            count == saturated(tables_count(self@.tables)),
    {
        let ghost tables = tables_of(self.tables@);
        let mut total: u64 = 0;
        let mut i: usize = 0;
        while i < self.tables.len()
            invariant
                i <= self.tables@.len(),
                tables == tables_of(self.tables@),
                total == saturated(tables_count(tables.take(i as int))),
            decreases self.tables@.len() - i,
        {
            proof {
                assert(tables.take(i + 1).drop_last() =~= tables.take(i as int));
                assert(tables.take(i + 1).last() == self.tables@[i as int]@);
            }
            total = total.saturating_add(self.tables[i].table.entry_count());
            i = i + 1;
        }
        proof {
            assert(tables.take(i as int) =~= tables);
        }
        total
    }

    /// The smallest key.
    pub fn min_key(&self) -> (key: Option<&Key>)
        ensures
            match key {
                Some(key) => run_min(self@.tables) == Some(key@),
                None => run_min(self@.tables) is None,
            },
    {
        if self.tables.len() == 0 {
            None
        } else {
            self.tables[0].table.min_key()
        }
    }

    /// The largest key.
    pub fn max_key(&self) -> (key: Option<&Key>)
        ensures
            match key {
                Some(key) => run_max(self@.tables) == Some(key@),
                None => run_max(self@.tables) is None,
            },
    {
        if self.tables.len() == 0 {
            None
        } else {
            let last: usize = self.tables.len() - 1;
            proof {
                assert(self@.tables.last() == self.tables@[last as int]@);
            }
            self.tables[last].table.max_key()
        }
    }

    /// Looks `key` up in this run: the last table that does not begin above it
    /// is the only one that could hold it.
    pub fn get(&self, key: &[u8]) -> (found: Result<Option<Value>, StorageError>)
        requires
            self.wf(),
        ensures
            found_of(found) == run_get(self@.tables, key@),
    {
        let ghost tables = tables_of(self.tables@);
        let mut past: usize = 0;
        proof {
            assert(tables.skip(0) =~= tables);
        }
        while past < self.tables.len() && table_begins_by(&self.tables[past].table, key)
            invariant
                past <= self.tables@.len(),
                tables == tables_of(self.tables@),
                tables_upto(tables, key@) == past + tables_upto(tables.skip(past as int), key@),
            decreases self.tables@.len() - past,
        {
            proof {
                assert(tables.skip(past as int)[0] == self.tables@[past as int]@);
                assert(tables.skip(past as int).drop_first() =~= tables.skip(past + 1));
            }
            past = past + 1;
        }
        proof {
            if past < self.tables@.len() {
                assert(tables.skip(past as int)[0] == self.tables@[past as int]@);
            }
        }
        if past == 0 {
            Ok(None)
        } else {
            self.tables[past - 1].table.get(key)
        }
    }

    /// Every entry in ascending key order, tombstones included.
    pub fn source(&self) -> (source: Source)
        requires
            self.wf(),
        ensures
            items_of(source@) == run_items(self@.tables),
    {
        let ghost tables = tables_of(self.tables@);
        let mut source: Source = Vec::new();
        let mut i: usize = 0;
        proof {
            assert(items_of(source@) =~= run_items(tables.take(0)));
        }
        while i < self.tables.len()
            invariant
                i <= self.tables@.len(),
                self.wf(),
                tables == tables_of(self.tables@),
                items_of(source@) == run_items(tables.take(i as int)),
            decreases self.tables@.len() - i,
        {
            let ghost before = source@;
            let mut more: Source = self.tables[i].table.entries();
            let ghost added = more@;
            source.append(&mut more);
            proof {
                assert(items_of(source@) =~= items_of(before) + items_of(added));
                assert(tables.take(i + 1).drop_last() =~= tables.take(i as int));
                assert(tables.take(i + 1).last() == self.tables@[i as int]@);
            }
            i = i + 1;
        }
        proof {
            assert(tables.take(i as int) =~= tables);
        }
        source
    }

    /// The entries at or after `start`, in ascending key order.
    pub fn source_from(&self, start: &[u8]) -> (source: Source)
        requires
            self.wf(),
        ensures
            items_of(source@) == run_items_from(self@.tables, start@),
    {
        let ghost tables = tables_of(self.tables@);
        let mut first: usize = 0;
        proof {
            assert(tables.skip(0) =~= tables);
        }
        while first < self.tables.len() && table_ends_before(&self.tables[first].table, start)
            invariant
                first <= self.tables@.len(),
                tables == tables_of(self.tables@),
                tables_before(tables, start@) == first + tables_before(
                    tables.skip(first as int),
                    start@,
                ),
            decreases self.tables@.len() - first,
        {
            proof {
                assert(tables.skip(first as int)[0] == self.tables@[first as int]@);
                assert(tables.skip(first as int).drop_first() =~= tables.skip(first + 1));
            }
            first = first + 1;
        }
        proof {
            if first < self.tables@.len() {
                assert(tables.skip(first as int)[0] == self.tables@[first as int]@);
            }
        }
        let ghost rest = tables.skip(first as int);
        let mut source: Source = Vec::new();
        let mut i: usize = first;
        proof {
            assert(items_of(source@) =~= items_from_all(rest.take(0), start@));
        }
        while i < self.tables.len()
            invariant
                first <= i <= self.tables@.len(),
                self.wf(),
                tables == tables_of(self.tables@),
                rest == tables.skip(first as int),
                items_of(source@) == items_from_all(rest.take(i - first), start@),
            decreases self.tables@.len() - i,
        {
            let ghost before = source@;
            let mut more: Source = self.tables[i].table.range_from(start);
            let ghost added = more@;
            source.append(&mut more);
            proof {
                assert(items_of(source@) =~= items_of(before) + items_of(added));
                assert(rest.take(i - first + 1).drop_last() =~= rest.take(i - first));
                assert(rest.take(i - first + 1).last() == self.tables@[i as int]@);
            }
            i = i + 1;
        }
        proof {
            assert(rest.take(i - first) =~= rest);
        }
        source
    }

    /// Zeroes the counters of every table.
    pub fn reset_counters(&self) {
        let mut i: usize = 0;
        while i < self.tables.len()
            invariant
                i <= self.tables@.len(),
            decreases self.tables@.len() - i,
        {
            self.tables[i].table.reset_counters();
            i = i + 1;
        }
    }
}

fn table_begins_by(table: &SSTable, key: &[u8]) -> (begins: bool)
    ensures
        begins == begins_by(table@, key@),
{
    match table.min_key() {
        Some(min) => {
            proof {
                lemma_not_before(key@, min@);
            }
            !key_before(key, min.as_slice())
        },
        None => true,
    }
}

fn table_ends_before(table: &SSTable, start: &[u8]) -> (ends: bool)
    ensures
        ends == ends_before(table@, start@),
{
    match table.max_key() {
        Some(max) => key_before(max.as_slice(), start),
        None => true,
    }
}

// ---------------------------------------------------------------------------
// Writing a run
// ---------------------------------------------------------------------------

/// How tables are written.
#[derive(Debug, Clone, Copy, PartialEq, Eq, Structural)]
pub struct TableOptions {
    /// The size at which a block is closed.
    pub block_target_bytes: usize,
    /// Bits of filter per key, in units of 2^-52; zero leaves filters out.
    pub bloom_bits_per_key: u64,
    /// The size at which a run goes on in another table.
    pub target_file_size_bytes: u64,
}

/// The key and value bytes of entries.
pub open spec fn payload_sum(entries: Seq<EntryView>) -> nat
    decreases entries.len(),
{
    if entries.len() == 0 {
        0
    } else {
        payload_sum(entries.drop_last()) + entries.last().0.len() + payload_len(entries.last().1)
    }
}

/// The finished parts and the open one after these entries: a part is finished
/// as soon as its key and value bytes reach `limit`.
pub open spec fn part_split(entries: Seq<EntryView>, limit: nat) -> (
    Seq<Seq<EntryView>>,
    Seq<EntryView>,
)
    decreases entries.len(),
{
    if entries.len() == 0 {
        (Seq::empty(), Seq::empty())
    } else {
        let (finished, open) = part_split(entries.drop_last(), limit);
        let grown = open.push(entries.last());
        if payload_sum(grown) >= limit {
            (finished.push(grown), Seq::empty())
        } else {
            (finished, grown)
        }
    }
}

/// The parts that a run is written in.
pub open spec fn parts_of(entries: Seq<EntryView>, limit: nat) -> Seq<Seq<EntryView>> {
    let (finished, open) = part_split(entries, limit);
    if open.len() == 0 {
        finished
    } else {
        finished.push(open)
    }
}

/// A table is what writing a part and opening the file gives.
pub open spec fn is_part(table: TableView, part: Seq<EntryView>, options: TableOptions) -> bool {
    &&& is_image(
        table.file,
        part,
        options.block_target_bytes as nat,
        options.bloom_bits_per_key as nat,
    )
    &&& parse_table(table.file) == Ok::<TableView, StorageError>(table)
}

/// Tables are what writing parts gives, under their names.
pub open spec fn are_parts(
    tables: Seq<NamedView>,
    parts: Seq<Seq<EntryView>>,
    level: nat,
    sequence: nat,
    options: TableOptions,
) -> bool {
    &&& tables.len() == parts.len()
    &&& forall|i: int|
        0 <= i < parts.len() ==> (#[trigger] tables[i]).name == table_name(
            level,
            sequence,
            i as nat,
        ) && is_part(tables[i].table, parts[i], options)
}

/// Every part fits the format of a table.
pub open spec fn parts_storable(entries: Seq<EntryView>, options: TableOptions) -> bool {
    forall|i: int|
        0 <= i < parts_of(entries, options.target_file_size_bytes as nat).len() ==> storable(
            #[trigger] parts_of(entries, options.target_file_size_bytes as nat)[i],
            options.block_target_bytes as nat,
        )
}

/// A part was written as a table that opens.
pub open spec fn opens(part: Seq<EntryView>, options: TableOptions) -> bool {
    exists|table: TableView| #[trigger] is_part(table, part, options)
}

/// A part was written as a file that does not open, for this reason.
pub open spec fn is_refused(part: Seq<EntryView>, options: TableOptions, error: StorageError) -> bool {
    exists|file: Seq<u8>| #[trigger]
        is_image(
            file,
            part,
            options.block_target_bytes as nat,
            options.bloom_bits_per_key as nat,
        ) && parse_table(file) == Err::<TableView, StorageError>(error)
}

/// An entry can be appended where those before it left off.
pub open spec fn appends(entries: Seq<EntryView>, options: TableOptions, i: int) -> bool {
    append_outcome(
        part_split(entries.take(i), options.target_file_size_bytes as nat).1,
        entries[i],
    ) is Ok
}

/// All parts were written as tables that open.
pub open spec fn all_open(parts: Seq<Seq<EntryView>>, options: TableOptions) -> bool {
    forall|j: int| 0 <= j < parts.len() ==> opens(#[trigger] parts[j], options)
}

/// The first `n` entries were appended, and the parts that they finish opened.
#[verifier::opaque]
pub open spec fn is_written_upto(entries: Seq<EntryView>, options: TableOptions, n: int) -> bool {
    &&& forall|i: int| 0 <= i < n ==> #[trigger] appends(entries, options, i)
    &&& all_open(part_split(entries.take(n), options.target_file_size_bytes as nat).0, options)
}

/// Writing goes well for the first `n` entries, and then stops for this reason: the
/// next entry cannot be appended, or the part that it finishes does not open, or
/// there is none and the last part does not open.
#[verifier::opaque]
pub open spec fn stops_at(
    entries: Seq<EntryView>,
    options: TableOptions,
    n: int,
    error: StorageError,
) -> bool {
    let limit = options.target_file_size_bytes as nat;
    let open = part_split(entries.take(n), limit).1;
    &&& 0 <= n <= entries.len()
    &&& is_written_upto(entries, options, n)
    &&& if n == entries.len() {
        open.len() > 0 && is_refused(open, options, error)
    } else {
        match append_outcome(open, entries[n]) {
            Err(reason) => reason == error,
            Ok(()) => payload_sum(open.push(entries[n])) >= limit && is_refused(
                open.push(entries[n]),
                options,
                error,
            ),
        }
    }
}

/// Why entries cannot be written as a run: they do not ascend or do not fit, and the
/// first entry or part that is refused gives the reason.
pub open spec fn is_write_error(
    entries: Seq<EntryView>,
    options: TableOptions,
    error: StorageError,
) -> bool {
    &&& !(appendable(entries) && parts_storable(entries, options))
    &&& exists|n: int| #[trigger] stops_at(entries, options, n, error)
}

/// The entries of parts, one after the other.
pub open spec fn join(parts: Seq<Seq<EntryView>>) -> Seq<EntryView>
    decreases parts.len(),
{
    if parts.len() == 0 {
        Seq::empty()
    } else {
        join(parts.drop_last()) + parts.last()
    }
}

proof fn lemma_part_split(entries: Seq<EntryView>, limit: nat)
    ensures
        join(part_split(entries, limit).0) + part_split(entries, limit).1 == entries,
        forall|i: int|
            0 <= i < part_split(entries, limit).0.len() ==> (#[trigger] part_split(
                entries,
                limit,
            ).0[i]).len() > 0,
    decreases entries.len(),
{
    let (finished, open) = part_split(entries, limit);
    if entries.len() == 0 {
        assert(join(finished) + open =~= entries);
    } else {
        lemma_part_split(entries.drop_last(), limit);
        let (before, was_open) = part_split(entries.drop_last(), limit);
        let grown = was_open.push(entries.last());
        assert(join(before) + grown =~= (join(before) + was_open).push(entries.last()));
        assert(entries =~= entries.drop_last().push(entries.last()));
        if payload_sum(grown) >= limit {
            assert(finished.drop_last() =~= before);
            assert(join(finished) + open =~= join(before) + grown);
        }
    }
}

/// The parts of a run hold its entries, and none is empty.
pub proof fn lemma_parts(entries: Seq<EntryView>, limit: nat)
    ensures
        join(parts_of(entries, limit)) == entries,
        forall|i: int|
            0 <= i < parts_of(entries, limit).len() ==> (#[trigger] parts_of(
                entries,
                limit,
            )[i]).len() > 0,
        entries.len() == 0 <==> parts_of(entries, limit).len() == 0,
{
    lemma_part_split(entries, limit);
    let (finished, open) = part_split(entries, limit);
    if open.len() == 0 {
        assert(join(finished) + open =~= join(finished));
    } else {
        assert(finished.push(open).drop_last() =~= finished);
    }
    let parts = parts_of(entries, limit);
    if parts.len() > 0 {
        assert(parts[parts.len() - 1].len() > 0);
        assert(join(parts).len() >= parts.last().len());
    }
}

/// Each part of an ascending list ascends.
proof fn lemma_part_ascends(parts: Seq<Seq<EntryView>>, i: int)
    requires
        ascending(join(parts)),
        0 <= i < parts.len(),
    ensures
        ascending(parts[i]),
    decreases parts.len(),
{
    lemma_find_concat(join(parts.drop_last()), parts.last(), Seq::empty());
    if i < parts.len() - 1 {
        assert(parts.drop_last()[i] == parts[i]);
        lemma_part_ascends(parts.drop_last(), i);
    }
}

/// A run that was written holds exactly the entries that it was written from.
pub proof fn law_written_run_is_intact(
    tables: Seq<NamedView>,
    entries: Seq<EntryView>,
    level: nat,
    sequence: nat,
    options: TableOptions,
)
    requires
        ascending(entries),
        parts_storable(entries, options),
        are_parts(
            tables,
            parts_of(entries, options.target_file_size_bytes as nat),
            level,
            sequence,
            options,
        ),
    ensures
        run_intact(tables),
        run_entries(tables) == entries,
{
    let parts = parts_of(entries, options.target_file_size_bytes as nat);
    lemma_parts(entries, options.target_file_size_bytes as nat);
    assert forall|i: int| 0 <= i < tables.len() implies intact((#[trigger] tables[i]).table)
        && table_entries(tables[i].table) == parts[i] by {
        assert(is_part(tables[i].table, parts[i], options));
        lemma_part_ascends(parts, i);
        assert(storable(parts[i], options.block_target_bytes as nat));
        law_table_round_trip(
            parts[i],
            options.block_target_bytes as nat,
            options.bloom_bits_per_key as nat,
            tables[i].table.file,
        );
        lemma_holds_is_entries(tables[i].table, parts[i]);
        assert(parts[i].len() > 0);
    }
    lemma_join_entries(tables, parts);
}

proof fn lemma_join_entries(tables: Seq<NamedView>, parts: Seq<Seq<EntryView>>)
    requires
        tables.len() == parts.len(),
        forall|i: int|
            0 <= i < tables.len() ==> table_entries((#[trigger] tables[i]).table) == parts[i],
    ensures
        run_entries(tables) == join(parts),
    decreases tables.len(),
{
    if tables.len() > 0 {
        let head = tables.drop_last();
        assert forall|i: int| 0 <= i < head.len() implies table_entries((#[trigger] head[i]).table)
            == parts.drop_last()[i] by {
            assert(head[i] == tables[i]);
        }
        lemma_join_entries(head, parts.drop_last());
        assert(table_entries(tables[tables.len() - 1].table) == parts[parts.len() - 1]);
    }
}

/// Finished parts stay what they are as more entries come.
proof fn lemma_split_part_is_part(entries: Seq<EntryView>, limit: nat, n: int)
    requires
        0 <= n <= entries.len(),
    ensures
        part_split(entries.take(n), limit).0.len() <= parts_of(entries, limit).len(),
        forall|j: int|
            0 <= j < part_split(entries.take(n), limit).0.len() ==> #[trigger] part_split(
                entries.take(n),
                limit,
            ).0[j] == parts_of(entries, limit)[j],
    decreases entries.len() - n,
{
    let now = part_split(entries.take(n), limit).0;
    if n == entries.len() {
        assert(entries.take(n) =~= entries);
    } else {
        lemma_split_part_is_part(entries, limit, n + 1);
        let next = part_split(entries.take(n + 1), limit).0;
        assert(entries.take(n + 1).drop_last() =~= entries.take(n));
        assert forall|j: int| 0 <= j < now.len() implies #[trigger] now[j] == parts_of(
            entries,
            limit,
        )[j] by {
            assert(next[j] == now[j]);
        }
    }
}

/// The next of entries that ascend can be appended to the open part.
proof fn lemma_append_is_ok(entries: Seq<EntryView>, limit: nat, i: int)
    requires
        appendable(entries),
        0 <= i < entries.len(),
    ensures
        append_outcome(part_split(entries.take(i), limit).1, entries[i]) is Ok,
{
    let done = entries.take(i);
    let (finished, open) = part_split(done, limit);
    lemma_part_split(done, limit);
    if open.len() > 0 {
        assert(done.last() == open.last());
        assert(done.last() == entries[i - 1]);
        assert(lex_lt(entries[i - 1].0, entries[i].0));
    }
    assert(entries[i].0.len() <= u32::MAX);
}

/// One more entry was appended, and the part that it finishes, if any, opened.
proof fn lemma_written_next(
    entries: Seq<EntryView>,
    options: TableOptions,
    i: int,
    tables: Seq<NamedView>,
    level: nat,
    sequence: nat,
)
    requires
        0 <= i < entries.len(),
        is_written_upto(entries, options, i),
        appends(entries, options, i),
        are_parts(
            tables,
            part_split(entries.take(i + 1), options.target_file_size_bytes as nat).0,
            level,
            sequence,
            options,
        ),
    ensures
        is_written_upto(entries, options, i + 1),
{
    let parts = part_split(entries.take(i + 1), options.target_file_size_bytes as nat).0;
    lemma_tables_open(tables, parts, level, sequence, options);
    reveal(is_written_upto);
    assert forall|j: int| 0 <= j < i + 1 implies #[trigger] appends(entries, options, j) by {}
}

/// Parts that there are tables of opened.
proof fn lemma_tables_open(
    tables: Seq<NamedView>,
    parts: Seq<Seq<EntryView>>,
    level: nat,
    sequence: nat,
    options: TableOptions,
)
    requires
        are_parts(tables, parts, level, sequence, options),
    ensures
        all_open(parts, options),
{
    assert forall|j: int| 0 <= j < parts.len() implies opens(#[trigger] parts[j], options) by {
        assert(tables[j].name == table_name(level, sequence, j as nat));
        assert(is_part(tables[j].table, parts[j], options));
    }
}

/// Writing stops at an entry that cannot be appended.
proof fn lemma_stops_at_entry(
    entries: Seq<EntryView>,
    options: TableOptions,
    i: int,
    error: StorageError,
)
    requires
        0 <= i < entries.len(),
        is_written_upto(entries, options, i),
        append_outcome(
            part_split(entries.take(i), options.target_file_size_bytes as nat).1,
            entries[i],
        ) == Err::<(), StorageError>(error),
    ensures
        stops_at(entries, options, i, error),
{
    reveal(stops_at);
}

/// Writing stops at an entry that finishes a part that does not open.
proof fn lemma_stops_at_part(
    entries: Seq<EntryView>,
    options: TableOptions,
    i: int,
    error: StorageError,
)
    requires
        0 <= i < entries.len(),
        is_written_upto(entries, options, i),
        ({
            let limit = options.target_file_size_bytes as nat;
            let open = part_split(entries.take(i), limit).1;
            &&& append_outcome(open, entries[i]) is Ok
            &&& payload_sum(open.push(entries[i])) >= limit
            &&& is_refused(open.push(entries[i]), options, error)
        }),
    ensures
        stops_at(entries, options, i, error),
{
    reveal(stops_at);
}

/// Writing stops at the end if the last part does not open.
proof fn lemma_stops_at_end(entries: Seq<EntryView>, options: TableOptions, error: StorageError)
    requires
        is_written_upto(entries, options, entries.len() as int),
        ({
            let open = part_split(entries, options.target_file_size_bytes as nat).1;
            open.len() > 0 && is_refused(open, options, error)
        }),
    ensures
        stops_at(entries, options, entries.len() as int, error),
{
    reveal(stops_at);
    assert(entries.take(entries.len() as int) =~= entries);
}

/// Finishes a part: writes its table and opens it.
fn finish_part(
    writer: SSTableWriter,
    level: usize,
    sequence: u64,
    part: usize,
    options: TableOptions,
) -> (finished: Result<NamedTable, StorageError>)
    requires
        writer.wf(),
        writer.target() == options.block_target_bytes,
        writer.bits_per_key() == options.bloom_bits_per_key,
    ensures
        match finished {
            Ok(table) => table.table.wf() && table@.name == table_name(
                level as nat,
                sequence as nat,
                part as nat,
            ) && is_part(table@.table, writer@, options),
            Err(error) => !storable(writer@, options.block_target_bytes as nat) && is_refused(
                writer@,
                options,
                error,
            ),
        },
{
    let ghost entries = writer@;
    proof {
        writer.lemma_wf();
    }
    let (image, _): (Vec<u8>, SSTableMeta) = writer.finish();
    let ghost bytes = image@;
    match SSTable::open(image) {
        Ok(table) => {
            proof {
                lemma_parse_keeps_file(bytes);
            }
            Ok(NamedTable { name: table_filename(level, sequence, part), table })
        },
        Err(error) => {
            proof {
                if storable(entries, options.block_target_bytes as nat) {
                    law_table_round_trip(
                        entries,
                        options.block_target_bytes as nat,
                        options.bloom_bits_per_key as nat,
                        bytes,
                    );
                }
            }
            Err(error)
        },
    }
}

proof fn lemma_parse_keeps_file(file: Seq<u8>)
    ensures
        parse_table(file) matches Ok(table) ==> table.file == file,
{
}

/// Writes entries as a new run, going on in another table whenever one has
/// reached its size. There is no run if there are no entries.
pub fn write_run(
    options: TableOptions,
    level: usize,
    sequence: u64,
    units: usize,
    entries: &[(Key, Value)],
) -> (written: Result<Option<Run>, StorageError>)
    requires
        options.block_target_bytes > 0,
    ensures
        match written {
            Ok(Some(run)) => {
                &&& run.wf()
                &&& entries@.len() > 0
                &&& run@.sequence == sequence
                &&& run@.units == units
                &&& are_parts(
                    run@.tables,
                    parts_of(entries_of(entries@), options.target_file_size_bytes as nat),
                    level as nat,
                    sequence as nat,
                    options,
                )
            },
            Ok(None) => entries@.len() == 0,
            Err(error) => is_write_error(entries_of(entries@), options, error),
        },
{
    let ghost view = entries_of(entries@);
    let ghost limit = options.target_file_size_bytes as nat;
    let mut tables: Vec<NamedTable> = Vec::new();
    let mut writer: SSTableWriter = SSTableWriter::create_with_block_size(
        options.block_target_bytes,
    ).with_bloom_bits_per_key(options.bloom_bits_per_key);
    let mut bytes_in_part: u64 = 0;
    let mut i: usize = 0;
    proof {
        assert(writer@ =~= part_split(view.take(0), limit).1);
        assert(tables_of(tables@).len() == 0);
        reveal(is_written_upto);
    }
    while i < entries.len()
        invariant
            i <= entries@.len(),
            options.block_target_bytes > 0,
            view == entries_of(entries@),
            limit == options.target_file_size_bytes,
            writer.wf(),
            writer.target() == options.block_target_bytes,
            writer.bits_per_key() == options.bloom_bits_per_key,
            writer@ == part_split(view.take(i as int), limit).1,
            bytes_in_part == saturated(payload_sum(writer@)),
            is_written_upto(view, options, i as int),
            forall|j: int| 0 <= j < tables@.len() ==> (#[trigger] tables@[j]).table.wf(),
            are_parts(
                tables_of(tables@),
                part_split(view.take(i as int), limit).0,
                level as nat,
                sequence as nat,
                options,
            ),
        decreases entries@.len() - i,
    {
        let key: &Key = &entries[i].0;
        let value: &Value = &entries[i].1;
        let ghost entry = (key@, value@);
        let ghost done = view.take(i as int);
        let ghost was_open = writer@;
        proof {
            assert(view[i as int] == entry);
            assert(view.take(i + 1) =~= done.push(entry));
            assert(done.push(entry).drop_last() =~= done);
            assert(was_open.push(entry).drop_last() =~= was_open);
        }
        match writer.append(key.as_slice(), value) {
            Ok(()) => {},
            Err(error) => {
                proof {
                    if appendable(view) {
                        lemma_append_is_ok(view, limit, i as int);
                    }
                    lemma_stops_at_entry(view, options, i as int, error);
                }
                return Err(error);
            },
        }
        bytes_in_part = bytes_in_part.saturating_add(key.len() as u64).saturating_add(
            value.byte_len() as u64,
        );
        if bytes_in_part >= options.target_file_size_bytes {
            let ghost part = writer@;
            let ghost before = tables_of(tables@);
            let mut next: SSTableWriter = SSTableWriter::create_with_block_size(
                options.block_target_bytes,
            ).with_bloom_bits_per_key(options.bloom_bits_per_key);
            std::mem::swap(&mut writer, &mut next);
            let index: usize = tables.len();
            match finish_part(next, level, sequence, index, options) {
                Ok(table) => {
                    let ghost shown = table@;
                    tables.push(table);
                    proof {
                        assert(tables_of(tables@) =~= before.push(shown));
                        let parts = part_split(view.take(i + 1), limit).0;
                        assert(parts == part_split(done, limit).0.push(part));
                        assert forall|j: int| 0 <= j < parts.len() implies (
                        #[trigger] tables_of(tables@)[j]).name == table_name(
                            level as nat,
                            sequence as nat,
                            j as nat,
                        ) && is_part(tables_of(tables@)[j].table, parts[j], options) by {
                            if j < before.len() {
                                assert(before[j] == tables_of(tables@)[j]);
                            }
                        }
                    }
                },
                Err(error) => {
                    proof {
                        lemma_split_part_is_part(view, limit, i + 1);
                        let parts = part_split(view.take(i + 1), limit).0;
                        assert(parts[parts.len() - 1] == part);
                        lemma_stops_at_part(view, options, i as int, error);
                    }
                    return Err(error);
                },
            }
            bytes_in_part = 0;
            proof {
                assert(writer@ =~= Seq::<EntryView>::empty());
            }
        }
        proof {
            lemma_written_next(
                view,
                options,
                i as int,
                tables_of(tables@),
                level as nat,
                sequence as nat,
            );
        }
        i = i + 1;
    }
    proof {
        assert(view.take(i as int) =~= view);
        lemma_parts(view, limit);
    }
    if !writer.is_empty() {
        let ghost part = writer@;
        let ghost before = tables_of(tables@);
        let index: usize = tables.len();
        match finish_part(writer, level, sequence, index, options) {
            Ok(table) => {
                let ghost shown = table@;
                tables.push(table);
                proof {
                    assert(tables_of(tables@) =~= before.push(shown));
                }
            },
            Err(error) => {
                proof {
                    let parts = parts_of(view, limit);
                    assert(parts[parts.len() - 1] == part);
                    lemma_stops_at_end(view, options, error);
                }
                return Err(error);
            },
        }
    }
    if tables.len() == 0 {
        return Ok(None);
    }
    Ok(Some(Run { sequence, tables, units }))
}

} // verus!
