//! Taking a tree up from disk.
//!
//! The manifest says which runs are live; tables that it does not name were
//! left by a flush or a compaction that did not come to its commit point, and
//! are swept. The log is replayed into a fresh memtable, in append order.

use vstd::prelude::*;

use super::coalesce::{runs_of, runs_wf, some};
use super::disk::DiskView;
use super::entries::{as_map, ascending, entries_of, EntryView};
use super::execute::{levels_of, levels_wf};
use super::manifest::{
    all_names, empty_manifest, names_of, parse_manifest, Manifest, ManifestView, RunEntry,
    RunEntryView,
};
use super::memtable::{charge, lemma_charge_concat, payload_len, total_charge};
use super::reader::SSTable;
use super::run::{tables_of, NamedTable, NamedView, Run, RunView};
use super::sstable::parse_table;
use super::text::{chars_of, span_is};
use super::tree::{Counters, TreeView};
use super::wal::{apply_all, parse_record, replay_of, verified_len};
use super::{Key, MemTable, StorageError, Value};

verus! {

// ---------------------------------------------------------------------------
// What is recovered
// ---------------------------------------------------------------------------

/// In reading order run `a` comes before run `b`: its level is above, or it is
/// newer within its level.
pub open spec fn read_first(a: RunEntryView, b: RunEntryView) -> bool {
    a.level < b.level || a.level == b.level && a.sequence > b.sequence
}

/// A run put in its place among runs in reading order, behind its equals.
pub open spec fn placed_entry(ordered: Seq<RunEntryView>, entry: RunEntryView) -> Seq<RunEntryView>
    decreases ordered.len(),
{
    if ordered.len() == 0 || !read_first(entry, ordered.last()) {
        ordered.push(entry)
    } else {
        placed_entry(ordered.drop_last(), entry).push(ordered.last())
    }
}

/// Runs in reading order, equals as they came.
pub open spec fn in_reading_order(entries: Seq<RunEntryView>) -> Seq<RunEntryView>
    decreases entries.len(),
{
    if entries.len() == 0 {
        Seq::empty()
    } else {
        placed_entry(in_reading_order(entries.drop_last()), entries.last())
    }
}

/// What opening a table file gives.
pub open spec fn open_table(tables: Map<Seq<char>, Seq<u8>>, name: Seq<char>) -> Result<
    NamedView,
    StorageError,
> {
    if !tables.contains_key(name) {
        Err(StorageError::MissingTable)
    } else {
        match parse_table(tables[name]) {
            Ok(table) => Ok(NamedView { name, table }),
            Err(error) => Err(error),
        }
    }
}

/// What opening table files gives, or the first error.
pub open spec fn open_tables(tables: Map<Seq<char>, Seq<u8>>, names: Seq<Seq<char>>) -> Result<
    Seq<NamedView>,
    StorageError,
>
    decreases names.len(),
{
    if names.len() == 0 {
        Ok(Seq::empty())
    } else {
        match open_tables(tables, names.drop_last()) {
            Err(error) => Err(error),
            Ok(opened) => match open_table(tables, names.last()) {
                Err(error) => Err(error),
                Ok(table) => Ok(opened.push(table)),
            },
        }
    }
}

/// Levels with empty ones added up to a number.
pub open spec fn extended(levels: Seq<Seq<RunView>>, count: nat) -> Seq<Seq<RunView>> {
    if levels.len() >= count {
        levels
    } else {
        levels + Seq::new((count - levels.len()) as nat, |i: int| Seq::<RunView>::empty())
    }
}

/// Levels with a run put behind the runs of its level.
pub open spec fn with_last(levels: Seq<Seq<RunView>>, level: nat, run: RunView) -> Seq<
    Seq<RunView>,
> {
    let wide = extended(levels, level + 1);
    wide.update(level as int, wide[level as int].push(run))
}

/// What opening runs gives, or the first error.
pub open spec fn open_runs(
    tables: Map<Seq<char>, Seq<u8>>,
    entries: Seq<RunEntryView>,
) -> Result<Seq<Seq<RunView>>, StorageError>
    decreases entries.len(),
{
    if entries.len() == 0 {
        Ok(Seq::empty())
    } else {
        let entry = entries.last();
        match open_runs(tables, entries.drop_last()) {
            Err(error) => Err(error),
            Ok(levels) => match open_tables(tables, entry.files) {
                Err(error) => Err(error),
                Ok(opened) => Ok(
                    with_last(
                        levels,
                        entry.level,
                        RunView {
                            sequence: entry.sequence,
                            units: some(entry.units),
                            tables: opened,
                        },
                    ),
                ),
            },
        }
    }
}

/// The manifest on disk, or that of an empty tree.
pub open spec fn manifest_on(disk: DiskView) -> Result<ManifestView, StorageError> {
    match disk.manifest {
        None => Ok(empty_manifest()),
        Some(text) => parse_manifest(text),
    }
}

/// The levels that taking up a disk gives, and the next sequence number.
pub open spec fn opened(disk: DiskView) -> Result<(Seq<Seq<RunView>>, nat), StorageError> {
    match manifest_on(disk) {
        Err(error) => Err(error),
        Ok(manifest) => match open_runs(disk.tables, in_reading_order(manifest.runs)) {
            Err(error) => Err(error),
            Ok(levels) => Ok((levels, some(manifest.next_sequence))),
        },
    }
}

/// Nothing was done yet.
pub open spec fn no_counters() -> Counters {
    Counters {
        flush_count: 0,
        compaction_count: 0,
        user_bytes_written: 0,
        sstable_bytes_written: 0,
        compaction_bytes_written: 0,
    }
}

/// The tree that taking up a disk gives.
pub open spec fn is_opened(disk: DiskView, tree: TreeView) -> bool {
    &&& opened(disk) == Ok::<(Seq<Seq<RunView>>, nat), StorageError>(
        (tree.levels, tree.next_sequence),
    )
    &&& tree.log == disk.log.take(verified_len(disk.log) as int)
    &&& ascending(tree.memtable)
    &&& as_map(tree.memtable) == apply_all(
        Map::<Seq<u8>, Option<Seq<u8>>>::empty(),
        replay_of(disk.log),
    )
    &&& tree.counters == no_counters()
}

// ---------------------------------------------------------------------------
// What opening promises
// ---------------------------------------------------------------------------

/// A manifest that cannot be read is an error, and not an empty tree.
pub proof fn law_a_corrupt_manifest_refuses_to_open(disk: DiskView)
    requires
        disk.manifest is Some,
        parse_manifest(disk.manifest->0) is Err,
    ensures
        opened(disk) is Err,
{
}

proof fn lemma_placed(ordered: Seq<RunEntryView>, entry: RunEntryView)
    requires
        forall|i: int, j: int|
            #![trigger ordered[i], ordered[j]]
            0 <= i < j < ordered.len() ==> !read_first(ordered[j], ordered[i]),
    ensures
        placed_entry(ordered, entry).to_multiset() == ordered.to_multiset().insert(entry),
        placed_entry(ordered, entry).len() == ordered.len() + 1,
        forall|i: int, j: int|
            #![trigger placed_entry(ordered, entry)[i], placed_entry(ordered, entry)[j]]
            0 <= i < j < placed_entry(ordered, entry).len() ==> !read_first(
                placed_entry(ordered, entry)[j],
                placed_entry(ordered, entry)[i],
            ),
        forall|i: int|
            0 <= i < placed_entry(ordered, entry).len() ==> (#[trigger] placed_entry(
                ordered,
                entry,
            )[i]) == entry || ordered.contains(placed_entry(ordered, entry)[i]),
    decreases ordered.len(),
{
    broadcast use vstd::seq_lib::group_to_multiset_ensures;

    let all = placed_entry(ordered, entry);
    if ordered.len() == 0 || !read_first(entry, ordered.last()) {
        assert forall|i: int, j: int|
            #![trigger all[i], all[j]]
            0 <= i < j < all.len() implies !read_first(all[j], all[i]) by {
            if j == ordered.len() {
                assert(all[i] == ordered[i]);
                let last = ordered[ordered.len() - 1];
                if i < ordered.len() - 1 {
                    assert(!read_first(last, ordered[i]));
                }
            } else {
                assert(all[i] == ordered[i] && all[j] == ordered[j]);
            }
        }
        assert forall|i: int| 0 <= i < all.len() implies #[trigger] all[i] == entry
            || ordered.contains(all[i]) by {
            if i < ordered.len() {
                assert(ordered[i] == all[i]);
            }
        }
    } else {
        let head = ordered.drop_last();
        let last = ordered.last();
        assert forall|i: int, j: int|
            #![trigger head[i], head[j]]
            0 <= i < j < head.len() implies !read_first(head[j], head[i]) by {
            assert(head[i] == ordered[i] && head[j] == ordered[j]);
        }
        lemma_placed(head, entry);
        let before = placed_entry(head, entry);
        assert(all == before.push(last));
        assert(ordered =~= head.push(last));
        assert(all.to_multiset() =~= ordered.to_multiset().insert(entry));
        assert forall|i: int, j: int|
            #![trigger all[i], all[j]]
            0 <= i < j < all.len() implies !read_first(all[j], all[i]) by {
            assert(all[i] == before[i]);
            if j < before.len() {
                assert(all[j] == before[j]);
            } else if before[i] != entry {
                let k = choose|k: int| 0 <= k < head.len() && head[k] == before[i];
                assert(ordered[k] == before[i]);
                assert(!read_first(ordered[ordered.len() - 1], ordered[k]));
            }
        }
        assert forall|i: int| 0 <= i < all.len() implies #[trigger] all[i] == entry
            || ordered.contains(all[i]) by {
            if i < before.len() {
                assert(all[i] == before[i]);
                if before[i] != entry {
                    let k = choose|k: int| 0 <= k < head.len() && head[k] == before[i];
                    assert(ordered[k] == all[i]);
                }
            } else {
                assert(ordered[ordered.len() - 1] == all[i]);
            }
        }
    }
}

/// Runs are taken up in the order in which reads consult them, shallow levels first and in
/// each the newest run first; all of them, and no others.
pub proof fn law_runs_are_taken_up_in_reading_order(entries: Seq<RunEntryView>)
    ensures
        in_reading_order(entries).to_multiset() == entries.to_multiset(),
        in_reading_order(entries).len() == entries.len(),
        forall|i: int, j: int|
            #![trigger in_reading_order(entries)[i], in_reading_order(entries)[j]]
            0 <= i < j < entries.len() ==> {
                let a = in_reading_order(entries)[i];
                let b = in_reading_order(entries)[j];
                a.level < b.level || a.level == b.level && a.sequence >= b.sequence
            },
    decreases entries.len(),
{
    broadcast use vstd::seq_lib::group_to_multiset_ensures;

    if entries.len() > 0 {
        let head = entries.drop_last();
        law_runs_are_taken_up_in_reading_order(head);
        let before = in_reading_order(head);
        assert forall|i: int, j: int|
            #![trigger before[i], before[j]]
            0 <= i < j < before.len() implies !read_first(before[j], before[i]) by {}
        lemma_placed(before, entries.last());
        assert(entries =~= head.push(entries.last()));
        let all = in_reading_order(entries);
        assert forall|i: int, j: int|
            #![trigger all[i], all[j]]
            0 <= i < j < entries.len() implies {
            all[i].level < all[j].level || all[i].level == all[j].level && all[i].sequence
                >= all[j].sequence
        } by {
            assert(!read_first(all[j], all[i]));
        }
    } else {
        assert(in_reading_order(entries) =~= entries);
    }
}

proof fn lemma_opened_tables(tables: Map<Seq<char>, Seq<u8>>, names: Seq<Seq<char>>, f: int)
    requires
        open_tables(tables, names) is Ok,
        0 <= f < names.len(),
    ensures
        tables.contains_key(names[f]),
        parse_table(tables[names[f]]) is Ok,
    decreases names.len(),
{
    if f < names.len() - 1 {
        assert(names.drop_last()[f] == names[f]);
        lemma_opened_tables(tables, names.drop_last(), f);
    }
}

proof fn lemma_opened_runs(
    tables: Map<Seq<char>, Seq<u8>>,
    entries: Seq<RunEntryView>,
    r: int,
)
    requires
        open_runs(tables, entries) is Ok,
        0 <= r < entries.len(),
    ensures
        open_tables(tables, entries[r].files) is Ok,
    decreases entries.len(),
{
    if r < entries.len() - 1 {
        assert(entries.drop_last()[r] == entries[r]);
        lemma_opened_runs(tables, entries.drop_last(), r);
    }
}

/// A tree opens only with every table that its manifest names, each of which can be read: one
/// that is missing or damaged is an error, and not a run less.
pub proof fn law_every_live_table_is_opened(disk: DiskView, r: int, f: int)
    requires
        opened(disk) is Ok,
        manifest_on(disk) is Ok,
        0 <= r < manifest_on(disk)->Ok_0.runs.len(),
        0 <= f < manifest_on(disk)->Ok_0.runs[r].files.len(),
    ensures
        ({
            let name = manifest_on(disk)->Ok_0.runs[r].files[f];
            disk.tables.contains_key(name) && parse_table(disk.tables[name]) is Ok
        }),
{
    broadcast use vstd::seq_lib::group_to_multiset_ensures;

    let runs = manifest_on(disk)->Ok_0.runs;
    let ordered = in_reading_order(runs);
    law_runs_are_taken_up_in_reading_order(runs);
    assert(runs.contains(runs[r]));
    assert(runs.to_multiset().count(runs[r]) > 0);
    assert(ordered.contains(runs[r]));
    let i = choose|i: int| 0 <= i < ordered.len() && ordered[i] == runs[r];
    lemma_opened_runs(disk.tables, ordered, i);
    lemma_opened_tables(disk.tables, runs[r].files, f);
}

// ---------------------------------------------------------------------------
// Recovering
// ---------------------------------------------------------------------------

/// The bytes of the first file of this name.
pub open spec fn find_file(files: Seq<(String, Vec<u8>)>, name: Seq<char>) -> Option<Seq<u8>>
    decreases files.len(),
{
    if files.len() == 0 {
        None
    } else if files[0].0@ == name {
        Some(files[0].1@)
    } else {
        find_file(files.drop_first(), name)
    }
}

/// The files by name.
pub open spec fn files_by_name(files: Seq<(String, Vec<u8>)>) -> Map<Seq<char>, Seq<u8>> {
    Map::new(
        |name: Seq<char>| find_file(files, name) is Some,
        |name: Seq<char>| find_file(files, name)->0,
    )
}

/// What is on disk, as it was read.
pub open spec fn disk_of(
    manifest: Option<Seq<char>>,
    files: Seq<(String, Vec<u8>)>,
    log: Seq<u8>,
) -> DiskView {
    DiskView { tables: files_by_name(files), manifest, log }
}

fn open_named(files: &Vec<(String, Vec<u8>)>, name: &String) -> (table: Result<
    NamedTable,
    StorageError,
>)
    ensures
        match table {
            Ok(table) => table.table.wf() && open_table(files_by_name(files@), name@) == Ok::<
                NamedView,
                StorageError,
            >(table@),
            Err(error) => open_table(files_by_name(files@), name@) == Err::<
                NamedView,
                StorageError,
            >(error),
        },
{
    let mut i: usize = 0;
    proof {
        assert(files@.skip(0) =~= files@);
    }
    while i < files.len()
        invariant
            i <= files@.len(),
            find_file(files@, name@) == find_file(files@.skip(i as int), name@),
        decreases files@.len() - i,
    {
        proof {
            assert(files@.skip(i as int)[0] == files@[i as int]);
            assert(files@.skip(i as int).drop_first() =~= files@.skip(i + 1));
        }
        if files[i].0 == *name {
            proof {
                assert(files_by_name(files@).contains_key(name@));
                assert(files_by_name(files@)[name@] == files@[i as int].1@);
            }
            return match SSTable::open(super::order::copy_bytes(files[i].1.as_slice())) {
                Ok(table) => Ok(NamedTable { name: name.clone(), table }),
                Err(error) => Err(error),
            };
        }
        i = i + 1;
    }
    proof {
        assert(files@.skip(i as int).len() == 0);
        assert(!files_by_name(files@).contains_key(name@));
    }
    Err(StorageError::MissingTable)
}

fn open_files(files: &Vec<(String, Vec<u8>)>, names: &Vec<String>) -> (opened: Result<
    Vec<NamedTable>,
    StorageError,
>)
    ensures
        match opened {
            Ok(tables) => {
                &&& forall|i: int| 0 <= i < tables@.len() ==> (#[trigger] tables@[i]).table.wf()
                &&& open_tables(files_by_name(files@), names_of(names@)) == Ok::<
                    Seq<NamedView>,
                    StorageError,
                >(tables_of(tables@))
            },
            Err(error) => open_tables(files_by_name(files@), names_of(names@)) == Err::<
                Seq<NamedView>,
                StorageError,
            >(error),
        },
{
    let ghost disk = files_by_name(files@);
    let ghost all = names_of(names@);
    let mut tables: Vec<NamedTable> = Vec::new();
    let mut i: usize = 0;
    proof {
        assert(tables_of(tables@) =~= Seq::<NamedView>::empty());
        assert(all.take(0) =~= Seq::<Seq<char>>::empty());
    }
    while i < names.len()
        invariant
            i <= names@.len(),
            disk == files_by_name(files@),
            all == names_of(names@),
            forall|j: int| 0 <= j < tables@.len() ==> (#[trigger] tables@[j]).table.wf(),
            open_tables(disk, all.take(i as int)) == Ok::<Seq<NamedView>, StorageError>(
                tables_of(tables@),
            ),
        decreases names@.len() - i,
    {
        let ghost had = tables_of(tables@);
        proof {
            assert(all.take(i + 1).drop_last() =~= all.take(i as int));
            assert(all.take(i + 1).last() == names@[i as int]@);
        }
        match open_named(files, &names[i]) {
            Ok(table) => {
                let ghost shown = table@;
                tables.push(table);
                proof {
                    assert(tables_of(tables@) =~= had.push(shown));
                }
            },
            Err(error) => {
                proof {
                    lemma_open_tables_stops(disk, all, i + 1);
                }
                return Err(error);
            },
        }
        i = i + 1;
    }
    proof {
        assert(all.take(i as int) =~= all);
    }
    Ok(tables)
}

/// The first error ends the opening of tables.
proof fn lemma_open_tables_stops(
    tables: Map<Seq<char>, Seq<u8>>,
    names: Seq<Seq<char>>,
    n: int,
)
    requires
        0 <= n <= names.len(),
        open_tables(tables, names.take(n)) is Err,
    ensures
        open_tables(tables, names) == open_tables(tables, names.take(n)),
    decreases names.len(),
{
    if n == names.len() {
        assert(names.take(n) =~= names);
    } else {
        assert(names.drop_last().take(n) =~= names.take(n));
        lemma_open_tables_stops(tables, names.drop_last(), n);
    }
}

/// The first error ends the opening of runs.
proof fn lemma_open_runs_stops(
    tables: Map<Seq<char>, Seq<u8>>,
    entries: Seq<RunEntryView>,
    n: int,
)
    requires
        0 <= n <= entries.len(),
        open_runs(tables, entries.take(n)) is Err,
    ensures
        open_runs(tables, entries) == open_runs(tables, entries.take(n)),
    decreases entries.len(),
{
    if n == entries.len() {
        assert(entries.take(n) =~= entries);
    } else {
        assert(entries.drop_last().take(n) =~= entries.take(n));
        lemma_open_runs_stops(tables, entries.drop_last(), n);
    }
}

/// Puts an entry in its place among entries in reading order.
fn place_entry(ordered: &mut Vec<RunEntry>, entry: RunEntry)
    ensures
        super::manifest::runs_of(final(ordered)@) == placed_entry(
            super::manifest::runs_of(old(ordered)@),
            entry@,
        ),
{
    let ghost before = super::manifest::runs_of(ordered@);
    let mut at: usize = ordered.len();
    proof {
        assert(before.take(at as int) =~= before);
        assert(before.skip(at as int) =~= Seq::<RunEntryView>::empty());
        assert(placed_entry(before, entry@) =~= placed_entry(before.take(at as int), entry@)
            + before.skip(at as int));
    }
    while at > 0 && (entry.level < ordered[at - 1].level || entry.level == ordered[at - 1].level
        && entry.sequence > ordered[at - 1].sequence)
        invariant
            at <= ordered@.len(),
            before == super::manifest::runs_of(ordered@),
            placed_entry(before, entry@) == placed_entry(before.take(at as int), entry@)
                + before.skip(at as int),
        decreases at,
    {
        proof {
            let was = before.take(at as int);
            assert(was.last() == before[at - 1]);
            assert(was.drop_last() =~= before.take(at - 1));
            assert(placed_entry(was, entry@) + before.skip(at as int) =~= placed_entry(
                before.take(at - 1),
                entry@,
            ) + before.skip(at - 1));
        }
        at = at - 1;
    }
    proof {
        if at > 0 {
            assert(before.take(at as int).last() == before[at - 1]);
        }
        assert(placed_entry(before.take(at as int), entry@) == before.take(at as int).push(
            entry@,
        ));
    }
    let ghost shown = entry@;
    ordered.insert(at, entry);
    proof {
        assert(super::manifest::runs_of(ordered@) =~= before.take(at as int).push(shown)
            + before.skip(at as int));
    }
}

/// Entries in reading order.
fn order_entries(entries: Vec<RunEntry>) -> (ordered: Vec<RunEntry>)
    ensures
        super::manifest::runs_of(ordered@) == in_reading_order(
            super::manifest::runs_of(entries@),
        ),
{
    let ghost all = entries@;
    let ghost view = super::manifest::runs_of(all);
    let total: usize = entries.len();
    let mut left: Vec<RunEntry> = entries;
    let mut ordered: Vec<RunEntry> = Vec::new();
    let ghost mut done: int = 0;
    proof {
        assert(all.skip(0) =~= all);
        assert(super::manifest::runs_of(ordered@) =~= in_reading_order(view.take(0)));
    }
    while left.len() > 0
        invariant
            0 <= done <= all.len(),
            left@ == all.skip(done),
            view == super::manifest::runs_of(all),
            super::manifest::runs_of(ordered@) == in_reading_order(view.take(done)),
        decreases left@.len(),
    {
        let entry: RunEntry = left.remove(0);
        proof {
            assert(entry == all[done]);
            assert(left@ =~= all.skip(done + 1));
            assert(view.take(done + 1).drop_last() =~= view.take(done));
            assert(view.take(done + 1).last() == entry@);
        }
        place_entry(&mut ordered, entry);
        proof {
            done = done + 1;
        }
    }
    proof {
        assert(view.take(done) =~= view);
    }
    ordered
}

/// Adds levels up to a number.
fn extend_levels(levels: &mut Vec<Vec<Run>>, level: usize)
    requires
        levels_wf(old(levels)@),
    ensures
        levels_wf(final(levels)@),
        final(levels)@.len() > level,
        levels_of(final(levels)@) == extended(levels_of(old(levels)@), (level + 1) as nat),
{
    let ghost first = levels_of(levels@);
    proof {
        assert(first =~= extended(first, first.len()));
    }
    while levels.len() <= level
        invariant
            first.len() <= levels@.len(),
            levels@.len() <= level + 1 || levels@.len() == first.len(),
            levels_wf(levels@),
            levels_of(levels@) == extended(first, levels@.len()),
        decreases level + 1 - levels@.len(),
    {
        let ghost was = levels@;
        let empty: Vec<Run> = Vec::new();
        let ghost had = levels_of(levels@);
        let ghost nothing = runs_of(empty@);
        levels.push(empty);
        proof {
            assert(nothing =~= Seq::<RunView>::empty());
            assert(levels_of(levels@) =~= had.push(nothing));
            assert(levels_of(levels@) =~= extended(first, levels@.len()));
            assert forall|l: int| 0 <= l < levels@.len() implies runs_wf(
                (#[trigger] levels@[l])@,
            ) by {
                if l < was.len() {
                    assert(levels@[l] == was[l]);
                }
            }
        }
    }
}

/// Puts a run behind the runs of its level.
fn push_last(levels: &mut Vec<Vec<Run>>, level: usize, run: Run)
    requires
        levels_wf(old(levels)@),
        run.wf(),
    ensures
        levels_wf(final(levels)@),
        levels_of(final(levels)@) == with_last(levels_of(old(levels)@), level as nat, run@),
{
    extend_levels(levels, level);
    let ghost wide = levels@;
    let ghost view = levels_of(wide);
    let ghost shown = run@;
    let mut runs: Vec<Run> = Vec::new();
    std::mem::swap(&mut runs, &mut levels[level]);
    let ghost was = runs@;
    proof {
        assert(runs_wf(wide[level as int]@));
    }
    runs.push(run);
    let ghost now = runs@;
    proof {
        assert(runs_of(now) =~= runs_of(was).push(shown));
    }
    std::mem::swap(&mut runs, &mut levels[level]);
    proof {
        assert(levels_of(levels@) =~= view.update(level as int, view[level as int].push(shown)));
        assert forall|l: int| 0 <= l < levels@.len() implies runs_wf((#[trigger] levels@[l])@) by {
            if l != level {
                assert(levels@[l] == wide[l]);
            }
        }
    }
}

/// Opens the runs that a manifest names.
pub fn open_levels(files: &Vec<(String, Vec<u8>)>, entries: Vec<RunEntry>) -> (opened: Result<
    Vec<Vec<Run>>,
    StorageError,
>)
    ensures
        match opened {
            Ok(levels) => levels_wf(levels@) && open_runs(
                files_by_name(files@),
                in_reading_order(super::manifest::runs_of(entries@)),
            ) == Ok::<Seq<Seq<RunView>>, StorageError>(levels_of(levels@)),
            Err(error) => open_runs(
                files_by_name(files@),
                in_reading_order(super::manifest::runs_of(entries@)),
            ) == Err::<Seq<Seq<RunView>>, StorageError>(error),
        },
{
    let ordered: Vec<RunEntry> = order_entries(entries);
    let ghost disk = files_by_name(files@);
    let ghost all = super::manifest::runs_of(ordered@);
    let mut levels: Vec<Vec<Run>> = Vec::new();
    let mut i: usize = 0;
    proof {
        assert(levels_of(levels@) =~= Seq::<Seq<RunView>>::empty());
        assert(all.take(0) =~= Seq::<RunEntryView>::empty());
    }
    while i < ordered.len()
        invariant
            i <= ordered@.len(),
            disk == files_by_name(files@),
            all == super::manifest::runs_of(ordered@),
            all == in_reading_order(super::manifest::runs_of(entries@)),
            levels_wf(levels@),
            open_runs(disk, all.take(i as int)) == Ok::<Seq<Seq<RunView>>, StorageError>(
                levels_of(levels@),
            ),
        decreases ordered@.len() - i,
    {
        let entry: &RunEntry = &ordered[i];
        proof {
            assert(all.take(i + 1).drop_last() =~= all.take(i as int));
            assert(all.take(i + 1).last() == entry@);
        }
        match open_files(files, &entry.files) {
            Ok(tables) => {
                let units: usize = if entry.units == 0 {
                    1
                } else {
                    entry.units
                };
                push_last(
                    &mut levels,
                    entry.level,
                    Run { sequence: entry.sequence, tables, units },
                );
            },
            Err(error) => {
                proof {
                    assert(open_runs(disk, all.take(i + 1)) == Err::<
                        Seq<Seq<RunView>>,
                        StorageError,
                    >(error));
                    lemma_open_runs_stops(disk, all, i + 1);
                }
                return Err(error);
            },
        }
        i = i + 1;
    }
    proof {
        assert(all.take(i as int) =~= all);
    }
    Ok(levels)
}

/// What replay gives takes no more room than twice the log.
pub proof fn lemma_replay_charge(log: Seq<u8>)
    ensures
        total_charge(replay_of(log)) <= 2 * log.len(),
    decreases log.len(),
{
    match parse_record(log) {
        Some((entry, len)) => {
            let rest = log.skip(len as int);
            lemma_replay_charge(rest);
            lemma_charge_concat(seq![entry], replay_of(rest));
            assert(seq![entry].drop_last() =~= Seq::<EntryView>::empty());
            assert(total_charge(seq![entry].drop_last()) == 0);
            assert(total_charge(seq![entry]) == charge(entry));
            assert(8 + 5 + entry.0.len() + payload_len(entry.1) == len);
        },
        None => {
            assert(total_charge(replay_of(log)) == 0);
        },
    }
}

/// Applies the records of a log, in order, to a fresh memtable.
pub fn replay_memtable(records: Vec<(Key, Value)>) -> (memtable: MemTable)
    requires
        total_charge(entries_of(records@)) <= usize::MAX,
    ensures
        memtable.wf(),
        memtable@ == apply_all(
            Map::<Seq<u8>, Option<Seq<u8>>>::empty(),
            entries_of(records@),
        ),
{
    let ghost all = records@;
    let ghost view = entries_of(all);
    let ghost nothing = Map::<Seq<u8>, Option<Seq<u8>>>::empty();
    let mut memtable: MemTable = MemTable::new();
    let mut left: Vec<(Key, Value)> = records;
    let ghost mut done: int = 0;
    proof {
        assert(all.skip(0) =~= all);
        assert(view.take(0) =~= Seq::<EntryView>::empty());
    }
    while left.len() > 0
        invariant
            0 <= done <= all.len(),
            left@ == all.skip(done),
            view == entries_of(all),
            total_charge(view) <= usize::MAX,
            memtable.wf(),
            memtable.size() <= total_charge(view.take(done)),
            nothing == Map::<Seq<u8>, Option<Seq<u8>>>::empty(),
            memtable@ == apply_all(nothing, view.take(done)),
        decreases left@.len(),
    {
        let (key, value): (Key, Value) = left.remove(0);
        proof {
            assert((key, value) == all[done]);
            assert(left@ =~= all.skip(done + 1));
            assert(view.take(done + 1).drop_last() =~= view.take(done));
            assert(view.take(done + 1).last() == (key@, value@));
            assert(view =~= view.take(done + 1) + view.skip(done + 1));
            lemma_charge_concat(view.take(done + 1), view.skip(done + 1));
        }
        let _ = memtable.insert(key, value);
        proof {
            done = done + 1;
        }
    }
    proof {
        assert(view.take(done) =~= view);
    }
    memtable
}

// ---------------------------------------------------------------------------
// Sweeping
// ---------------------------------------------------------------------------

/// A name ends like this.
pub open spec fn ends_with(name: Seq<char>, suffix: Seq<char>) -> bool {
    name.len() >= suffix.len() && name.skip(name.len() - suffix.len()) == suffix
}

/// A file is left over: a table that the manifest does not name, or a file that
/// was being written.
pub open spec fn is_left_over(manifest: ManifestView, name: Seq<char>) -> bool {
    ||| ends_with(name, ".sst"@) && !all_names(manifest.runs).contains(name)
    ||| ends_with(name, ".tmp"@)
}

/// A table that the manifest names is never swept, a table that it does not name always is,
/// a file that was being written always is, and nothing else ever.
pub proof fn law_only_what_is_not_live_is_swept(manifest: ManifestView, name: Seq<char>)
    ensures
        ({
            let live = exists|r: int, f: int|
                0 <= r < manifest.runs.len() && 0 <= f < manifest.runs[r].files.len()
                    && #[trigger] manifest.runs[r].files[f] == name;
            let n = name.len() as int;
            let table = n >= 4 && name[n - 4] == '.' && name[n - 3] == 's' && name[n - 2] == 's'
                && name[n - 1] == 't';
            let scratch = n >= 4 && name[n - 4] == '.' && name[n - 3] == 't' && name[n - 2] == 'm'
                && name[n - 1] == 'p';
            &&& is_left_over(manifest, name) <==> scratch || table && !live
        }),
{
    reveal_strlit(".sst");
    reveal_strlit(".tmp");
    lemma_named_files(manifest.runs, name);
    let n = name.len() as int;
    if n >= 4 {
        let tail = name.skip(n - 4);
        assert(tail[0] == name[n - 4] && tail[1] == name[n - 3] && tail[2] == name[n - 2]
            && tail[3] == name[n - 1]);
        if name[n - 4] == '.' && name[n - 3] == 's' && name[n - 2] == 's' && name[n - 1] == 't' {
            assert(tail =~= ".sst"@);
        }
        if name[n - 4] == '.' && name[n - 3] == 't' && name[n - 2] == 'm' && name[n - 1] == 'p' {
            assert(tail =~= ".tmp"@);
        }
        if ends_with(name, ".sst"@) {
            assert(tail == ".sst"@);
        }
        if ends_with(name, ".tmp"@) {
            assert(tail == ".tmp"@);
        }
    }
}

/// The names of a manifest are those of the files of its runs.
proof fn lemma_named_files(runs: Seq<super::manifest::RunEntryView>, name: Seq<char>)
    ensures
        all_names(runs).contains(name) <==> exists|r: int, f: int|
            0 <= r < runs.len() && 0 <= f < runs[r].files.len() && #[trigger] runs[r].files[f]
                == name,
    decreases runs.len(),
{
    if runs.len() > 0 {
        let head = runs.drop_last();
        let before = all_names(head);
        let last = runs.last().files;
        lemma_named_files(head, name);
        if all_names(runs).contains(name) {
            let i = choose|i: int| 0 <= i < all_names(runs).len() && all_names(runs)[i] == name;
            if i < before.len() {
                assert(before[i] == name);
                let (r, f) = choose|r: int, f: int|
                    0 <= r < head.len() && 0 <= f < head[r].files.len() && #[trigger] head[r].files[f]
                        == name;
                assert(runs[r].files[f] == name);
            } else {
                assert(runs[runs.len() - 1].files[i - before.len()] == name);
            }
        }
        if exists|r: int, f: int|
            0 <= r < runs.len() && 0 <= f < runs[r].files.len() && #[trigger] runs[r].files[f]
                == name {
            let (r, f) = choose|r: int, f: int|
                0 <= r < runs.len() && 0 <= f < runs[r].files.len() && #[trigger] runs[r].files[f]
                    == name;
            if r < head.len() {
                assert(head[r].files[f] == name);
                let i = choose|i: int| 0 <= i < before.len() && before[i] == name;
                assert(all_names(runs)[i] == name);
            } else {
                assert(all_names(runs)[before.len() + f] == name);
            }
        }
    }
}

fn has_suffix(name: &String, suffix: &str, length: usize) -> (has: bool)
    requires
        length == suffix@.len(),
    ensures
        has == ends_with(name@, suffix@),
{
    let chars: Vec<char> = chars_of(name.as_str());
    if chars.len() < length {
        return false;
    }
    proof {
        assert(name@.subrange(name@.len() - length, name@.len() as int) =~= name@.skip(
            name@.len() - length,
        ));
    }
    span_is(&chars, chars.len() - length, chars.len(), suffix)
}

fn names_contain(names: &Vec<String>, name: &String) -> (found: bool)
    ensures
        found == names_of(names@).contains(name@),
{
    let mut i: usize = 0;
    while i < names.len()
        invariant
            i <= names@.len(),
            forall|j: int| 0 <= j < i ==> names_of(names@)[j] != name@,
        decreases names@.len() - i,
    {
        if names[i] == *name {
            proof {
                assert(names_of(names@)[i as int] == name@);
            }
            return true;
        }
        i = i + 1;
    }
    false
}

/// Which of the files in the directory of a tree are left over: outputs of a
/// flush or a compaction that did not come to its commit point. They were never
/// live, so nothing can refer to them.
pub fn left_over_files(manifest: &Manifest, names: &Vec<String>) -> (left_over: Vec<String>)
    ensures
        names_of(left_over@) == names_of(names@).filter(
            |name: Seq<char>| is_left_over(manifest@, name),
        ),
{
    let referenced: Vec<String> = manifest.referenced_files();
    let ghost keep = |name: Seq<char>| is_left_over(manifest@, name);
    let ghost all = names_of(names@);
    let mut left_over: Vec<String> = Vec::new();
    let mut i: usize = 0;
    proof {
        reveal(Seq::filter);
        reveal_strlit(".sst");
        reveal_strlit(".tmp");
        assert(names_of(left_over@) =~= all.take(0).filter(keep));
    }
    while i < names.len()
        invariant
            i <= names@.len(),
            all == names_of(names@),
            keep == (|name: Seq<char>| is_left_over(manifest@, name)),
            names_of(referenced@) == all_names(manifest@.runs),
            ".sst"@.len() == 4,
            ".tmp"@.len() == 4,
            names_of(left_over@) == all.take(i as int).filter(keep),
        decreases names@.len() - i,
    {
        let ghost had = names_of(left_over@);
        proof {
            reveal(Seq::filter);
            assert(all.take(i + 1).drop_last() =~= all.take(i as int));
            assert(all.take(i + 1).last() == names@[i as int]@);
        }
        let name: &String = &names[i];
        if (has_suffix(name, ".sst", 4) && !names_contain(&referenced, name)) || has_suffix(
            name,
            ".tmp",
            4,
        ) {
            left_over.push(name.clone());
            proof {
                assert(names_of(left_over@) =~= had.push(name@));
            }
        }
        i = i + 1;
    }
    proof {
        assert(all.take(i as int) =~= all);
    }
    left_over
}

/// A file is found by its name, wherever it is in the list, and the first one of a name
/// counts.
pub proof fn law_files_are_found_by_name(files: Seq<(String, Vec<u8>)>, i: int)
    requires
        0 <= i < files.len(),
        forall|j: int| 0 <= j < i ==> (#[trigger] files[j]).0@ != files[i].0@,
    ensures
        find_file(files, files[i].0@) == Some(files[i].1@),
        files_by_name(files).contains_key(files[i].0@),
        files_by_name(files)[files[i].0@] == files[i].1@,
    decreases files.len(),
{
    if i > 0 {
        assert(files[0].0@ != files[i].0@);
        let rest = files.drop_first();
        assert forall|j: int| 0 <= j < i - 1 implies (#[trigger] rest[j]).0@ != rest[i - 1].0@ by {
            assert(rest[j] == files[j + 1]);
        }
        law_files_are_found_by_name(rest, i - 1);
    }
}

/// A name that no file has finds nothing.
pub proof fn law_other_names_find_nothing(files: Seq<(String, Vec<u8>)>, name: Seq<char>)
    requires
        forall|j: int| 0 <= j < files.len() ==> (#[trigger] files[j]).0@ != name,
    ensures
        !files_by_name(files).contains_key(name),
    decreases files.len(),
{
    if files.len() > 0 {
        assert(files[0].0@ != name);
        let rest = files.drop_first();
        assert forall|j: int| 0 <= j < rest.len() implies (#[trigger] rest[j]).0@ != name by {
            assert(rest[j] == files[j + 1]);
        }
        law_other_names_find_nothing(rest, name);
    }
}

} // verus!
