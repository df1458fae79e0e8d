//! Why a crash loses nothing.
//!
//! Between any two of the things that a flush or a compaction does on disk, the
//! disk can be taken up again, and answers as it did before. A write is
//! recovered as soon as its record is in the log.

use vstd::prelude::*;

use super::coalesce::{coalesced, disjoint, newest, some};
use super::compaction::{safe, CompactionJob};
use super::config::LsmConfig;
use super::disk::{lemma_perform_concat, perform, perform_all, ActionView, DiskView};
use super::entries::{as_map, ascending, find, has_key, lemma_same_map_same_list, EntryView};
use super::growth::CompactionRequest;
use super::levels::{
    all_runs, kept_level, kept_run, lemma_first_found_one, level_after, levels_after, lists_of,
    select, takes, unless,
};
use super::lsm::{can_write, charged_after, has_sequence};
use super::manifest::{
    law_manifest_round_trip, manifest_text, table_name, writable, writable_run, RunEntryView,
};
use super::memtable::{charge, total_charge};
use super::merge::lemma_first_found_concat;
use super::names::{law_table_names_are_unique, lemma_table_name_is_word};
use super::naming::{
    lemma_times_absent, lemma_times_after, lemma_times_flushed, lemma_times_folded,
    lemma_times_parts, lemma_times_present, lemma_times_tables_absent, lemma_times_tables_present,
    times, times_tables,
};
use super::recovery::{
    extended, in_reading_order, is_opened, manifest_on, open_runs, open_table, open_tables, opened,
    read_first, with_last,
};
use super::run::{is_part, run_entries, run_intact, NamedView, RunView, TableOptions};
use super::shape::TreeShape;
use super::soundness::{
    fits_upto, law_compacting_is_invisible, law_flushing_is_invisible, lemma_written,
    same_answers, sound,
};
use super::sstable::{parse_table, TableView};
use super::steps::{
    entries_for, folded, is_compacted, is_flushed, is_flushed_as, is_logged, is_noted,
    is_over, is_performed, is_performed_as, is_run_of, is_shape_of, is_turn, is_written, level_entries,
    levels_flushed, manifest_for, manifest_store, rests, run_entry, table_names, table_removals,
    table_writes, tables_taken, tables_written, turned, turns_to, write_actions, Phase,
};
use super::tree::{answer, tree_lists, TreeView};
use super::wal::{
    apply_all, lemma_replay_concat, lemma_single_record, loggable, record_of, replay_of,
    verified_len, SyncPolicy,
};
use super::weight::{lemma_written_weight, weight};
use super::StorageError;

verus! {

// ---------------------------------------------------------------------------
// Trees that can be written down
// ---------------------------------------------------------------------------

/// A name that was given out before a sequence number was reached.
pub open spec fn name_before(name: Seq<char>, next: nat) -> bool {
    exists|level: nat, sequence: nat, part: nat|
        sequence < next && name == #[trigger] table_name(level, sequence, part)
}

/// A table is what opening its file gives, and its name was given out.
pub open spec fn table_kept(table: NamedView, next: nat) -> bool {
    &&& name_before(table.name, next)
    &&& parse_table(table.table.file) == Ok::<TableView, StorageError>(table.table)
}

/// A run that the manifest can name.
pub open spec fn run_kept(run: RunView, next: nat) -> bool {
    &&& run.tables.len() > 0
    &&& 1 <= run.units <= usize::MAX
    &&& run.sequence < next
    &&& forall|f: int| 0 <= f < run.tables.len() ==> table_kept(#[trigger] run.tables[f], next)
}

/// The runs of a level get older.
pub open spec fn newest_first(level: Seq<RunView>) -> bool {
    forall|r: int, s: int|
        #![trigger level[r], level[s]]
        0 <= r < s < level.len() ==> level[r].sequence > level[s].sequence
}

/// A level that the manifest can name.
pub open spec fn level_kept(level: Seq<RunView>, next: nat) -> bool {
    &&& forall|r: int| 0 <= r < level.len() ==> run_kept(#[trigger] level[r], next)
    &&& newest_first(level)
}

/// Levels that the manifest can name.
pub open spec fn levels_kept(levels: Seq<Seq<RunView>>, next: nat) -> bool {
    &&& levels.len() <= usize::MAX
    &&& forall|l: int| 0 <= l < levels.len() ==> level_kept(#[trigger] levels[l], next)
    &&& forall|name: Seq<char>| #[trigger] times(levels, name) <= 1
}

/// The memtable is what the log says.
pub open spec fn log_kept(tree: TreeView) -> bool {
    &&& ascending(tree.memtable)
    &&& verified_len(tree.log) == tree.log.len()
    &&& as_map(tree.memtable) == apply_all(
        Map::<Seq<u8>, Option<Seq<u8>>>::empty(),
        replay_of(tree.log),
    )
}

/// A tree that can be written down and taken up again.
pub open spec fn kept(tree: TreeView) -> bool {
    &&& 1 <= tree.next_sequence <= u64::MAX
    &&& levels_kept(tree.levels, tree.next_sequence)
    &&& log_kept(tree)
}

// ---------------------------------------------------------------------------
// Disks that hold a tree
// ---------------------------------------------------------------------------

/// A table file is there.
pub open spec fn file_stored(tables: Map<Seq<char>, Seq<u8>>, table: NamedView) -> bool {
    tables.contains_key(table.name) && tables[table.name] == table.table.file
}

/// The table files of a run are there.
pub open spec fn run_stored(tables: Map<Seq<char>, Seq<u8>>, run: RunView) -> bool {
    forall|f: int| 0 <= f < run.tables.len() ==> file_stored(tables, #[trigger] run.tables[f])
}

/// The table files of a level are there.
pub open spec fn level_stored(tables: Map<Seq<char>, Seq<u8>>, level: Seq<RunView>) -> bool {
    forall|r: int| 0 <= r < level.len() ==> run_stored(tables, #[trigger] level[r])
}

/// The table files of levels are there.
pub open spec fn stored(tables: Map<Seq<char>, Seq<u8>>, levels: Seq<Seq<RunView>>) -> bool {
    forall|l: int| 0 <= l < levels.len() ==> level_stored(tables, #[trigger] levels[l])
}

/// A run as it is taken up: of no less than one unit.
pub open spec fn settled(entry: RunEntryView) -> RunEntryView {
    RunEntryView { units: some(entry.units), ..entry }
}

/// Runs as they are taken up.
pub open spec fn all_settled(entries: Seq<RunEntryView>) -> Seq<RunEntryView> {
    Seq::new(entries.len(), |i: int| settled(entries[i]))
}

/// The manifest says what the tree is.
pub open spec fn listed(disk: DiskView, tree: TreeView) -> bool {
    match manifest_on(disk) {
        Err(_) => false,
        Ok(manifest) => {
            &&& all_settled(in_reading_order(manifest.runs)) == entries_for(tree.levels)
            &&& some(manifest.next_sequence) == tree.next_sequence
        },
    }
}

/// The disk holds the tree.
pub open spec fn mirrors(disk: DiskView, tree: TreeView) -> bool {
    &&& stored(disk.tables, tree.levels)
    &&& listed(disk, tree)
    &&& disk.log == tree.log
}

// ---------------------------------------------------------------------------
// Taking up what was written down
// ---------------------------------------------------------------------------

proof fn lemma_open_tables(map: Map<Seq<char>, Seq<u8>>, tables: Seq<NamedView>, next: nat)
    requires
        forall|f: int|
            0 <= f < tables.len() ==> table_kept(#[trigger] tables[f], next) && file_stored(
                map,
                tables[f],
            ),
    ensures
        open_tables(map, table_names(tables)) == Ok::<Seq<NamedView>, StorageError>(tables),
    decreases tables.len(),
{
    let names = table_names(tables);
    if tables.len() == 0 {
        assert(open_tables(map, names) == Ok::<Seq<NamedView>, StorageError>(Seq::empty()));
        assert(tables =~= Seq::<NamedView>::empty());
    } else {
        let head = tables.drop_last();
        assert forall|f: int| 0 <= f < head.len() implies table_kept(#[trigger] head[f], next)
            && file_stored(map, head[f]) by {
            assert(head[f] == tables[f]);
        }
        lemma_open_tables(map, head, next);
        assert(names.drop_last() =~= table_names(head));
        let last = tables[tables.len() - 1];
        assert(table_kept(tables[tables.len() - 1], next));
        assert(open_table(map, last.name) == Ok::<NamedView, StorageError>(last));
        assert(head.push(last) =~= tables);
    }
}

/// One more run, behind the others of the last level.
proof fn lemma_open_one_more(
    map: Map<Seq<char>, Seq<u8>>,
    entries: Seq<RunEntryView>,
    before: Seq<Seq<RunView>>,
    head: Seq<Seq<RunView>>,
    fewer: Seq<RunView>,
    run: RunView,
    next: nat,
)
    requires
        entries.len() > 0,
        open_runs(map, entries.drop_last()) == Ok::<Seq<Seq<RunView>>, StorageError>(before),
        extended(before, head.len() + 1) == head.push(fewer),
        settled(entries.last()) == run_entry(run, head.len()),
        run_kept(run, next),
        run_stored(map, run),
    ensures
        open_runs(map, entries) == Ok::<Seq<Seq<RunView>>, StorageError>(
            head.push(fewer.push(run)),
        ),
{
    let entry = entries.last();
    assert forall|f: int| 0 <= f < run.tables.len() implies table_kept(
        #[trigger] run.tables[f],
        next,
    ) && file_stored(map, run.tables[f]) by {}
    lemma_open_tables(map, run.tables, next);
    assert(entry.files == table_names(run.tables));
    assert(entry.level == head.len());
    let opened_run = RunView {
        sequence: entry.sequence,
        units: some(entry.units),
        tables: run.tables,
    };
    assert(opened_run == run);
    let levels = with_last(before, head.len(), run);
    assert(levels =~= head.push(fewer.push(run)));
}

/// Opening what lists levels gives them back, but for empty ones at the end.
proof fn lemma_open_kept(
    map: Map<Seq<char>, Seq<u8>>,
    entries: Seq<RunEntryView>,
    head: Seq<Seq<RunView>>,
    runs: Seq<RunView>,
    next: nat,
) -> (levels: Seq<Seq<RunView>>)
    requires
        all_settled(entries) == entries_for(head) + level_entries(runs, head.len()),
        forall|l: int| 0 <= l < head.len() ==> level_kept(#[trigger] head[l], next),
        level_kept(runs, next),
        stored(map, head),
        level_stored(map, runs),
    ensures
        open_runs(map, entries) == Ok::<Seq<Seq<RunView>>, StorageError>(levels),
        levels.len() <= head.len() + 1,
        extended(levels, head.len() + 1) == head.push(runs),
    decreases head.len(), runs.len(),
{
    let all = all_settled(entries);
    if runs.len() == 0 {
        assert(level_entries(runs, head.len()) =~= Seq::<RunEntryView>::empty());
        assert(all =~= entries_for(head));
        assert(runs =~= Seq::<RunView>::empty());
        if head.len() == 0 {
            assert(entries.len() == 0);
            let levels = Seq::<Seq<RunView>>::empty();
            assert(extended(levels, 1) =~= head.push(runs));
            levels
        } else {
            let front = head.drop_last();
            let last = head[head.len() - 1];
            assert(level_kept(head[head.len() - 1], next));
            assert(level_stored(map, head[head.len() - 1]));
            assert forall|l: int| 0 <= l < front.len() implies level_kept(
                #[trigger] front[l],
                next,
            ) && level_stored(map, front[l]) by {
                assert(front[l] == head[l]);
            }
            let levels = lemma_open_kept(map, entries, front, last, next);
            assert(front.push(last) =~= head);
            assert(extended(levels, head.len() + 1) =~= extended(levels, head.len()).push(runs));
            levels
        }
    } else {
        let fewer = runs.drop_last();
        let n = runs.len() - 1;
        let shorter = entries.drop_last();
        assert(all.len() == entries.len());
        assert(all.last() == run_entry(runs[n], head.len()));
        assert(all.last() == settled(entries.last()));
        assert(all.drop_last() =~= all_settled(shorter));
        assert(all.drop_last() =~= entries_for(head) + level_entries(fewer, head.len()));
        assert forall|r: int| 0 <= r < fewer.len() implies run_kept(#[trigger] fewer[r], next)
            && run_stored(map, fewer[r]) by {
            assert(fewer[r] == runs[r]);
        }
        assert(newest_first(fewer)) by {
            assert forall|r: int, s: int|
                #![trigger fewer[r], fewer[s]]
                0 <= r < s < fewer.len() implies fewer[r].sequence > fewer[s].sequence by {
                assert(fewer[r] == runs[r] && fewer[s] == runs[s]);
            }
        }
        let before = lemma_open_kept(map, shorter, head, fewer, next);
        assert(run_kept(runs[n], next) && run_stored(map, runs[n]));
        lemma_open_one_more(map, entries, before, head, fewer, runs[n], next);
        assert(fewer.push(runs[n]) =~= runs);
        head.push(runs)
    }
}

/// Empty levels at the end hold no runs.
proof fn lemma_extended_runs(levels: Seq<Seq<RunView>>, count: nat)
    requires
        count >= levels.len(),
    ensures
        all_runs(extended(levels, count)) == all_runs(levels),
    decreases count - levels.len(),
{
    let wide = extended(levels, count);
    if count == levels.len() {
        assert(wide =~= levels);
    } else {
        let less = (count - 1) as nat;
        lemma_extended_runs(levels, less);
        assert(wide.drop_last() =~= extended(levels, less));
        assert(wide.last() =~= Seq::<RunView>::empty());
        assert(all_runs(wide) =~= all_runs(extended(levels, less)));
    }
}

/// A disk that holds a tree gives its levels back, but for empty ones at the
/// end.
proof fn lemma_opened(disk: DiskView, tree: TreeView) -> (levels: Seq<Seq<RunView>>)
    requires
        mirrors(disk, tree),
        kept(tree),
    ensures
        opened(disk) == Ok::<(Seq<Seq<RunView>>, nat), StorageError>(
            (levels, tree.next_sequence),
        ),
        levels.len() <= tree.levels.len() + 1,
        extended(levels, tree.levels.len() + 1) == extended(
            tree.levels,
            tree.levels.len() + 1,
        ),
        all_runs(levels) == all_runs(tree.levels),
{
    let manifest = manifest_on(disk)->Ok_0;
    let entries = in_reading_order(manifest.runs);
    let head = tree.levels;
    let none = Seq::<RunView>::empty();
    assert(level_entries(none, head.len()) =~= Seq::<RunEntryView>::empty());
    assert(all_settled(entries) =~= entries_for(head) + level_entries(none, head.len()));
    let levels = lemma_open_kept(disk.tables, entries, head, none, tree.next_sequence);
    assert(extended(head, head.len() + 1) =~= head.push(none));
    lemma_extended_runs(levels, head.len() + 1);
    lemma_extended_runs(head, head.len() + 1);
    levels
}

/// Taking up a disk that holds a tree gives that tree back: the same memtable,
/// log and runs.
pub proof fn law_recovery_restores_the_tree(disk: DiskView, tree: TreeView, recovered: TreeView)
    requires
        mirrors(disk, tree),
        kept(tree),
        is_opened(disk, recovered),
    ensures
        recovered.memtable == tree.memtable,
        recovered.log == tree.log,
        all_runs(recovered.levels) == all_runs(tree.levels),
        recovered.next_sequence == tree.next_sequence,
        same_answers(tree, recovered),
{
    let levels = lemma_opened(disk, tree);
    assert(recovered.levels == levels);
    assert(disk.log.take(disk.log.len() as int) =~= disk.log);
    assert(as_map(recovered.memtable) == as_map(tree.memtable));
    lemma_maps_are_lists(recovered.memtable, tree.memtable);
    assert forall|key: Seq<u8>| #[trigger] answer(tree, key) == answer(recovered, key) by {
        assert(tree_lists(tree) =~= tree_lists(recovered));
    }
}

proof fn lemma_maps_are_lists(a: Seq<EntryView>, b: Seq<EntryView>)
    requires
        ascending(a),
        ascending(b),
        as_map(a) == as_map(b),
    ensures
        a == b,
{
    assert forall|key: Seq<u8>| #[trigger] find(a, key) == find(b, key) by {
        assert(as_map(a).contains_key(key) == as_map(b).contains_key(key));
        if as_map(a).contains_key(key) {
            assert(as_map(a)[key] == as_map(b)[key]);
        }
    }
    lemma_same_map_same_list(a, b);
}

/// A disk can be taken up, and then answers as a tree does.
pub open spec fn recovers_as(disk: DiskView, tree: TreeView) -> bool {
    &&& opened(disk) is Ok
    &&& forall|recovered: TreeView| #[trigger]
        is_opened(disk, recovered) ==> same_answers(tree, recovered)
}

/// A disk that holds a tree can be taken up, and answers as the tree does.
pub proof fn law_recovery_answers_alike(disk: DiskView, tree: TreeView)
    requires
        mirrors(disk, tree),
        kept(tree),
    ensures
        recovers_as(disk, tree),
{
    let levels = lemma_opened(disk, tree);
    assert forall|recovered: TreeView| #[trigger] is_opened(disk, recovered) implies same_answers(
        tree,
        recovered,
    ) by {
        law_recovery_restores_the_tree(disk, tree, recovered);
    }
}

// ---------------------------------------------------------------------------
// Writing manifests
// ---------------------------------------------------------------------------

/// Runs listed in reading order.
spec fn ordered(entries: Seq<RunEntryView>) -> bool {
    forall|i: int, j: int|
        #![trigger entries[i], entries[j]]
        0 <= i < j < entries.len() ==> read_first(entries[i], entries[j])
}

proof fn lemma_ordered_stays(entries: Seq<RunEntryView>)
    requires
        ordered(entries),
    ensures
        in_reading_order(entries) == entries,
    decreases entries.len(),
{
    if entries.len() == 0 {
        assert(in_reading_order(entries) =~= entries);
    } else {
        let head = entries.drop_last();
        assert(ordered(head)) by {
            assert forall|i: int, j: int|
                #![trigger head[i], head[j]]
                0 <= i < j < head.len() implies read_first(head[i], head[j]) by {
                assert(head[i] == entries[i] && head[j] == entries[j]);
            }
        }
        lemma_ordered_stays(head);
        if head.len() > 0 {
            assert(read_first(entries[head.len() - 1], entries[entries.len() - 1]));
            assert(head.last() == entries[head.len() - 1]);
        }
        assert(head.push(entries.last()) =~= entries);
    }
}

/// Kept levels are listed in reading order, by entries that can be written.
proof fn lemma_entries_kept(levels: Seq<Seq<RunView>>, next: nat)
    requires
        levels.len() <= usize::MAX,
        next <= u64::MAX,
        forall|l: int| 0 <= l < levels.len() ==> level_kept(#[trigger] levels[l], next),
    ensures
        ordered(entries_for(levels)),
        all_settled(entries_for(levels)) == entries_for(levels),
        forall|i: int|
            0 <= i < entries_for(levels).len() ==> (#[trigger] entries_for(levels)[i]).level
                < levels.len() && writable_run(entries_for(levels)[i]),
    decreases levels.len(),
{
    let entries = entries_for(levels);
    if levels.len() > 0 {
        let head = levels.drop_last();
        let l = (levels.len() - 1) as nat;
        let level = levels[l as int];
        assert forall|a: int| 0 <= a < head.len() implies level_kept(#[trigger] head[a], next) by {
            assert(head[a] == levels[a]);
        }
        lemma_entries_kept(head, next);
        let before = entries_for(head);
        let added = level_entries(level, l);
        assert(level_kept(levels[l as int], next));
        assert forall|i: int| 0 <= i < entries.len() implies (#[trigger] entries[i]).level
            < levels.len() && writable_run(entries[i]) && settled(entries[i]) == entries[i] by {
            if i < before.len() {
                assert(entries[i] == before[i]);
                assert(all_settled(before)[i] == settled(before[i]));
            } else {
                let r = i - before.len();
                let run = level[r];
                assert(entries[i] == added[r]);
                assert(run_kept(level[r], next));
                let files = entries[i].files;
                assert forall|f: int| 0 <= f < files.len() implies super::manifest::is_word(
                    #[trigger] files[f],
                ) by {
                    assert(table_kept(run.tables[f], next));
                    let (a, b, c) = choose|a: nat, b: nat, c: nat|
                        b < next && run.tables[f].name == #[trigger] table_name(a, b, c);
                    lemma_table_name_is_word(a, b, c);
                }
            }
        }
        assert forall|i: int, j: int|
            #![trigger entries[i], entries[j]]
            0 <= i < j < entries.len() implies read_first(entries[i], entries[j]) by {
            if j < before.len() {
                assert(entries[i] == before[i] && entries[j] == before[j]);
            } else {
                assert(entries[j] == added[j - before.len()]);
                if i < before.len() {
                    assert(entries[i] == before[i]);
                } else {
                    assert(entries[i] == added[i - before.len()]);
                    assert(level[i - before.len()].sequence > level[j - before.len()].sequence);
                }
            }
        }
        assert(all_settled(entries) =~= entries);
    } else {
        assert(all_settled(entries) =~= entries);
    }
}

/// Once its manifest is stored, a tree is listed.
pub proof fn lemma_listed_once_stored(disk: DiskView, tree: TreeView)
    requires
        1 <= tree.next_sequence <= u64::MAX,
        levels_kept(tree.levels, tree.next_sequence),
        disk.manifest == Some(manifest_text(manifest_for(tree))),
    ensures
        listed(disk, tree),
{
    let manifest = manifest_for(tree);
    lemma_entries_kept(tree.levels, tree.next_sequence);
    assert(writable(manifest));
    law_manifest_round_trip(manifest);
    lemma_ordered_stays(manifest.runs);
}

// ---------------------------------------------------------------------------
// Writing and removing files
// ---------------------------------------------------------------------------

/// What is done to a name that no table has leaves the tables.
proof fn lemma_stored_but(
    before: Map<Seq<char>, Seq<u8>>,
    after: Map<Seq<char>, Seq<u8>>,
    levels: Seq<Seq<RunView>>,
    name: Seq<char>,
)
    requires
        stored(before, levels),
        times(levels, name) == 0,
        forall|other: Seq<char>|
            other != name && #[trigger] before.contains_key(other) ==> after.contains_key(other)
                && after[other] == before[other],
    ensures
        stored(after, levels),
{
    assert forall|l: int| 0 <= l < levels.len() implies level_stored(
        after,
        #[trigger] levels[l],
    ) by {
        assert(level_stored(before, levels[l]));
        assert forall|r: int| 0 <= r < levels[l].len() implies run_stored(
            after,
            #[trigger] levels[l][r],
        ) by {
            assert(run_stored(before, levels[l][r]));
            let run = levels[l][r];
            assert forall|f: int| 0 <= f < run.tables.len() implies file_stored(
                after,
                #[trigger] run.tables[f],
            ) by {
                assert(file_stored(before, run.tables[f]));
                lemma_times_present(levels, l, r, f);
                assert(before.contains_key(run.tables[f].name));
            }
        }
    }
}

/// Files written under new names leave what is there.
proof fn lemma_writes_are_new(
    disk: DiskView,
    tables: Seq<NamedView>,
    k: int,
    levels: Seq<Seq<RunView>>,
)
    requires
        stored(disk.tables, levels),
        0 <= k <= tables.len(),
        forall|f: int| 0 <= f < tables.len() ==> times(levels, (#[trigger] tables[f]).name) == 0,
    ensures
        ({
            let after = perform_all(disk, table_writes(tables).take(k));
            &&& stored(after.tables, levels)
            &&& after.manifest == disk.manifest
            &&& after.log == disk.log
        }),
    decreases k,
{
    let writes = table_writes(tables);
    if k == 0 {
        assert(writes.take(0) =~= Seq::<ActionView>::empty());
    } else {
        lemma_writes_are_new(disk, tables, k - 1, levels);
        assert(writes.take(k).drop_last() =~= writes.take(k - 1));
        assert(writes.take(k).last() == writes[k - 1]);
        let before = perform_all(disk, writes.take(k - 1));
        let after = perform_all(disk, writes.take(k));
        let name = tables[k - 1].name;
        lemma_stored_but(before.tables, after.tables, levels, name);
    }
}

/// Files written under names of their own are all there.
proof fn lemma_writes_are_there(disk: DiskView, tables: Seq<NamedView>, k: int, f: int)
    requires
        0 <= f < k <= tables.len(),
        forall|name: Seq<char>| #[trigger] times_tables(tables, name) <= 1,
    ensures
        file_stored(perform_all(disk, table_writes(tables).take(k)).tables, tables[f]),
    decreases k,
{
    let writes = table_writes(tables);
    assert(writes.take(k).drop_last() =~= writes.take(k - 1));
    assert(writes.take(k).last() == writes[k - 1]);
    if f < k - 1 {
        lemma_writes_are_there(disk, tables, k - 1, f);
        if tables[f].name == tables[k - 1].name {
            lemma_two_alike(tables, f, k - 1);
            assert(times_tables(tables, tables[f].name) <= 1);
        }
    }
}

/// Two tables of one name count twice.
proof fn lemma_two_alike(tables: Seq<NamedView>, f: int, g: int)
    requires
        0 <= f < g < tables.len(),
        tables[f].name == tables[g].name,
    ensures
        times_tables(tables, tables[f].name) >= 2,
    decreases tables.len(),
{
    let head = tables.drop_last();
    assert(head[f] == tables[f]);
    if g == tables.len() - 1 {
        lemma_times_tables_present(head, f);
    } else {
        assert(head[g] == tables[g]);
        lemma_two_alike(head, f, g);
    }
}

/// Removing files that are not named leaves those that are.
proof fn lemma_removals_leave(
    disk: DiskView,
    names: Seq<Seq<char>>,
    k: int,
    levels: Seq<Seq<RunView>>,
)
    requires
        stored(disk.tables, levels),
        0 <= k <= names.len(),
        forall|i: int| 0 <= i < names.len() ==> times(levels, #[trigger] names[i]) == 0,
    ensures
        ({
            let after = perform_all(disk, table_removals(names).take(k));
            &&& stored(after.tables, levels)
            &&& after.manifest == disk.manifest
            &&& after.log == disk.log
        }),
    decreases k,
{
    let removals = table_removals(names);
    if k == 0 {
        assert(removals.take(0) =~= Seq::<ActionView>::empty());
    } else {
        lemma_removals_leave(disk, names, k - 1, levels);
        assert(removals.take(k).drop_last() =~= removals.take(k - 1));
        assert(removals.take(k).last() == removals[k - 1]);
        let before = perform_all(disk, removals.take(k - 1));
        let after = perform_all(disk, removals.take(k));
        let name = names[k - 1];
        assert(times(levels, names[k - 1]) == 0);
        lemma_stored_but(before.tables, after.tables, levels, name);
    }
}

// ---------------------------------------------------------------------------
// What is done keeps the tree writable
// ---------------------------------------------------------------------------

/// What was kept before a sequence number is kept before the next.
proof fn lemma_run_stays_kept(run: RunView, next: nat)
    requires
        run_kept(run, next),
    ensures
        run_kept(run, next + 1),
{
    assert forall|f: int| 0 <= f < run.tables.len() implies table_kept(
        #[trigger] run.tables[f],
        next + 1,
    ) by {
        assert(table_kept(run.tables[f], next));
        let (a, b, c) = choose|a: nat, b: nat, c: nat|
            b < next && run.tables[f].name == #[trigger] table_name(a, b, c);
        assert(b < next + 1 && run.tables[f].name == table_name(a, b, c));
    }
}

/// A run that was written can be named.
proof fn lemma_written_run_kept(
    run: RunView,
    entries: Seq<EntryView>,
    level: nat,
    sequence: nat,
    units: nat,
    options: TableOptions,
)
    requires
        is_run_of(Some(run), entries, level, sequence, units, options),
        1 <= units <= usize::MAX,
    ensures
        run.sequence == sequence,
        run_kept(run, sequence + 1),
        forall|name: Seq<char>| #[trigger] times_tables(run.tables, name) <= 1,
        forall|f: int|
            0 <= f < run.tables.len() ==> (#[trigger] run.tables[f]).name == table_name(
                level,
                sequence,
                f as nat,
            ),
{
    reveal(is_run_of);
    let limit = options.target_file_size_bytes as nat;
    let parts = super::run::parts_of(entries, limit);
    super::run::lemma_parts(entries, limit);
    assert forall|f: int| 0 <= f < run.tables.len() implies (#[trigger] run.tables[f]).name
        == table_name(level, sequence, f as nat) && table_kept(run.tables[f], sequence + 1) by {
        assert(is_part(run.tables[f].table, parts[f], options));
        assert(sequence < sequence + 1 && run.tables[f].name == table_name(
            level,
            sequence,
            f as nat,
        ));
    }
    assert forall|name: Seq<char>| #[trigger] times_tables(run.tables, name) <= 1 by {
        lemma_times_parts(run.tables, level, sequence, name);
    }
}

/// A name that is given out for the first time is that of no table.
proof fn lemma_name_is_new(
    levels: Seq<Seq<RunView>>,
    next: nat,
    level: nat,
    part: nat,
)
    requires
        forall|l: int| 0 <= l < levels.len() ==> level_kept(#[trigger] levels[l], next),
    ensures
        times(levels, table_name(level, next, part)) == 0,
{
    let name = table_name(level, next, part);
    assert forall|l: int, r: int, f: int|
        0 <= l < levels.len() && 0 <= r < levels[l].len() && 0 <= f
            < levels[l][r].tables.len() implies (#[trigger] levels[l][r].tables[f]).name
        != name by {
        assert(level_kept(levels[l], next));
        assert(run_kept(levels[l][r], next));
        let run = levels[l][r];
        assert(table_kept(run.tables[f], next));
        let (a, b, c) = choose|a: nat, b: nat, c: nat|
            b < next && run.tables[f].name == #[trigger] table_name(a, b, c);
        if run.tables[f].name == name {
            law_table_names_are_unique(a, b, c, level, next, part);
        }
    }
    lemma_times_absent(levels, name);
}

/// Adding a run that was written keeps names apart.
proof fn lemma_names_stay_apart(
    levels: Seq<Seq<RunView>>,
    tables: Seq<NamedView>,
    level: nat,
    next: nat,
    name: Seq<char>,
)
    requires
        levels_kept(levels, next),
        forall|f: int|
            0 <= f < tables.len() ==> (#[trigger] tables[f]).name == table_name(
                level,
                next,
                f as nat,
            ),
        times_tables(tables, name) <= 1,
    ensures
        times(levels, name) + times_tables(tables, name) <= 1,
{
    if times_tables(tables, name) > 0 {
        if forall|f: int| 0 <= f < tables.len() ==> (#[trigger] tables[f]).name != name {
            lemma_times_tables_absent(tables, name);
        }
        let f = choose|f: int| 0 <= f < tables.len() && (#[trigger] tables[f]).name == name;
        lemma_name_is_new(levels, next, level, f as nat);
    }
}

/// A newest run in front of a kept level.
proof fn lemma_front_kept(level: Seq<RunView>, run: RunView, next: nat)
    requires
        level_kept(level, next),
        run_kept(run, next + 1),
        run.sequence == next,
    ensures
        level_kept(seq![run] + level, next + 1),
{
    let more = seq![run] + level;
    assert forall|r: int| 0 <= r < more.len() implies run_kept(#[trigger] more[r], next + 1) by {
        if r > 0 {
            assert(more[r] == level[r - 1]);
            lemma_run_stays_kept(level[r - 1], next);
        }
    }
    assert forall|r: int, s: int|
        #![trigger more[r], more[s]]
        0 <= r < s < more.len() implies more[r].sequence > more[s].sequence by {
        assert(more[s] == level[s - 1]);
        assert(run_kept(level[s - 1], next));
        if r > 0 {
            assert(more[r] == level[r - 1]);
        }
    }
}

proof fn lemma_level_stays_kept(level: Seq<RunView>, next: nat)
    requires
        level_kept(level, next),
    ensures
        level_kept(level, next + 1),
{
    assert forall|r: int| 0 <= r < level.len() implies run_kept(#[trigger] level[r], next + 1) by {
        lemma_run_stays_kept(level[r], next);
    }
}

/// A flush leaves levels that can be named.
proof fn lemma_flushed_kept(
    levels: Seq<Seq<RunView>>,
    run: RunView,
    entries: Seq<EntryView>,
    next: nat,
    options: TableOptions,
)
    requires
        levels_kept(levels, next),
        is_run_of(Some(run), entries, 0, next, 1, options),
    ensures
        levels_kept(levels_flushed(levels, run), next + 1),
{
    let after = levels_flushed(levels, run);
    lemma_written_run_kept(run, entries, 0, next, 1, options);
    assert forall|l: int| 0 <= l < after.len() implies level_kept(#[trigger] after[l], next + 1) by {
        if levels.len() == 0 {
            let none = Seq::<RunView>::empty();
            lemma_front_kept(none, run, next);
            assert(seq![run] + none =~= after[l]);
        } else if l == 0 {
            assert(level_kept(levels[0], next));
            lemma_front_kept(levels[0], run, next);
        } else {
            assert(level_kept(levels[l], next));
            lemma_level_stays_kept(levels[l], next);
        }
    }
    assert forall|name: Seq<char>| #[trigger] times(after, name) <= 1 by {
        lemma_times_flushed(levels, run, name);
        assert(times_tables(run.tables, name) <= 1);
        lemma_names_stay_apart(levels, run.tables, 0, next, name);
    }
}

/// Some of the tables of a run.
proof fn lemma_selected_kept(tables: Seq<NamedView>, keep: spec_fn(int) -> bool, next: nat)
    requires
        forall|f: int| 0 <= f < tables.len() ==> table_kept(#[trigger] tables[f], next),
    ensures
        forall|f: int|
            0 <= f < select(tables, keep).len() ==> table_kept(
                #[trigger] select(tables, keep)[f],
                next,
            ),
    decreases tables.len(),
{
    let chosen = select(tables, keep);
    if tables.len() > 0 {
        let head = tables.drop_last();
        assert forall|f: int| 0 <= f < head.len() implies table_kept(#[trigger] head[f], next) by {
            assert(head[f] == tables[f]);
        }
        lemma_selected_kept(head, keep, next);
        assert(table_kept(tables[tables.len() - 1], next));
        assert forall|f: int| 0 <= f < chosen.len() implies table_kept(
            #[trigger] chosen[f],
            next,
        ) by {
            if f < select(head, keep).len() {
                assert(chosen[f] == select(head, keep)[f]);
            }
        }
    }
}

/// What a job leaves of a level can be named.
proof fn lemma_left_kept(level: Seq<RunView>, l: int, job: CompactionJob, next: nat)
    requires
        level_kept(level, next),
    ensures
        level_kept(kept_level(level, l, job), next),
        forall|r: int, s: int|
            #![trigger kept_level(level, l, job)[r], level[s]]
            0 <= r < kept_level(level, l, job).len() && level.len() > 0 && s == level.len() - 1
                ==> kept_level(level, l, job)[r].sequence >= level[s].sequence,
    decreases level.len(),
{
    let left = kept_level(level, l, job);
    if level.len() > 0 {
        let head = level.drop_last();
        let n = level.len() - 1;
        assert(level_kept(head, next)) by {
            assert forall|r: int| 0 <= r < head.len() implies run_kept(
                #[trigger] head[r],
                next,
            ) by {
                assert(head[r] == level[r]);
            }
            assert forall|r: int, s: int|
                #![trigger head[r], head[s]]
                0 <= r < s < head.len() implies head[r].sequence > head[s].sequence by {
                assert(head[r] == level[r] && head[s] == level[s]);
            }
        }
        lemma_left_kept(head, l, job, next);
        let before = kept_level(head, l, job);
        let run = kept_run(level.last(), l, n, job);
        assert(run_kept(level[n], next));
        lemma_selected_kept(level[n].tables, unless(takes(job, l, n)), next);
        assert forall|r: int| 0 <= r < before.len() implies (#[trigger] before[r]).sequence
            > level[n].sequence by {
            if head.len() > 0 {
                assert(before[r].sequence >= head[head.len() - 1].sequence);
                assert(level[head.len() - 1].sequence > level[n].sequence);
            }
        }
        assert forall|r: int| 0 <= r < left.len() implies run_kept(#[trigger] left[r], next)
            && left[r].sequence >= level[n].sequence by {
            if r < before.len() {
                assert(left[r] == before[r]);
            } else {
                assert(left[r] == run);
            }
        }
        assert forall|r: int, s: int|
            #![trigger left[r], left[s]]
            0 <= r < s < left.len() implies left[r].sequence > left[s].sequence by {
            assert(left[r] == before[r]);
            if s < before.len() {
                assert(left[s] == before[s]);
            }
        }
    }
}

/// A folded level can be named.
proof fn lemma_coalesced_kept(level: Seq<RunView>, next: nat)
    requires
        level_kept(level, next),
    ensures
        level_kept(coalesced(level), next),
{
    if level.len() > 1 && disjoint(level) {
        let after = coalesced(level);
        let tables = super::coalesce::all_tables(level);
        let run = after[0];
        lemma_all_tables_kept(level, next);
        super::coalesce::lemma_sorted_holds(tables);
        assert forall|f: int| 0 <= f < run.tables.len() implies table_kept(
            #[trigger] run.tables[f],
            next,
        ) by {
            assert(tables.contains(run.tables[f]));
            let g = choose|g: int| 0 <= g < tables.len() && tables[g] == run.tables[f];
            assert(table_kept(tables[g], next));
        }
        assert(run_kept(run, next));
        assert forall|r: int| 0 <= r < after.len() implies run_kept(#[trigger] after[r], next) by {
            assert(r == 0);
        }
    }
}

proof fn lemma_all_tables_kept(level: Seq<RunView>, next: nat)
    requires
        forall|r: int| 0 <= r < level.len() ==> run_kept(#[trigger] level[r], next),
    ensures
        forall|f: int|
            0 <= f < super::coalesce::all_tables(level).len() ==> table_kept(
                #[trigger] super::coalesce::all_tables(level)[f],
                next,
            ),
        level.len() > 0 ==> super::coalesce::all_tables(level).len() > 0,
        level.len() > 0 ==> newest(level) < next,
    decreases level.len(),
{
    let tables = super::coalesce::all_tables(level);
    if level.len() > 0 {
        let head = level.drop_last();
        let n = level.len() - 1;
        assert forall|r: int| 0 <= r < head.len() implies run_kept(#[trigger] head[r], next) by {
            assert(head[r] == level[r]);
        }
        lemma_all_tables_kept(head, next);
        let before = super::coalesce::all_tables(head);
        assert(run_kept(level[n], next));
        assert forall|f: int| 0 <= f < tables.len() implies table_kept(
            #[trigger] tables[f],
            next,
        ) by {
            if f < before.len() {
                assert(tables[f] == before[f]);
            } else {
                assert(tables[f] == level[n].tables[f - before.len()]);
            }
        }
        if head.len() == 0 {
            assert(newest(head) == 0);
        }
    }
}

/// A job leaves levels that can be named.
proof fn lemma_performed_kept(
    levels: Seq<Seq<RunView>>,
    job: CompactionJob,
    run: Option<RunView>,
    merged: Seq<EntryView>,
    units: nat,
    next: nat,
    options: TableOptions,
    limit: nat,
)
    requires
        levels_kept(levels, next),
        is_run_of(run, merged, job.target_level as nat, next, units, options),
        1 <= units <= usize::MAX,
        levels_after(levels, job, run).len() <= usize::MAX,
    ensures
        levels_kept(
            folded(levels_after(levels, job, run), job.target_level as int, limit),
            next + 1,
        ),
{
    let middle = levels_after(levels, job, run);
    let t = job.target_level as int;
    let after = folded(middle, t, limit);
    match run {
        Some(run) => {
            lemma_written_run_kept(run, merged, job.target_level as nat, next, units, options);
        },
        None => {},
    }
    assert forall|l: int| 0 <= l < middle.len() implies level_kept(#[trigger] middle[l], next + 1) by {
        assert(middle[l] == level_after(levels, job, run, l));
        let left = if l < levels.len() {
            kept_level(levels[l], l, job)
        } else {
            Seq::empty()
        };
        if l < levels.len() {
            assert(level_kept(levels[l], next));
            lemma_left_kept(levels[l], l, job, next);
        }
        assert(level_kept(left, next));
        if l == t && run is Some {
            lemma_front_kept(left, run->0, next);
        } else {
            lemma_level_stays_kept(left, next);
        }
    }
    assert forall|l: int| 0 <= l < after.len() implies level_kept(#[trigger] after[l], next + 1) by {
        assert(level_kept(middle[l], next + 1));
        if limit == 1 && l == t {
            lemma_coalesced_kept(middle[l], next + 1);
        }
    }
    assert forall|name: Seq<char>| #[trigger] times(after, name) <= 1 by {
        lemma_times_folded(middle, t, limit, name);
        lemma_times_after(levels, job, run, name);
        let tables = tables_written(run);
        assert(times(levels, name) <= 1);
        match run {
            Some(run) => {
                assert(times_tables(run.tables, name) <= 1);
                lemma_names_stay_apart(levels, run.tables, job.target_level as nat, next, name);
            },
            None => {
                assert(times_tables(tables, name) == 0);
            },
        }
    }
}

// ---------------------------------------------------------------------------
// Writes
// ---------------------------------------------------------------------------

/// Logging a mutation keeps the log and the memtable together.
proof fn lemma_logged_kept(before: TreeView, after: TreeView, entry: EntryView)
    requires
        is_written(before, after, entry),
        loggable(entry),
        kept(before),
    ensures
        kept(after),
{
    lemma_single_record(entry);
    lemma_replay_concat(before.log, record_of(entry));
    let records = replay_of(before.log);
    assert(records + seq![entry] =~= records.push(entry));
    assert(records.push(entry).drop_last() =~= records);
}

/// A write is durable once its record is in the log: a disk that held the tree
/// before the write holds the tree after it.
pub proof fn law_writes_are_durable(
    disk: DiskView,
    before: TreeView,
    after: TreeView,
    entry: EntryView,
    policy: SyncPolicy,
)
    requires
        mirrors(disk, before),
        kept(before),
        is_written(before, after, entry),
        loggable(entry),
    ensures
        kept(after),
        mirrors(perform_all(disk, write_actions(entry, policy)), after),
        recovers_as(perform_all(disk, write_actions(entry, policy)), after),
{
    lemma_logged_kept(before, after, entry);
    let actions = write_actions(entry, policy);
    let append = ActionView::AppendLog { bytes: record_of(entry) };
    let one = seq![append];
    assert(one.drop_last() =~= Seq::<ActionView>::empty());
    assert(perform_all(disk, one.drop_last()) == disk);
    assert(perform_all(disk, one) == perform(disk, append));
    match policy {
        SyncPolicy::EveryWrite => {
            assert(actions.drop_last() =~= one);
            assert(actions.last() == ActionView::SyncLog);
        },
        SyncPolicy::Manual => {},
    }
    let now = perform_all(disk, actions);
    assert(now.log =~= after.log);
    assert(manifest_on(now) == manifest_on(disk));
    assert(entries_for(after.levels) == entries_for(before.levels));
    law_recovery_answers_alike(now, after);
}

// ---------------------------------------------------------------------------
// Crashes
// ---------------------------------------------------------------------------

/// After every one of these actions the disk can be taken up, and answers as
/// the tree does.
pub open spec fn recovers_throughout(
    disk: DiskView,
    actions: Seq<ActionView>,
    tree: TreeView,
) -> bool {
    forall|k: int|
        0 <= k <= actions.len() ==> recovers_as(
            #[trigger] perform_all(disk, actions.take(k)),
            tree,
        )
}

/// A disk that answers as one tree does answers as another that answers alike.
proof fn lemma_recovers_alike(disk: DiskView, a: TreeView, b: TreeView)
    requires
        recovers_as(disk, a),
        same_answers(a, b),
    ensures
        recovers_as(disk, b),
{
    assert forall|recovered: TreeView| #[trigger] is_opened(disk, recovered) implies same_answers(
        b,
        recovered,
    ) by {
        assert(same_answers(a, recovered));
        assert forall|key: Seq<u8>| #[trigger] answer(b, key) == answer(recovered, key) by {
            assert(answer(a, key) == answer(b, key));
            assert(answer(a, key) == answer(recovered, key));
        }
    }
}

/// Actions in two stretches.
proof fn lemma_recovers_concat(
    disk: DiskView,
    first: Seq<ActionView>,
    second: Seq<ActionView>,
    tree: TreeView,
)
    requires
        recovers_throughout(disk, first, tree),
        recovers_throughout(perform_all(disk, first), second, tree),
    ensures
        recovers_throughout(disk, first + second, tree),
{
    let all = first + second;
    assert forall|k: int| 0 <= k <= all.len() implies recovers_as(
        #[trigger] perform_all(disk, all.take(k)),
        tree,
    ) by {
        if k <= first.len() {
            assert(all.take(k) =~= first.take(k));
        } else {
            let j = k - first.len();
            assert(all.take(k) =~= first + second.take(j));
            lemma_perform_concat(disk, first, second.take(j));
            assert(recovers_as(
                perform_all(perform_all(disk, first), second.take(j)),
                tree,
            ));
        }
    }
}

/// Writing the tables of a new run: at every point the disk still holds the
/// tree, and in the end the tables are there as well.
proof fn lemma_writes_recover(
    disk: DiskView,
    tree: TreeView,
    run: Option<RunView>,
    entries: Seq<EntryView>,
    level: nat,
    units: nat,
    options: TableOptions,
)
    requires
        mirrors(disk, tree),
        kept(tree),
        is_run_of(run, entries, level, tree.next_sequence, units, options),
        1 <= units <= usize::MAX,
    ensures
        ({
            let writes = table_writes(tables_written(run));
            let after = perform_all(disk, writes);
            &&& recovers_throughout(disk, writes, tree)
            &&& mirrors(after, tree)
            &&& forall|f: int|
                0 <= f < tables_written(run).len() ==> file_stored(
                    after.tables,
                    #[trigger] tables_written(run)[f],
                )
        }),
{
    let tables = tables_written(run);
    let writes = table_writes(tables);
    match run {
        Some(run) => {
            lemma_written_run_kept(run, entries, level, tree.next_sequence, units, options);
        },
        None => {},
    }
    assert forall|f: int| 0 <= f < tables.len() implies times(
        tree.levels,
        (#[trigger] tables[f]).name,
    ) == 0 by {
        lemma_name_is_new(tree.levels, tree.next_sequence, level, f as nat);
    }
    assert forall|k: int| 0 <= k <= writes.len() implies mirrors(
        #[trigger] perform_all(disk, writes.take(k)),
        tree,
    ) by {
        lemma_writes_are_new(disk, tables, k, tree.levels);
    }
    assert forall|k: int| 0 <= k <= writes.len() implies recovers_as(
        #[trigger] perform_all(disk, writes.take(k)),
        tree,
    ) by {
        law_recovery_answers_alike(perform_all(disk, writes.take(k)), tree);
    }
    assert(writes.take(writes.len() as int) =~= writes);
    assert(mirrors(perform_all(disk, writes.take(writes.len() as int)), tree));
    let after = perform_all(disk, writes);
    assert forall|f: int| 0 <= f < tables.len() implies file_stored(
        after.tables,
        #[trigger] tables[f],
    ) by {
        lemma_writes_are_there(disk, tables, tables.len() as int, f);
    }
}

/// Storing the manifest of a tree whose tables are there.
proof fn lemma_commit(disk: DiskView, tree: TreeView)
    requires
        kept(tree),
        stored(disk.tables, tree.levels),
        disk.log == tree.log,
    ensures
        mirrors(perform(disk, manifest_store(tree)), tree),
{
    let after = perform(disk, manifest_store(tree));
    lemma_listed_once_stored(after, tree);
}

proof fn lemma_stored_flushed(
    map: Map<Seq<char>, Seq<u8>>,
    levels: Seq<Seq<RunView>>,
    run: RunView,
)
    requires
        stored(map, levels),
        run_stored(map, run),
    ensures
        stored(map, levels_flushed(levels, run)),
{
    let after = levels_flushed(levels, run);
    assert forall|l: int| 0 <= l < after.len() implies level_stored(map, #[trigger] after[l]) by {
        if levels.len() > 0 {
            assert(level_stored(map, levels[l]));
        }
        assert forall|r: int| 0 <= r < after[l].len() implies run_stored(
            map,
            #[trigger] after[l][r],
        ) by {
            if levels.len() > 0 {
                if l == 0 {
                    if r > 0 {
                        assert(after[l][r] == levels[0][r - 1]);
                    }
                } else {
                    assert(after[l][r] == levels[l][r]);
                }
            }
        }
    }
}

/// The tree between the commit point of a flush and the end of its log.
spec fn between(before: TreeView, after: TreeView) -> TreeView {
    TreeView { memtable: before.memtable, log: before.log, ..after }
}

/// What is both in the memtable and in the newest run is found in the memtable.
proof fn lemma_between_answers(before: TreeView, after: TreeView, run: RunView)
    requires
        after.levels == levels_flushed(before.levels, run),
        run_entries(run.tables) == before.memtable,
    ensures
        same_answers(before, between(before, after)),
{
    let middle = between(before, after);
    super::soundness::lemma_all_runs_flushed(before.levels, run);
    let old_lists = lists_of(all_runs(before.levels));
    let own = seq![before.memtable];
    assert forall|key: Seq<u8>| #[trigger] answer(before, key) == answer(middle, key) by {
        assert(lists_of(all_runs(after.levels)) =~= own + old_lists);
        assert(tree_lists(middle) =~= own + (own + old_lists));
        lemma_first_found_concat(own, own + old_lists, key);
        lemma_first_found_concat(own, old_lists, key);
    }
}

/// A flush survives a crash at any point: until its manifest is stored the disk
/// holds the tree as it was, and from then on the tree as it is, whose memtable
/// is replayed once more for as long as the log is still there.
#[verifier::rlimit(40)]
pub proof fn law_flush_survives_a_crash(
    disk: DiskView,
    before: TreeView,
    after: TreeView,
    actions: Seq<ActionView>,
    options: TableOptions,
)
    requires
        mirrors(disk, before),
        kept(before),
        before.next_sequence < u64::MAX,
        sound(before),
        fits_upto(options, weight(before)),
        is_flushed(before, after, actions, options),
    ensures
        recovers_throughout(disk, actions, before),
        mirrors(perform_all(disk, actions), after),
        kept(after),
{
    let run = choose|run: RunView| #[trigger]
        is_flushed_as(before, after, actions, options, run);
    super::soundness::lemma_flushed_run(before, after, actions, options, run);
    lemma_flushed_facts(before, after, actions, options, run);
    lemma_writes_recover(disk, before, Some(run), before.memtable, 0, 1, options);
    let writes = table_writes(run.tables);
    let written = perform_all(disk, writes);
    assert(run_stored(written.tables, run)) by {
        assert forall|f: int| 0 <= f < run.tables.len() implies file_stored(
            written.tables,
            #[trigger] run.tables[f],
        ) by {
            assert(file_stored(written.tables, tables_written(Some(run))[f]));
        }
    }
    law_flushing_is_invisible(before, after, actions, options);
    lemma_flush_commits(written, before, after, run);
    let rest = seq![manifest_store(after), ActionView::ResetLog];
    lemma_recovers_concat(disk, writes, rest, before);
    lemma_perform_concat(disk, writes, rest);
}

/// What a flush leaves can be written down, and what it asks of the disk.
proof fn lemma_flushed_facts(
    before: TreeView,
    after: TreeView,
    actions: Seq<ActionView>,
    options: TableOptions,
    run: RunView,
)
    requires
        is_flushed_as(before, after, actions, options, run),
        kept(before),
        before.next_sequence < u64::MAX,
    ensures
        is_run_of(Some(run), before.memtable, 0, before.next_sequence, 1, options),
        actions == table_writes(run.tables) + seq![manifest_store(after), ActionView::ResetLog],
        after.next_sequence == before.next_sequence + 1,
        after.memtable.len() == 0,
        after.log.len() == 0,
        kept(after),
{
    reveal(is_flushed_as);
    lemma_flushed_kept(before.levels, run, before.memtable, before.next_sequence, options);
    lemma_empty_log(after);
}

/// From the commit point of a flush on.
#[verifier::rlimit(40)]
proof fn lemma_flush_commits(written: DiskView, before: TreeView, after: TreeView, run: RunView)
    requires
        mirrors(written, before),
        run_stored(written.tables, run),
        kept(before),
        kept(after),
        after.levels == levels_flushed(before.levels, run),
        after.log.len() == 0,
        run_entries(run.tables) == before.memtable,
        same_answers(before, after),
    ensures
        recovers_throughout(
            written,
            seq![manifest_store(after), ActionView::ResetLog],
            before,
        ),
        mirrors(
            perform_all(written, seq![manifest_store(after), ActionView::ResetLog]),
            after,
        ),
{
    let store = manifest_store(after);
    let committed = perform(written, store);
    let middle = between(before, after);
    lemma_stored_flushed(written.tables, before.levels, run);
    assert(kept(middle));
    assert(manifest_for(middle) == manifest_for(after));
    lemma_commit(written, middle);
    law_recovery_answers_alike(committed, middle);
    lemma_between_answers(before, after, run);
    assert(same_answers(middle, before)) by {
        assert forall|key: Seq<u8>| #[trigger] answer(middle, key) == answer(before, key) by {
            assert(answer(before, key) == answer(middle, key));
        }
    }
    lemma_recovers_alike(committed, middle, before);
    let ended = perform(committed, ActionView::ResetLog);
    assert(ended.log =~= after.log);
    assert(listed(ended, after));
    assert(mirrors(ended, after));
    law_recovery_answers_alike(ended, after);
    assert(same_answers(after, before)) by {
        assert forall|key: Seq<u8>| #[trigger] answer(after, key) == answer(before, key) by {
            assert(answer(before, key) == answer(after, key));
        }
    }
    lemma_recovers_alike(ended, after, before);
    law_recovery_answers_alike(written, before);
    let rest = seq![store, ActionView::ResetLog];
    lemma_two_actions(written, store, ActionView::ResetLog);
    assert forall|k: int| 0 <= k <= rest.len() implies recovers_as(
        #[trigger] perform_all(written, rest.take(k)),
        before,
    ) by {
        if k == 0 {
            assert(rest.take(0) =~= Seq::<ActionView>::empty());
        } else if k == 1 {
            assert(rest.take(1) =~= seq![store]);
        } else {
            assert(rest.take(2) =~= rest);
        }
    }
}

proof fn lemma_two_actions(disk: DiskView, a: ActionView, b: ActionView)
    ensures
        perform_all(disk, seq![a]) == perform(disk, a),
        perform_all(disk, seq![a, b]) == perform(perform(disk, a), b),
{
    assert(seq![a].drop_last() =~= Seq::<ActionView>::empty());
    assert(perform_all(disk, seq![a].drop_last()) == disk);
    assert(seq![a, b].drop_last() =~= seq![a]);
}

/// An empty log says nothing.
proof fn lemma_empty_log(tree: TreeView)
    requires
        tree.log.len() == 0,
        tree.memtable.len() == 0,
    ensures
        log_kept(tree),
{
    assert(replay_of(tree.log) =~= Seq::<EntryView>::empty());
    assert(as_map(tree.memtable) =~= Map::<Seq<u8>, Option<Seq<u8>>>::empty()) by {
        assert forall|key: Seq<u8>| !has_key(tree.memtable, key) by {}
    }
}

/// The files of what a job leaves are there.
proof fn lemma_stored_left(
    map: Map<Seq<char>, Seq<u8>>,
    level: Seq<RunView>,
    l: int,
    job: CompactionJob,
)
    requires
        level_stored(map, level),
    ensures
        level_stored(map, kept_level(level, l, job)),
    decreases level.len(),
{
    let left = kept_level(level, l, job);
    if level.len() > 0 {
        let head = level.drop_last();
        let n = level.len() - 1;
        assert forall|r: int| 0 <= r < head.len() implies run_stored(map, #[trigger] head[r]) by {
            assert(head[r] == level[r]);
        }
        lemma_stored_left(map, head, l, job);
        let before = kept_level(head, l, job);
        let run = kept_run(level.last(), l, n, job);
        assert(run_stored(map, level[n]));
        lemma_selected_stored(map, level[n].tables, unless(takes(job, l, n)));
        assert forall|r: int| 0 <= r < left.len() implies run_stored(map, #[trigger] left[r]) by {
            if r < before.len() {
                assert(left[r] == before[r]);
            } else {
                assert(left[r] == run);
            }
        }
    }
}

proof fn lemma_selected_stored(
    map: Map<Seq<char>, Seq<u8>>,
    tables: Seq<NamedView>,
    keep: spec_fn(int) -> bool,
)
    requires
        forall|f: int| 0 <= f < tables.len() ==> file_stored(map, #[trigger] tables[f]),
    ensures
        forall|f: int|
            0 <= f < select(tables, keep).len() ==> file_stored(
                map,
                #[trigger] select(tables, keep)[f],
            ),
    decreases tables.len(),
{
    let chosen = select(tables, keep);
    if tables.len() > 0 {
        let head = tables.drop_last();
        assert forall|f: int| 0 <= f < head.len() implies file_stored(map, #[trigger] head[f]) by {
            assert(head[f] == tables[f]);
        }
        lemma_selected_stored(map, head, keep);
        assert(file_stored(map, tables[tables.len() - 1]));
        assert forall|f: int| 0 <= f < chosen.len() implies file_stored(
            map,
            #[trigger] chosen[f],
        ) by {
            if f < select(head, keep).len() {
                assert(chosen[f] == select(head, keep)[f]);
            }
        }
    }
}

proof fn lemma_stored_coalesced(map: Map<Seq<char>, Seq<u8>>, level: Seq<RunView>)
    requires
        level_stored(map, level),
    ensures
        level_stored(map, coalesced(level)),
{
    if level.len() > 1 && disjoint(level) {
        let tables = super::coalesce::all_tables(level);
        let after = coalesced(level);
        lemma_all_tables_stored(map, level);
        super::coalesce::lemma_sorted_holds(tables);
        assert forall|r: int| 0 <= r < after.len() implies run_stored(map, #[trigger] after[r]) by {
            let run = after[0];
            assert forall|f: int| 0 <= f < run.tables.len() implies file_stored(
                map,
                #[trigger] run.tables[f],
            ) by {
                assert(tables.contains(run.tables[f]));
                let g = choose|g: int| 0 <= g < tables.len() && tables[g] == run.tables[f];
                assert(file_stored(map, tables[g]));
            }
        }
    }
}

proof fn lemma_all_tables_stored(map: Map<Seq<char>, Seq<u8>>, level: Seq<RunView>)
    requires
        level_stored(map, level),
    ensures
        forall|f: int|
            0 <= f < super::coalesce::all_tables(level).len() ==> file_stored(
                map,
                #[trigger] super::coalesce::all_tables(level)[f],
            ),
    decreases level.len(),
{
    let tables = super::coalesce::all_tables(level);
    if level.len() > 0 {
        let head = level.drop_last();
        let n = level.len() - 1;
        assert forall|r: int| 0 <= r < head.len() implies run_stored(map, #[trigger] head[r]) by {
            assert(head[r] == level[r]);
        }
        lemma_all_tables_stored(map, head);
        let before = super::coalesce::all_tables(head);
        assert(run_stored(map, level[n]));
        assert forall|f: int| 0 <= f < tables.len() implies file_stored(
            map,
            #[trigger] tables[f],
        ) by {
            if f < before.len() {
                assert(tables[f] == before[f]);
            } else {
                assert(tables[f] == level[n].tables[f - before.len()]);
            }
        }
    }
}

/// The files of the levels after a job are there.
proof fn lemma_stored_after(
    map: Map<Seq<char>, Seq<u8>>,
    levels: Seq<Seq<RunView>>,
    job: CompactionJob,
    run: Option<RunView>,
    limit: nat,
)
    requires
        stored(map, levels),
        run matches Some(run) ==> run_stored(map, run),
    ensures
        stored(map, folded(levels_after(levels, job, run), job.target_level as int, limit)),
{
    let middle = levels_after(levels, job, run);
    let t = job.target_level as int;
    let after = folded(middle, t, limit);
    assert forall|l: int| 0 <= l < middle.len() implies level_stored(map, #[trigger] middle[l]) by {
        assert(middle[l] == level_after(levels, job, run, l));
        let left = if l < levels.len() {
            kept_level(levels[l], l, job)
        } else {
            Seq::empty()
        };
        if l < levels.len() {
            assert(level_stored(map, levels[l]));
            lemma_stored_left(map, levels[l], l, job);
        }
        assert(level_stored(map, left));
        if l == t && run is Some {
            assert forall|r: int| 0 <= r < middle[l].len() implies run_stored(
                map,
                #[trigger] middle[l][r],
            ) by {
                if r > 0 {
                    assert(middle[l][r] == left[r - 1]);
                }
            }
        }
    }
    assert forall|l: int| 0 <= l < after.len() implies level_stored(map, #[trigger] after[l]) by {
        assert(level_stored(map, middle[l]));
        if limit == 1 && l == t {
            lemma_stored_coalesced(map, middle[l]);
        }
    }
}

/// What a job leaves can be written down, and what it asks of the disk.
proof fn lemma_performed_facts(
    before: TreeView,
    after: TreeView,
    actions: Seq<ActionView>,
    job: CompactionJob,
    config: LsmConfig,
    merged: Seq<EntryView>,
    run: Option<RunView>,
)
    requires
        is_performed_as(before, after, actions, job, config, merged, run),
        kept(before),
        before.next_sequence < u64::MAX,
    ensures
        is_run_of(
            run,
            merged,
            job.target_level as nat,
            before.next_sequence,
            super::steps::merged_units(before.levels, job),
            config.options(),
        ),
        1 <= super::steps::merged_units(before.levels, job) <= usize::MAX,
        actions == table_writes(tables_written(run)) + seq![manifest_store(after)]
            + table_removals(table_names(tables_taken(before.levels, job))),
        after.levels == folded(
            levels_after(before.levels, job, run),
            job.target_level as int,
            config.merge.run_limit(),
        ),
        after.log == before.log,
        after.next_sequence == before.next_sequence + 1,
        kept(after),
        forall|i: int|
            0 <= i < tables_taken(before.levels, job).len() ==> times(
                after.levels,
                (#[trigger] tables_taken(before.levels, job)[i]).name,
            ) == 0,
{
    reveal(is_performed_as);
    let units = super::steps::merged_units(before.levels, job);
    let limit = config.merge.run_limit();
    lemma_performed_kept(
        before.levels,
        job,
        run,
        merged,
        units,
        before.next_sequence,
        config.options(),
        limit,
    );
    let gone = tables_taken(before.levels, job);
    assert forall|i: int| 0 <= i < gone.len() implies times(
        after.levels,
        (#[trigger] gone[i]).name,
    ) == 0 by {
        let name = gone[i].name;
        lemma_times_tables_present(gone, i);
        lemma_times_after(before.levels, job, run, name);
        lemma_times_folded(
            levels_after(before.levels, job, run),
            job.target_level as int,
            limit,
            name,
        );
        assert(times(before.levels, name) <= 1);
        match run {
            Some(run) => {
                lemma_written_run_kept(
                    run,
                    merged,
                    job.target_level as nat,
                    before.next_sequence,
                    units,
                    config.options(),
                );
                assert(times_tables(run.tables, name) <= 1);
                lemma_names_stay_apart(
                    before.levels,
                    run.tables,
                    job.target_level as nat,
                    before.next_sequence,
                    name,
                );
            },
            None => {},
        }
    }
}

/// From the commit point of a job on.
proof fn lemma_job_commits(
    written: DiskView,
    before: TreeView,
    after: TreeView,
    names: Seq<Seq<char>>,
)
    requires
        kept(after),
        stored(written.tables, after.levels),
        written.log == after.log,
        mirrors(written, before),
        kept(before),
        same_answers(before, after),
        forall|i: int| 0 <= i < names.len() ==> times(after.levels, #[trigger] names[i]) == 0,
    ensures
        recovers_throughout(
            written,
            seq![manifest_store(after)] + table_removals(names),
            before,
        ),
        mirrors(
            perform_all(written, seq![manifest_store(after)] + table_removals(names)),
            after,
        ),
{
    let store = manifest_store(after);
    let removals = table_removals(names);
    let rest = seq![store] + removals;
    let committed = perform(written, store);
    lemma_commit(written, after);
    lemma_two_actions(written, store, store);
    law_recovery_answers_alike(written, before);
    assert(same_answers(after, before)) by {
        assert forall|key: Seq<u8>| #[trigger] answer(after, key) == answer(before, key) by {
            assert(answer(before, key) == answer(after, key));
        }
    }
    assert forall|k: int| 0 <= k <= rest.len() implies recovers_as(
        #[trigger] perform_all(written, rest.take(k)),
        before,
    ) && (k > 0 ==> mirrors(perform_all(written, rest.take(k)), after)) by {
        if k == 0 {
            assert(rest.take(0) =~= Seq::<ActionView>::empty());
        } else {
            assert(rest.take(k) =~= seq![store] + removals.take(k - 1));
            lemma_perform_concat(written, seq![store], removals.take(k - 1));
            lemma_removals_leave(committed, names, k - 1, after.levels);
            let now = perform_all(written, rest.take(k));
            assert(mirrors(now, after));
            law_recovery_answers_alike(now, after);
            lemma_recovers_alike(now, after, before);
        }
    }
    assert(rest.take(rest.len() as int) =~= rest);
    assert(mirrors(perform_all(written, rest.take(rest.len() as int)), after));
}

/// A compaction survives a crash at any point: until its manifest is stored the
/// disk holds the tree as it was, and from then on the tree as it is, however
/// many of the old files are left.
#[verifier::rlimit(40)]
pub proof fn law_compaction_survives_a_crash(
    disk: DiskView,
    before: TreeView,
    after: TreeView,
    actions: Seq<ActionView>,
    shape: TreeShape,
    job: CompactionJob,
    config: LsmConfig,
)
    requires
        mirrors(disk, before),
        kept(before),
        before.next_sequence < u64::MAX,
        sound(before),
        fits_upto(config.options(), weight(before)),
        is_performed(before, after, actions, job, config),
        is_shape_of(shape, before.levels),
        safe(shape, job),
    ensures
        recovers_throughout(disk, actions, before),
        mirrors(perform_all(disk, actions), after),
        kept(after),
{
    let (merged, run) = choose|merged: Seq<EntryView>, run: Option<RunView>| #[trigger]
        is_performed_as(before, after, actions, job, config, merged, run);
    lemma_performed_facts(before, after, actions, job, config, merged, run);
    let units = super::steps::merged_units(before.levels, job);
    lemma_writes_recover(
        disk,
        before,
        run,
        merged,
        job.target_level as nat,
        units,
        config.options(),
    );
    let writes = table_writes(tables_written(run));
    let written = perform_all(disk, writes);
    match run {
        Some(run) => {
            assert(run_stored(written.tables, run)) by {
                assert forall|f: int| 0 <= f < run.tables.len() implies file_stored(
                    written.tables,
                    #[trigger] run.tables[f],
                ) by {
                    assert(file_stored(written.tables, tables_written(Some(run))[f]));
                }
            }
        },
        None => {},
    }
    lemma_stored_after(
        written.tables,
        before.levels,
        job,
        run,
        config.merge.run_limit(),
    );
    law_compacting_is_invisible(before, after, actions, shape, job, config);
    let gone = tables_taken(before.levels, job);
    let names = table_names(gone);
    assert forall|i: int| 0 <= i < names.len() implies times(
        after.levels,
        #[trigger] names[i],
    ) == 0 by {
        assert(times(after.levels, gone[i].name) == 0);
    }
    lemma_job_commits(written, before, after, names);
    let rest = seq![manifest_store(after)] + table_removals(names);
    assert(actions =~= writes + rest);
    lemma_recovers_concat(disk, writes, rest, before);
    lemma_perform_concat(disk, writes, rest);
}

/// Nothing to do leaves what is there.
proof fn lemma_no_actions(disk: DiskView, tree: TreeView)
    requires
        mirrors(disk, tree),
        kept(tree),
    ensures
        recovers_throughout(disk, Seq::empty(), tree),
        perform_all(disk, Seq::empty()) == disk,
{
    let none = Seq::<ActionView>::empty();
    law_recovery_answers_alike(disk, tree);
    assert forall|k: int| 0 <= k <= none.len() implies recovers_as(
        #[trigger] perform_all(disk, none.take(k)),
        tree,
    ) by {
        assert(none.take(k) =~= none);
    }
}

/// A second stretch that keeps other answers, which are the same.
proof fn lemma_recovers_throughout_alike(
    disk: DiskView,
    actions: Seq<ActionView>,
    a: TreeView,
    b: TreeView,
)
    requires
        recovers_throughout(disk, actions, a),
        same_answers(a, b),
    ensures
        recovers_throughout(disk, actions, b),
{
    assert forall|k: int| 0 <= k <= actions.len() implies recovers_as(
        #[trigger] perform_all(disk, actions.take(k)),
        b,
    ) by {
        lemma_recovers_alike(perform_all(disk, actions.take(k)), a, b);
    }
}

proof fn lemma_same_answers_back(a: TreeView, b: TreeView)
    requires
        same_answers(a, b),
    ensures
        same_answers(b, a),
{
    assert forall|key: Seq<u8>| #[trigger] answer(b, key) == answer(a, key) by {
        assert(answer(a, key) == answer(b, key));
    }
}

/// Turns survive a crash at any point.
#[verifier::rlimit(40)]
proof fn lemma_turns_survive(
    disk: DiskView,
    before: Phase,
    after: Phase,
    turns: nat,
    config: LsmConfig,
) -> (actions: Seq<ActionView>)
    requires
        mirrors(disk, before.tree),
        kept(before.tree),
        sound(before.tree),
        fits_upto(config.options(), weight(before.tree)),
        turned(before, after, turns, config),
    ensures
        after.actions == before.actions + actions,
        recovers_throughout(disk, actions, before.tree),
        mirrors(perform_all(disk, actions), after.tree),
        kept(after.tree),
        sound(after.tree),
        same_answers(before.tree, after.tree),
        weight(after.tree) <= weight(before.tree),
    decreases turns,
{
    if turns == 0 {
        let none = Seq::<ActionView>::empty();
        lemma_no_actions(disk, before.tree);
        assert(before.actions + none =~= before.actions);
        none
    } else {
        let fewer = (turns - 1) as nat;
        let middle = choose|middle: Phase|
            turned(before, middle, (turns - 1) as nat, config) && #[trigger] turns_to(
                middle,
                after,
                config,
            );
        let first = lemma_turns_survive(disk, before, middle, fewer, config);
        let (shape, request, job) = choose|
            shape: TreeShape,
            request: CompactionRequest,
            job: Option<CompactionJob>,
        | #[trigger] is_turn(middle, after, config, shape, request, job);
        match job {
            None => first,
            Some(job) => {
                let second = choose|actions: Seq<ActionView>| #[trigger]
                    is_performed(middle.tree, after.tree, actions, job, config) && after.actions
                        == middle.actions + actions;
                let now = perform_all(disk, first);
                law_compaction_survives_a_crash(
                    now,
                    middle.tree,
                    after.tree,
                    second,
                    shape,
                    job,
                    config,
                );
                law_compacting_is_invisible(
                    middle.tree,
                    after.tree,
                    second,
                    shape,
                    job,
                    config,
                );
                lemma_same_answers_back(before.tree, middle.tree);
                lemma_recovers_throughout_alike(now, second, middle.tree, before.tree);
                lemma_recovers_concat(disk, first, second, before.tree);
                lemma_perform_concat(disk, first, second);
                assert(before.actions + (first + second) =~= before.actions + first + second);
                assert forall|key: Seq<u8>| #[trigger]
                    answer(before.tree, key) == answer(after.tree, key) by {
                    assert(answer(middle.tree, key) == answer(before.tree, key));
                    assert(answer(middle.tree, key) == answer(after.tree, key));
                }
                lemma_performed_sequence(middle.tree, after.tree, second, job, config);
                first + second
            },
        }
    }
}

proof fn lemma_performed_sequence(
    before: TreeView,
    after: TreeView,
    actions: Seq<ActionView>,
    job: CompactionJob,
    config: LsmConfig,
)
    requires
        is_performed(before, after, actions, job, config),
    ensures
        after.next_sequence == before.next_sequence + 1,
{
    reveal(is_performed_as);
}

/// Compaction loses nothing, whenever a crash comes: what it asks of the disk can
/// end after any action, and the disk then answers as the tree did before.
pub proof fn law_compacting_loses_nothing(
    disk: DiskView,
    before: Phase,
    after: Phase,
    config: LsmConfig,
) -> (actions: Seq<ActionView>)
    requires
        mirrors(disk, before.tree),
        kept(before.tree),
        sound(before.tree),
        fits_upto(config.options(), weight(before.tree)),
        is_compacted(before, after, config),
    ensures
        after.actions == before.actions + actions,
        recovers_throughout(disk, actions, before.tree),
        mirrors(perform_all(disk, actions), after.tree),
        kept(after.tree),
{
    let (turns, middle) = choose|turns: nat, middle: Phase| #[trigger]
        turned(before, middle, turns, config) && turns <= config.max_compactions_per_flush
            && if is_over(middle, turns, config) {
            after == middle
        } else {
            rests(middle, after)
        };
    lemma_turns_survive(disk, before, middle, turns, config)
}

/// A flush, with the compactions after it, loses nothing, whenever a crash
/// comes.
#[verifier::rlimit(40)]
pub proof fn law_flushing_loses_nothing(
    disk: DiskView,
    before: Phase,
    after: Phase,
    config: LsmConfig,
) -> (actions: Seq<ActionView>)
    requires
        mirrors(disk, before.tree),
        kept(before.tree),
        sound(before.tree),
        fits_upto(config.options(), weight(before.tree)),
        super::steps::flush_outcome(
            before,
            after,
            Ok::<bool, StorageError>(before.tree.memtable.len() > 0),
            config,
        ),
        before.tree.memtable.len() > 0 ==> has_sequence(before.tree),
    ensures
        after.actions == before.actions + actions,
        recovers_throughout(disk, actions, before.tree),
        mirrors(perform_all(disk, actions), after.tree),
        kept(after.tree),
{
    if before.tree.memtable.len() == 0 {
        let none = Seq::<ActionView>::empty();
        lemma_no_actions(disk, before.tree);
        assert(before.actions + none =~= before.actions);
        none
    } else {
        let middle = choose|middle: Phase| #[trigger]
            is_noted(before, middle, config) && is_compacted(middle, after, config);
        let first = choose|actions: Seq<ActionView>| #[trigger]
            is_flushed(before.tree, middle.tree, actions, config.options()) && middle.actions
                == before.actions + actions;
        law_flush_survives_a_crash(disk, before.tree, middle.tree, first, config.options());
        law_flushing_is_invisible(before.tree, middle.tree, first, config.options());
        let now = perform_all(disk, first);
        lemma_flushed_sequence(before.tree, middle.tree, first, config.options());
        let second = law_compacting_loses_nothing(now, middle, after, config);
        lemma_same_answers_back(before.tree, middle.tree);
        lemma_recovers_throughout_alike(now, second, middle.tree, before.tree);
        lemma_recovers_concat(disk, first, second, before.tree);
        lemma_perform_concat(disk, first, second);
        assert(before.actions + (first + second) =~= before.actions + first + second);
        first + second
    }
}

proof fn lemma_flushed_sequence(
    before: TreeView,
    after: TreeView,
    actions: Seq<ActionView>,
    options: TableOptions,
)
    requires
        is_flushed(before, after, actions, options),
    ensures
        after.next_sequence == before.next_sequence + 1,
{
    reveal(is_flushed_as);
}

/// A write that was accepted loses nothing, whenever a crash comes: until its
/// record is in the log the disk answers as the tree did before, and from then
/// on as the tree does after it, through every flush and compaction that the
/// write sets off.
#[verifier::rlimit(40)]
pub proof fn law_writing_loses_nothing(
    disk: DiskView,
    before: Phase,
    after: Phase,
    entry: EntryView,
    config: LsmConfig,
) -> (actions: Seq<ActionView>)
    requires
        mirrors(disk, before.tree),
        kept(before.tree),
        sound(before.tree),
        fits_upto(config.options(), weight(before.tree) + charge(entry)),
        super::steps::write_outcome(
            before,
            after,
            entry,
            Ok::<(), StorageError>(()),
            config,
        ),
        can_write(before.tree, entry, config),
    ensures
        after.actions == before.actions + actions,
        actions.len() > 0,
        recovers_as(disk, before.tree),
        forall|k: int|
            1 <= k <= actions.len() ==> recovers_as(
                #[trigger] perform_all(disk, actions.take(k)),
                after.tree,
            ),
        mirrors(perform_all(disk, actions), after.tree),
        kept(after.tree),
{
    law_recovery_answers_alike(disk, before.tree);
    let middle = lemma_write_logged(before, after, entry, config);
    let first = write_actions(entry, config.sync_policy);
    lemma_logged_on_disk(disk, before, middle, entry, config);
    if after == middle {
        first
    } else {
        let second = lemma_flush_after_write(disk, first, middle, after, config);
        assert(before.actions + (first + second) =~= before.actions + first + second);
        first + second
    }
}

/// A write that was accepted was logged, and then nothing more was done or the
/// memtable was flushed.
proof fn lemma_write_logged(
    before: Phase,
    after: Phase,
    entry: EntryView,
    config: LsmConfig,
) -> (middle: Phase)
    requires
        super::steps::write_outcome(before, after, entry, Ok::<(), StorageError>(()), config),
    ensures
        loggable(entry),
        is_logged(before, middle, entry, config),
        after == middle || {
            &&& total_charge(middle.tree.memtable) >= config.memtable_threshold_bytes
            &&& exists|written: bool| #[trigger]
                super::steps::flush_outcome(
                    middle,
                    after,
                    Ok::<bool, StorageError>(written),
                    config,
                )
        },
{
    choose|middle: Phase| #[trigger]
        is_logged(before, middle, entry, config) && if total_charge(
            middle.tree.memtable,
        ) < config.memtable_threshold_bytes {
            after == middle
        } else {
            exists|written: bool| #[trigger]
                super::steps::flush_outcome(
                    middle,
                    after,
                    Ok::<bool, StorageError>(written),
                    config,
                )
        }
}

/// What a write leaves on the disk before anything is flushed.
proof fn lemma_logged_on_disk(
    disk: DiskView,
    before: Phase,
    middle: Phase,
    entry: EntryView,
    config: LsmConfig,
)
    requires
        mirrors(disk, before.tree),
        kept(before.tree),
        sound(before.tree),
        loggable(entry),
        is_logged(before, middle, entry, config),
    ensures
        middle.actions == before.actions + write_actions(entry, config.sync_policy),
        middle.tree.next_sequence == before.tree.next_sequence,
        write_actions(entry, config.sync_policy).len() > 0,
        forall|k: int|
            1 <= k <= write_actions(entry, config.sync_policy).len() ==> recovers_as(
                #[trigger] perform_all(disk, write_actions(entry, config.sync_policy).take(k)),
                middle.tree,
            ),
        mirrors(perform_all(disk, write_actions(entry, config.sync_policy)), middle.tree),
        kept(middle.tree),
        sound(middle.tree),
        weight(middle.tree) <= weight(before.tree) + charge(entry),
        total_charge(middle.tree.memtable) <= charged_after(before.tree.memtable, entry),
{
    law_writes_are_durable(disk, before.tree, middle.tree, entry, config.sync_policy);
    lemma_written(before.tree, middle.tree, entry);
    lemma_written_weight(before.tree, middle.tree, entry);
    lemma_write_recovers(disk, before.tree, middle.tree, entry, config.sync_policy);
}

/// The flush that a write sets off keeps what the write left on the disk.
proof fn lemma_flush_after_write(
    disk: DiskView,
    first: Seq<ActionView>,
    middle: Phase,
    after: Phase,
    config: LsmConfig,
) -> (second: Seq<ActionView>)
    requires
        mirrors(perform_all(disk, first), middle.tree),
        kept(middle.tree),
        sound(middle.tree),
        fits_upto(config.options(), weight(middle.tree)),
        exists|written: bool| #[trigger]
            super::steps::flush_outcome(middle, after, Ok::<bool, StorageError>(written), config),
        has_sequence(middle.tree),
        forall|k: int|
            1 <= k <= first.len() ==> recovers_as(
                #[trigger] perform_all(disk, first.take(k)),
                middle.tree,
            ),
    ensures
        after.actions == middle.actions + second,
        forall|k: int|
            1 <= k <= (first + second).len() ==> recovers_as(
                #[trigger] perform_all(disk, (first + second).take(k)),
                after.tree,
            ),
        mirrors(perform_all(disk, first + second), after.tree),
        kept(after.tree),
{
    let written = choose|written: bool| #[trigger]
        super::steps::flush_outcome(middle, after, Ok::<bool, StorageError>(written), config);
    super::soundness::law_flush_changes_no_answer(
        middle,
        after,
        Ok::<bool, StorageError>(written),
        config,
    );
    let second = law_flushing_loses_nothing(perform_all(disk, first), middle, after, config);
    lemma_recovers_from_first(disk, first, second, middle.tree, after.tree);
    lemma_perform_concat(disk, first, second);
    second
}

/// What is recovered from the first action on is recovered through a second
/// stretch that keeps it.
proof fn lemma_recovers_from_first(
    disk: DiskView,
    first: Seq<ActionView>,
    second: Seq<ActionView>,
    a: TreeView,
    b: TreeView,
)
    requires
        forall|k: int|
            1 <= k <= first.len() ==> recovers_as(
                #[trigger] perform_all(disk, first.take(k)),
                a,
            ),
        recovers_throughout(perform_all(disk, first), second, a),
        same_answers(a, b),
    ensures
        forall|k: int|
            1 <= k <= (first + second).len() ==> recovers_as(
                #[trigger] perform_all(disk, (first + second).take(k)),
                b,
            ),
{
    let all = first + second;
    let now = perform_all(disk, first);
    assert forall|k: int| 1 <= k <= all.len() implies recovers_as(
        #[trigger] perform_all(disk, all.take(k)),
        b,
    ) by {
        if k <= first.len() {
            assert(all.take(k) =~= first.take(k));
            assert(recovers_as(perform_all(disk, first.take(k)), a));
        } else {
            let j = k - first.len();
            assert(all.take(k) =~= first + second.take(j));
            lemma_perform_concat(disk, first, second.take(j));
            assert(recovers_as(perform_all(now, second.take(j)), a));
        }
        lemma_recovers_alike(perform_all(disk, all.take(k)), a, b);
    }
}

/// A write is recovered from its first action on.
proof fn lemma_write_recovers(
    disk: DiskView,
    before: TreeView,
    after: TreeView,
    entry: EntryView,
    policy: SyncPolicy,
)
    requires
        mirrors(disk, before),
        kept(before),
        is_written(before, after, entry),
        loggable(entry),
    ensures
        write_actions(entry, policy).len() > 0,
        forall|k: int|
            1 <= k <= write_actions(entry, policy).len() ==> recovers_as(
                #[trigger] perform_all(disk, write_actions(entry, policy).take(k)),
                after,
            ),
{
    let actions = write_actions(entry, policy);
    assert forall|k: int| 1 <= k <= actions.len() implies recovers_as(
        #[trigger] perform_all(disk, actions.take(k)),
        after,
    ) by {
        if k == 1 {
            assert(actions.take(1) =~= write_actions(entry, SyncPolicy::Manual));
            law_writes_are_durable(disk, before, after, entry, SyncPolicy::Manual);
        } else {
            assert(actions.take(k) =~= write_actions(entry, SyncPolicy::EveryWrite));
            law_writes_are_durable(disk, before, after, entry, SyncPolicy::EveryWrite);
        }
    }
}

// ---------------------------------------------------------------------------
// Going on
// ---------------------------------------------------------------------------

/// Empty levels at the end add nothing to what levels list and hold.
proof fn lemma_extended_lists(levels: Seq<Seq<RunView>>, count: nat, name: Seq<char>)
    requires
        count >= levels.len(),
    ensures
        entries_for(extended(levels, count)) == entries_for(levels),
        times(extended(levels, count), name) == times(levels, name),
    decreases count - levels.len(),
{
    let wide = extended(levels, count);
    if count == levels.len() {
        assert(wide =~= levels);
    } else {
        let less = (count - 1) as nat;
        lemma_extended_lists(levels, less, name);
        assert(wide.drop_last() =~= extended(levels, less));
        assert(wide.last() =~= Seq::<RunView>::empty());
        assert(level_entries(wide.last(), less) =~= Seq::<RunEntryView>::empty());
        assert(entries_for(wide) =~= entries_for(extended(levels, less)));
        assert(super::naming::times_runs(wide.last(), name) == 0);
    }
}

/// A tree that was taken up again is as good as the one that was written down:
/// it is sound, can be written down, and the disk holds it.
pub proof fn law_a_recovered_tree_goes_on(disk: DiskView, tree: TreeView, recovered: TreeView)
    requires
        mirrors(disk, tree),
        kept(tree),
        sound(tree),
        is_opened(disk, recovered),
    ensures
        sound(recovered),
        kept(recovered),
        mirrors(disk, recovered),
{
    law_recovery_restores_the_tree(disk, tree, recovered);
    let levels = lemma_opened(disk, tree);
    let count = tree.levels.len() + 1;
    assert(levels == recovered.levels);
    assert forall|l: int| 0 <= l < levels.len() implies levels[l] == extended(
        tree.levels,
        count,
    )[l] by {
        assert(extended(levels, count)[l] == levels[l]);
    }
    assert forall|l: int| 0 <= l < levels.len() implies level_kept(
        #[trigger] levels[l],
        tree.next_sequence,
    ) && level_stored(disk.tables, levels[l]) by {
        if l < tree.levels.len() {
            assert(levels[l] == tree.levels[l]);
            assert(level_kept(tree.levels[l], tree.next_sequence));
            assert(level_stored(disk.tables, tree.levels[l]));
        } else {
            assert(levels[l] == extended(tree.levels, count)[l]);
            assert(levels[l].len() == 0);
        }
    }
    assert forall|l: int, r: int|
        0 <= l < levels.len() && 0 <= r < levels[l].len() implies run_intact(
        (#[trigger] levels[l][r]).tables,
    ) && super::soundness::fine(run_entries(levels[l][r].tables)) by {
        if l < tree.levels.len() {
            assert(levels[l][r] == tree.levels[l][r]);
        } else {
            assert(levels[l] == extended(tree.levels, count)[l]);
        }
    }
    assert forall|name: Seq<char>| #[trigger] times(levels, name) <= 1 by {
        lemma_extended_lists(levels, count, name);
        lemma_extended_lists(tree.levels, count, name);
        assert(times(tree.levels, name) <= 1);
    }
    lemma_extended_lists(levels, count, Seq::empty());
    lemma_extended_lists(tree.levels, count, Seq::empty());
    lemma_levels_fit(disk, tree, levels);
}

/// Levels that were taken up reach no further than those that were written down,
/// unless there was nothing at the end of them.
proof fn lemma_levels_fit(disk: DiskView, tree: TreeView, levels: Seq<Seq<RunView>>)
    requires
        kept(tree),
        opened(disk) == Ok::<(Seq<Seq<RunView>>, nat), StorageError>(
            (levels, tree.next_sequence),
        ),
        extended(levels, tree.levels.len() + 1) == extended(
            tree.levels,
            tree.levels.len() + 1,
        ),
        levels.len() <= tree.levels.len() + 1,
    ensures
        levels.len() <= usize::MAX,
{
    let manifest = manifest_on(disk)->Ok_0;
    let entries = in_reading_order(manifest.runs);
    lemma_last_level_holds(disk.tables, entries);
    if levels.len() == tree.levels.len() + 1 {
        let l = tree.levels.len() as int;
        assert(extended(levels, tree.levels.len() + 1)[l] == levels[l]);
        assert(extended(tree.levels, tree.levels.len() + 1)[l].len() == 0);
    }
}

/// The last level that is taken up holds a run.
proof fn lemma_last_level_holds(map: Map<Seq<char>, Seq<u8>>, entries: Seq<RunEntryView>)
    ensures
        open_runs(map, entries) matches Ok(levels) ==> levels.len() == 0 || levels.last().len()
            > 0,
    decreases entries.len(),
{
    if entries.len() > 0 {
        lemma_last_level_holds(map, entries.drop_last());
    }
}

/// A crash in the middle of an append is undone: a disk whose log ends in part of a
/// record is taken up as if the append had not begun, and holds the tree again once
/// the log was cut as opening asks.
pub proof fn law_a_torn_append_is_undone(
    disk: DiskView,
    tree: TreeView,
    entry: EntryView,
    cut: int,
    recovered: TreeView,
)
    requires
        mirrors(disk, tree),
        kept(tree),
        sound(tree),
        loggable(entry),
        0 <= cut < record_of(entry).len(),
        is_opened(
            DiskView { log: disk.log + record_of(entry).take(cut), ..disk },
            recovered,
        ),
    ensures
        recovered.memtable == tree.memtable,
        recovered.log == tree.log,
        all_runs(recovered.levels) == all_runs(tree.levels),
        recovered.next_sequence == tree.next_sequence,
        same_answers(tree, recovered),
        sound(recovered),
        kept(recovered),
        mirrors(
            perform(
                DiskView { log: disk.log + record_of(entry).take(cut), ..disk },
                ActionView::TruncateLog {
                    length: verified_len(disk.log + record_of(entry).take(cut)),
                },
            ),
            recovered,
        ),
{
    let part = record_of(entry).take(cut);
    let torn = DiskView { log: disk.log + part, ..disk };
    assert((record_of(entry) + Seq::<u8>::empty()).take(cut) =~= part);
    super::wal::lemma_cut_record(entry, Seq::empty(), cut);
    super::wal::lemma_nothing_to_replay(part);
    lemma_replay_concat(disk.log, part);
    assert(replay_of(disk.log) + Seq::<EntryView>::empty() =~= replay_of(disk.log));
    assert(torn.log.take(disk.log.len() as int) =~= disk.log);
    assert(disk.log.take(disk.log.len() as int) =~= disk.log);
    assert(is_opened(disk, recovered));
    law_recovery_restores_the_tree(disk, tree, recovered);
    law_a_recovered_tree_goes_on(disk, tree, recovered);
    assert(perform(
        torn,
        ActionView::TruncateLog { length: verified_len(torn.log) },
    ) =~= disk);
}

/// An empty disk is an empty tree.
pub proof fn law_an_empty_disk_is_an_empty_tree(disk: DiskView, tree: TreeView)
    requires
        disk.manifest is None,
        disk.log.len() == 0,
        is_opened(disk, tree),
    ensures
        tree.memtable.len() == 0,
        tree.levels.len() == 0,
        tree.next_sequence == 1,
        sound(tree),
        kept(tree),
        mirrors(disk, tree),
        forall|key: Seq<u8>| #[trigger] answer(tree, key) is None,
{
    let none = Seq::<RunEntryView>::empty();
    assert(in_reading_order(none) =~= none);
    assert(open_runs(disk.tables, none) == Ok::<Seq<Seq<RunView>>, StorageError>(Seq::empty()));
    assert(tree.levels =~= Seq::<Seq<RunView>>::empty());
    assert(replay_of(disk.log) =~= Seq::<EntryView>::empty());
    assert(disk.log.take(0) =~= disk.log);
    assert(as_map(tree.memtable) == Map::<Seq<u8>, Option<Seq<u8>>>::empty());
    assert(tree.memtable.len() == 0) by {
        if tree.memtable.len() > 0 {
            let key = tree.memtable[0].0;
            assert(has_key(tree.memtable, key));
            assert(as_map(tree.memtable).contains_key(key));
        }
    }
    assert forall|key: Seq<u8>| #[trigger] find(tree.memtable, key) is None by {}
    assert(all_settled(none) =~= entries_for(tree.levels));
    assert forall|name: Seq<char>| #[trigger] times(tree.levels, name) <= 1 by {}
    assert forall|key: Seq<u8>| #[trigger] answer(tree, key) is None by {
        assert(lists_of(all_runs(tree.levels)) =~= Seq::<Seq<EntryView>>::empty());
        assert(tree_lists(tree) =~= seq![tree.memtable]);
        lemma_first_found_one(tree.memtable, key);
    }
}

} // verus!
