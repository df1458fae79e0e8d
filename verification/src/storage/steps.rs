//! How a tree changes: writes, flushes and compactions.

use vstd::prelude::*;

use super::coalesce::{coalesced, some};
use super::compaction::{run_indexed, safe, well_indexed, CompactionJob, LevelFiles, RunFiles};
use super::config::{Growth, LsmConfig};
use super::disk::ActionView;
use super::entries::{as_map, ascending, EntryView};
use super::growth::{orderly, CompactionRequest};
use super::levels::{levels_after, select, takes};
use super::manifest::{manifest_text, ManifestView, RunEntryView};
use super::memtable::{payload_len, total_charge};
use super::merge::{entries_or_error, merge_of, ItemsView};
use super::run::{
    are_parts, is_write_error, parts_of, run_items, tables_bytes, NamedView, RunView, TableOptions,
};
use super::shape::{saturated, saturated_count, TreeShape};
use super::tree::{Counters, TreeView};
use super::wal::{log_error, loggable, record_of, SyncPolicy};
use super::StorageError;

verus! {

// ---------------------------------------------------------------------------
// What a tree tells others
// ---------------------------------------------------------------------------

/// The names of tables.
pub open spec fn table_names(tables: Seq<NamedView>) -> Seq<Seq<char>> {
    Seq::new(tables.len(), |i: int| tables[i].name)
}

/// What the manifest says of a run.
pub open spec fn run_entry(run: RunView, level: nat) -> RunEntryView {
    RunEntryView {
        level,
        sequence: run.sequence,
        units: run.units,
        files: table_names(run.tables),
    }
}

/// What the manifest says of a level.
pub open spec fn level_entries(runs: Seq<RunView>, level: nat) -> Seq<RunEntryView> {
    Seq::new(runs.len(), |r: int| run_entry(runs[r], level))
}

/// What the manifest says of levels.
pub open spec fn entries_for(levels: Seq<Seq<RunView>>) -> Seq<RunEntryView>
    decreases levels.len(),
{
    if levels.len() == 0 {
        Seq::empty()
    } else {
        entries_for(levels.drop_last()) + level_entries(
            levels.last(),
            (levels.len() - 1) as nat,
        )
    }
}

/// The manifest of a tree.
pub open spec fn manifest_for(tree: TreeView) -> ManifestView {
    ManifestView { runs: entries_for(tree.levels), next_sequence: tree.next_sequence }
}

// ---------------------------------------------------------------------------
// Runs written
// ---------------------------------------------------------------------------

/// What writing entries as a run gives: none if there are no entries.
#[verifier::opaque]
pub open spec fn is_run_of(
    run: Option<RunView>,
    entries: Seq<EntryView>,
    level: nat,
    sequence: nat,
    units: nat,
    options: TableOptions,
) -> bool {
    match run {
        None => entries.len() == 0,
        Some(run) => {
            &&& entries.len() > 0
            &&& run.sequence == sequence
            &&& run.units == units
            &&& are_parts(
                run.tables,
                parts_of(entries, options.target_file_size_bytes as nat),
                level,
                sequence,
                options,
            )
        },
    }
}

/// The tables of a run that was written.
pub open spec fn tables_written(run: Option<RunView>) -> Seq<NamedView> {
    match run {
        Some(run) => run.tables,
        None => Seq::empty(),
    }
}

/// Tables to write.
pub open spec fn table_writes(tables: Seq<NamedView>) -> Seq<ActionView> {
    Seq::new(
        tables.len(),
        |i: int| ActionView::WriteTable { name: tables[i].name, bytes: tables[i].table.file },
    )
}

/// Tables to remove.
pub open spec fn table_removals(names: Seq<Seq<char>>) -> Seq<ActionView> {
    Seq::new(names.len(), |i: int| ActionView::RemoveTable { name: names[i] })
}

/// The manifest to store.
pub open spec fn manifest_store(tree: TreeView) -> ActionView {
    ActionView::StoreManifest { text: manifest_text(manifest_for(tree)) }
}

// ---------------------------------------------------------------------------
// Writing
// ---------------------------------------------------------------------------

/// The tree after a mutation was logged and applied.
pub open spec fn is_written(before: TreeView, after: TreeView, entry: EntryView) -> bool {
    &&& ascending(after.memtable)
    &&& as_map(after.memtable) == as_map(before.memtable).insert(entry.0, entry.1)
    &&& after.log == before.log + record_of(entry)
    &&& after.levels == before.levels
    &&& after.next_sequence == before.next_sequence
    &&& after.counters == (Counters {
        user_bytes_written: saturated(
            before.counters.user_bytes_written as nat + entry.0.len() + payload_len(entry.1),
        ),
        ..before.counters
    })
}

/// What a mutation asks of the disk.
pub open spec fn write_actions(entry: EntryView, policy: SyncPolicy) -> Seq<ActionView> {
    let append = ActionView::AppendLog { bytes: record_of(entry) };
    match policy {
        SyncPolicy::EveryWrite => seq![append, ActionView::SyncLog],
        SyncPolicy::Manual => seq![append],
    }
}

// ---------------------------------------------------------------------------
// Flushing
// ---------------------------------------------------------------------------

/// The levels with a new run in level 0.
pub open spec fn levels_flushed(levels: Seq<Seq<RunView>>, run: RunView) -> Seq<Seq<RunView>> {
    if levels.len() == 0 {
        seq![seq![run]]
    } else {
        levels.update(0, seq![run] + levels[0])
    }
}

/// The tree after its memtable was written as `run`.
#[verifier::opaque]
pub open spec fn is_flushed_as(
    before: TreeView,
    after: TreeView,
    actions: Seq<ActionView>,
    options: TableOptions,
    run: RunView,
) -> bool {
    &&& is_run_of(Some(run), before.memtable, 0, before.next_sequence, 1, options)
    &&& after.memtable == Seq::<EntryView>::empty()
    &&& after.log == Seq::<u8>::empty()
    &&& after.levels == levels_flushed(before.levels, run)
    &&& after.next_sequence == before.next_sequence + 1
    &&& after.counters == (Counters {
        flush_count: saturated((before.counters.flush_count + 1) as nat),
        sstable_bytes_written: saturated(
            before.counters.sstable_bytes_written as nat + saturated(
                tables_bytes(run.tables),
            ) as nat,
        ),
        ..before.counters
    })
    // The commit point comes before the log is given up.
    &&& actions == table_writes(run.tables) + seq![manifest_store(after), ActionView::ResetLog]
}

/// The tree after its memtable was written as a run.
pub open spec fn is_flushed(
    before: TreeView,
    after: TreeView,
    actions: Seq<ActionView>,
    options: TableOptions,
) -> bool {
    exists|run: RunView| #[trigger] is_flushed_as(before, after, actions, options, run)
}

// ---------------------------------------------------------------------------
// Compacting
// ---------------------------------------------------------------------------

/// One selection of a job: files of a run, and the level of the run.
pub struct SelectionView {
    pub level: nat,
    pub run: nat,
    pub files: Seq<usize>,
}

/// The selections that name runs of one level, as they are listed.
pub open spec fn selections_at(level: nat, runs: Seq<RunFiles>) -> Seq<SelectionView> {
    Seq::new(
        runs.len(),
        |i: int| SelectionView { level, run: runs[i].run as nat, files: runs[i].files@ },
    )
}

/// The selections of sources, as they are listed.
pub open spec fn source_selections(sources: Seq<LevelFiles>) -> Seq<SelectionView>
    decreases sources.len(),
{
    if sources.len() == 0 {
        Seq::empty()
    } else {
        source_selections(sources.drop_last()) + selections_at(
            sources.last().level as nat,
            sources.last().runs@,
        )
    }
}

/// The selections of a job in the order of the merge: its sources and then its
/// targets, as they are listed.
pub open spec fn selections(job: CompactionJob) -> Seq<SelectionView> {
    source_selections(job.sources@) + selections_at(job.target_level as nat, job.targets@)
}

/// The places that a list of files names.
pub open spec fn named(files: Seq<usize>) -> spec_fn(int) -> bool {
    |f: int| files.contains(f as usize)
}

/// The tables that a selection names; none if there is no such run.
pub open spec fn selected(levels: Seq<Seq<RunView>>, selection: SelectionView) -> Seq<NamedView> {
    if selection.level < levels.len() && selection.run < levels[selection.level as int].len() {
        select(
            levels[selection.level as int][selection.run as int].tables,
            named(selection.files),
        )
    } else {
        Seq::empty()
    }
}

/// What selections name, as it is read.
pub open spec fn selected_items(
    levels: Seq<Seq<RunView>>,
    chosen: Seq<SelectionView>,
) -> Seq<ItemsView> {
    Seq::new(chosen.len(), |i: int| run_items(selected(levels, chosen[i])))
}

/// What a job merges: the order in which the job lists its inputs is the order of
/// the merge.
pub open spec fn items_taken(levels: Seq<Seq<RunView>>, job: CompactionJob) -> Seq<ItemsView> {
    selected_items(levels, selections(job))
}

/// The tables that a job takes out of the runs of a level.
pub open spec fn level_tables_taken(level: Seq<RunView>, l: int, job: CompactionJob) -> Seq<
    NamedView,
>
    decreases level.len(),
{
    if level.len() == 0 {
        Seq::empty()
    } else {
        level_tables_taken(level.drop_last(), l, job) + select(
            level.last().tables,
            takes(job, l, level.len() - 1),
        )
    }
}

/// The tables that a job takes.
pub open spec fn tables_taken(levels: Seq<Seq<RunView>>, job: CompactionJob) -> Seq<NamedView>
    decreases levels.len(),
{
    if levels.len() == 0 {
        Seq::empty()
    } else {
        tables_taken(levels.drop_last(), job) + level_tables_taken(
            levels.last(),
            levels.len() - 1,
            job,
        )
    }
}

/// The units of the runs that selections name.
pub open spec fn selected_units(
    levels: Seq<Seq<RunView>>,
    level: nat,
    runs: Seq<RunFiles>,
) -> nat
    decreases runs.len(),
{
    if runs.len() == 0 {
        0
    } else {
        let r = runs.last().run;
        selected_units(levels, level, runs.drop_last()) + if level < levels.len() && r
            < levels[level as int].len() {
            levels[level as int][r as int].units
        } else {
            0
        }
    }
}

/// The units of the runs that sources name.
pub open spec fn source_units(levels: Seq<Seq<RunView>>, sources: Seq<LevelFiles>) -> nat
    decreases sources.len(),
{
    if sources.len() == 0 {
        0
    } else {
        source_units(levels, sources.drop_last()) + selected_units(
            levels,
            sources.last().level as nat,
            sources.last().runs@,
        )
    }
}

/// The units of what a job writes: those of everything that is merged, together.
pub open spec fn merged_units(levels: Seq<Seq<RunView>>, job: CompactionJob) -> nat {
    some(
        saturated_count(
            source_units(levels, job.sources@) + selected_units(
                levels,
                job.target_level as nat,
                job.targets@,
            ),
        ) as nat,
    )
}

/// The levels once the runs of the target were folded, where a level is to
/// hold one run.
pub open spec fn folded(levels: Seq<Seq<RunView>>, level: int, limit: nat) -> Seq<Seq<RunView>> {
    if limit == 1 {
        levels.update(level, coalesced(levels[level]))
    } else {
        levels
    }
}

/// The tree after a job whose merge, `merged`, was written as `run`.
#[verifier::opaque]
pub open spec fn is_performed_as(
    before: TreeView,
    after: TreeView,
    actions: Seq<ActionView>,
    job: CompactionJob,
    config: LsmConfig,
    merged: Seq<EntryView>,
    run: Option<RunView>,
) -> bool {
    let bytes = saturated(tables_bytes(tables_written(run))) as nat;
    &&& entries_or_error(merge_of(items_taken(before.levels, job), job.drop_tombstones)) == Ok::<
        Seq<EntryView>,
        StorageError,
    >(merged)
    &&& is_run_of(
        run,
        merged,
        job.target_level as nat,
        before.next_sequence,
        merged_units(before.levels, job),
        config.options(),
    )
    &&& after.memtable == before.memtable
    &&& after.log == before.log
    &&& after.levels == folded(
        levels_after(before.levels, job, run),
        job.target_level as int,
        config.merge.run_limit(),
    )
    &&& after.levels.len() <= usize::MAX
    &&& after.next_sequence == before.next_sequence + 1
    &&& after.counters == (Counters {
        compaction_count: saturated((before.counters.compaction_count + 1) as nat),
        sstable_bytes_written: saturated(
            before.counters.sstable_bytes_written as nat + bytes,
        ),
        compaction_bytes_written: saturated(
            before.counters.compaction_bytes_written as nat + bytes,
        ),
        ..before.counters
    })
    // The commit point comes before anything is removed.
    &&& actions == table_writes(tables_written(run)) + seq![manifest_store(after)]
        + table_removals(table_names(tables_taken(before.levels, job)))
}

/// The tree after a job.
pub open spec fn is_performed(
    before: TreeView,
    after: TreeView,
    actions: Seq<ActionView>,
    job: CompactionJob,
    config: LsmConfig,
) -> bool {
    exists|merged: Seq<EntryView>, run: Option<RunView>| #[trigger]
        is_performed_as(before, after, actions, job, config, merged, run)
}

/// A tree with its growth scheme, and what was asked of the disk so far.
#[verifier::ext_equal]
pub struct Phase {
    pub growth: Growth,
    pub tree: TreeView,
    pub actions: Seq<ActionView>,
}

/// The growth scheme, shown this shape, asked for this.
pub open spec fn asks(
    before: Phase,
    after: Phase,
    shape: TreeShape,
    request: Option<CompactionRequest>,
) -> bool {
    &&& is_shape_of(shape, before.tree.levels)
    &&& before.growth.steps_to(shape, after.growth, request)
}

/// One turn: the scheme asks for a compaction, and the job that the policy makes
/// of it, if there is anything to do, is performed.
pub open spec fn is_turn(
    before: Phase,
    after: Phase,
    config: LsmConfig,
    shape: TreeShape,
    request: CompactionRequest,
    job: Option<CompactionJob>,
) -> bool {
    &&& asks(before, after, shape, Some(request))
    &&& orderly(request)
    &&& config.merge.plans(shape, request, job)
    &&& match job {
        None => after.tree == before.tree && after.actions == before.actions,
        Some(job) => {
            &&& safe(shape, job)
            &&& exists|actions: Seq<ActionView>| #[trigger]
                is_performed(before.tree, after.tree, actions, job, config) && after.actions
                    == before.actions + actions
        },
    }
}

/// One turn, with a sequence number left for it.
pub open spec fn turns_to(before: Phase, after: Phase, config: LsmConfig) -> bool {
    before.tree.next_sequence < u64::MAX && exists|shape: TreeShape, request: CompactionRequest, job: Option<CompactionJob>| #[trigger]
        is_turn(before, after, config, shape, request, job)
}

/// Turns, one after the other.
pub open spec fn turned(before: Phase, after: Phase, turns: nat, config: LsmConfig) -> bool
    decreases turns,
{
    if turns == 0 {
        after == before
    } else {
        exists|middle: Phase|
            turned(before, middle, (turns - 1) as nat, config) && #[trigger] turns_to(
                middle,
                after,
                config,
            )
    }
}

/// The scheme asks for nothing more.
pub open spec fn rests(before: Phase, after: Phase) -> bool {
    &&& exists|shape: TreeShape| #[trigger] asks(before, after, shape, None)
    &&& after.tree == before.tree
    &&& after.actions == before.actions
}

/// There were as many turns as a flush may have, or no sequence number is left for
/// another.
pub open spec fn is_over(middle: Phase, turns: nat, config: LsmConfig) -> bool {
    turns == config.max_compactions_per_flush || middle.tree.next_sequence >= u64::MAX
}

/// Compaction: turns until the scheme asks for nothing more, or until there can be
/// no more of them.
pub open spec fn is_compacted(before: Phase, after: Phase, config: LsmConfig) -> bool {
    exists|turns: nat, middle: Phase| #[trigger]
        turned(before, middle, turns, config) && turns <= config.max_compactions_per_flush
            && if is_over(middle, turns, config) {
            after == middle
        } else {
            rests(middle, after)
        }
}

/// The shape tells where runs and files are, what they hold and what they span.
#[verifier::opaque]
pub open spec fn is_shape_of(shape: TreeShape, levels: Seq<Seq<RunView>>) -> bool {
    &&& shape.levels@.len() == levels.len()
    &&& forall|l: int|
        0 <= l < levels.len() ==> (#[trigger] shape.levels@[l]).runs@.len() == levels[l].len()
    &&& forall|l: int, r: int|
        0 <= l < levels.len() && 0 <= r < levels[l].len() ==> is_run_shape(
            #[trigger] shape.levels@[l].runs@[r],
            levels[l][r],
            r,
        )
}

/// What the shape tells of a run.
pub open spec fn is_run_shape(
    shape: super::shape::RunShape,
    run: RunView,
    r: int,
) -> bool {
    &&& shape.index == r
    &&& shape.units == run.units
    &&& shape.files@.len() == run.tables.len()
    &&& forall|f: int|
        0 <= f < run.tables.len() ==> is_file_shape(
            #[trigger] shape.files@[f],
            run.tables[f].table,
            f,
        )
}

/// What the shape tells of a file.
pub open spec fn is_file_shape(
    shape: super::shape::FileShape,
    table: super::sstable::TableView,
    f: int,
) -> bool {
    &&& shape.index == f
    &&& shape.bytes == table.file.len()
    &&& super::sstable::key_view(shape.min_key) == table.min_key()
    &&& super::sstable::key_view(shape.max_key) == table.max_key
}

/// Runs and files say where they are in the shape of a tree.
pub proof fn lemma_shape_is_indexed(shape: TreeShape, levels: Seq<Seq<RunView>>)
    requires
        is_shape_of(shape, levels),
    ensures
        well_indexed(shape),
{
    reveal(is_shape_of);
    assert forall|l: int, r: int|
        0 <= l < shape.levels@.len() && 0 <= r < shape.levels@[l].runs@.len() implies run_indexed(
        #[trigger] shape.levels@[l].runs@[r],
        r,
    ) by {
        assert(is_run_shape(shape.levels@[l].runs@[r], levels[l][r], r));
        let run = shape.levels@[l].runs@[r];
        assert forall|f: int| 0 <= f < run.files@.len() implies (#[trigger] run.files@[f]).index
            == f by {
            assert(is_file_shape(run.files@[f], levels[l][r].tables[f].table, f));
        }
    }
}

// ---------------------------------------------------------------------------
// Failing
// ---------------------------------------------------------------------------

/// Why a job cannot be performed: what it reads cannot be read, or what it
/// would write does not fit the format.
#[verifier::opaque]
pub open spec fn cannot_perform(
    tree: TreeView,
    job: CompactionJob,
    config: LsmConfig,
    error: StorageError,
) -> bool {
    match entries_or_error(merge_of(items_taken(tree.levels, job), job.drop_tombstones)) {
        Err(reason) => reason == error,
        Ok(merged) => is_write_error(merged, config.options(), error),
    }
}

/// Compaction that came to a job that cannot be performed. Everything before it
/// was performed.
pub open spec fn is_stuck(
    before: Phase,
    after: Phase,
    config: LsmConfig,
    error: StorageError,
) -> bool {
    exists|turns: nat, middle: Phase| #[trigger]
        turned(before, middle, turns, config) && turns < config.max_compactions_per_flush
            && middle.tree.next_sequence < u64::MAX && is_stuck_at(middle, after, config, error)
}

/// A tree that has used up a sequence number.
pub open spec fn spent(tree: TreeView) -> TreeView {
    TreeView { next_sequence: tree.next_sequence + 1, ..tree }
}

/// The next job cannot be performed: the tree is as it was, but for the sequence
/// number that the job was given.
pub open spec fn is_stuck_at(
    before: Phase,
    after: Phase,
    config: LsmConfig,
    error: StorageError,
) -> bool {
    &&& after.tree == spent(before.tree)
    &&& after.actions == before.actions
    &&& exists|shape: TreeShape, request: CompactionRequest, job: CompactionJob| #[trigger]
        is_stuck_on(before, after, config, error, shape, request, job)
}

/// This job cannot be performed.
pub open spec fn is_stuck_on(
    before: Phase,
    after: Phase,
    config: LsmConfig,
    error: StorageError,
    shape: TreeShape,
    request: CompactionRequest,
    job: CompactionJob,
) -> bool {
    &&& asks(before, after, shape, Some(request))
    &&& orderly(request)
    &&& config.merge.plans(shape, request, Some(job))
    &&& safe(shape, job)
    &&& cannot_perform(before.tree, job, config, error)
}

/// What compaction gives and leaves.
pub open spec fn compaction_outcome(
    before: Phase,
    after: Phase,
    outcome: Result<(), StorageError>,
    config: LsmConfig,
) -> bool {
    match outcome {
        Ok(()) => is_compacted(before, after, config),
        Err(error) => is_stuck(before, after, config, error),
    }
}

/// A flush that was noted, with compaction still to come.
pub open spec fn is_noted(before: Phase, middle: Phase, config: LsmConfig) -> bool {
    &&& before.growth.flushes_to(middle.growth)
    &&& exists|actions: Seq<ActionView>| #[trigger]
        is_flushed(before.tree, middle.tree, actions, config.options()) && middle.actions
            == before.actions + actions
}

/// What a flush gives and leaves.
pub open spec fn flush_outcome(
    before: Phase,
    after: Phase,
    outcome: Result<bool, StorageError>,
    config: LsmConfig,
) -> bool {
    if before.tree.memtable.len() == 0 {
        outcome == Ok::<bool, StorageError>(false) && after == before
    } else {
        match outcome {
            Ok(written) => written && exists|middle: Phase| #[trigger]
                is_noted(before, middle, config) && is_compacted(middle, after, config),
            Err(error) => {
                ||| after == (Phase { tree: spent(before.tree), ..before }) && is_write_error(
                    before.tree.memtable,
                    config.options(),
                    error,
                )
                ||| exists|middle: Phase| #[trigger]
                    is_noted(before, middle, config) && is_stuck(middle, after, config, error)
            },
        }
    }
}

/// A mutation that was logged and applied, with a flush still to come.
pub open spec fn is_logged(
    before: Phase,
    middle: Phase,
    entry: EntryView,
    config: LsmConfig,
) -> bool {
    &&& middle.growth == before.growth
    &&& is_written(before.tree, middle.tree, entry)
    &&& middle.actions == before.actions + write_actions(entry, config.sync_policy)
}

/// What a mutation gives and leaves: it is refused if the log cannot hold it,
/// and else logged and applied; and the memtable is flushed if it has grown to
/// its threshold.
pub open spec fn write_outcome(
    before: Phase,
    after: Phase,
    entry: EntryView,
    outcome: Result<(), StorageError>,
    config: LsmConfig,
) -> bool {
    if !loggable(entry) {
        &&& outcome == Err::<(), StorageError>(log_error(entry))
        &&& after.growth == before.growth
        &&& after.actions == before.actions
        &&& after.tree == (TreeView {
            counters: Counters {
                user_bytes_written: saturated(
                    before.tree.counters.user_bytes_written as nat + entry.0.len() + payload_len(
                        entry.1,
                    ),
                ),
                ..before.tree.counters
            },
            ..before.tree
        })
    } else {
        exists|middle: Phase| #[trigger]
            is_logged(before, middle, entry, config) && if total_charge(middle.tree.memtable)
                < config.memtable_threshold_bytes {
                outcome is Ok && after == middle
            } else {
                match outcome {
                    Ok(()) => exists|written: bool| #[trigger]
                        flush_outcome(
                            middle,
                            after,
                            Ok::<bool, StorageError>(written),
                            config,
                        ),
                    Err(error) => flush_outcome(
                        middle,
                        after,
                        Err::<bool, StorageError>(error),
                        config,
                    ),
                }
            }
    }
}

/// One more turn.
pub proof fn lemma_one_more_turn(
    before: Phase,
    middle: Phase,
    after: Phase,
    turns: nat,
    config: LsmConfig,
)
    requires
        turned(before, middle, turns, config),
        turns_to(middle, after, config),
    ensures
        turned(before, after, turns + 1, config),
{
    assert((turns + 1 - 1) as nat == turns);
    assert(turned(before, middle, (turns + 1 - 1) as nat, config));
}

} // verus!
