//! What a tree does by itself: when it flushes, when it compacts, and what it counts.

use vstd::arithmetic::power::pow;
use vstd::prelude::*;

use super::compaction::ecotune::{chosen, round_merges};
use super::compaction::leveling::is_leveling_job;
use super::compaction::tiering::{is_tiering_job, nothing_to_move};
use super::compaction::{taken, CompactionJob, RunFiles};
use super::config::{Growth, GrowthKind, LsmConfig, MergeKind};
use super::disk::ActionView;
use super::entries::EntryView;
use super::growth::ecotune_scheme::placed;
use super::growth::laws::{at_most_u64, law_vertical_growth_keeps_levels_within_bounds};
use super::growth::Vertical;
use super::levels::{select, takes};
use super::lsm::{runs_files, runs_size};
use super::merge::{has_error, law_no_merge_skips_what_it_could_not_read};
use super::memtable::total_charge;
use super::run::{parts_of, part_split, payload_sum, NamedView, RunView, TableOptions};
use super::order::lex_le;
use super::shape::TreeShape;
use super::sstable::{block_at, block_items, TableView};
use super::steps::{
    flush_outcome, is_compacted, is_flushed, is_flushed_as, is_logged, is_noted, is_over,
    is_performed, is_performed_as, is_run_of, is_shape_of, is_stuck, is_stuck_at, is_turn,
    is_written, items_taken, level_tables_taken, merged_units, rests, selected, selected_units,
    selections, source_units, table_names, table_removals, tables_taken, turned, turns_to,
    write_actions, write_outcome, Phase,
};
use super::tree::TreeView;
use super::wal::{loggable, record_of, verified_len, SyncPolicy};
use super::StorageError;

verus! {

// ---------------------------------------------------------------------------
// Flushing
// ---------------------------------------------------------------------------

/// Compaction leaves the memtable and the log alone.
proof fn lemma_turns_keep_the_memtable(before: Phase, after: Phase, turns: nat, config: LsmConfig)
    requires
        turned(before, after, turns, config),
    ensures
        after.tree.memtable == before.tree.memtable,
        after.tree.log == before.tree.log,
    decreases turns,
{
    if turns > 0 {
        let middle = choose|middle: Phase|
            turned(before, middle, (turns - 1) as nat, config) && #[trigger] turns_to(
                middle,
                after,
                config,
            );
        lemma_turns_keep_the_memtable(before, middle, (turns - 1) as nat, config);
        let (shape, request, job) = choose|
            shape: TreeShape,
            request: super::growth::CompactionRequest,
            job: Option<CompactionJob>,
        | #[trigger] is_turn(middle, after, config, shape, request, job);
        match job {
            None => {},
            Some(job) => {
                reveal(is_performed_as);
            },
        }
    }
}

/// A flush that succeeds leaves nothing in the memtable and nothing in the log, and says
/// whether there was anything.
pub proof fn law_a_flush_empties_the_memtable(
    before: Phase,
    after: Phase,
    written: bool,
    config: LsmConfig,
)
    requires
        flush_outcome(before, after, Ok::<bool, StorageError>(written), config),
    ensures
        after.tree.memtable.len() == 0,
        written <==> before.tree.memtable.len() > 0,
        written ==> after.tree.log.len() == 0,
{
    if before.tree.memtable.len() > 0 {
        let middle = choose|middle: Phase| #[trigger]
            is_noted(before, middle, config) && is_compacted(middle, after, config);
        reveal(is_flushed_as);
        let (turns, quiet) = choose|turns: nat, quiet: Phase| #[trigger]
            turned(middle, quiet, turns, config) && turns <= config.max_compactions_per_flush
                && if is_over(quiet, turns, config) {
                after == quiet
            } else {
                rests(quiet, after)
            };
        lemma_turns_keep_the_memtable(middle, quiet, turns, config);
    }
}

/// The memtable stays below its threshold: after every write that succeeds it is charged
/// less, and a write that leaves it below sets off no flush and no compaction.
pub proof fn law_the_memtable_stays_below_its_threshold(
    before: Phase,
    after: Phase,
    entry: EntryView,
    config: LsmConfig,
)
    requires
        write_outcome(before, after, entry, Ok::<(), StorageError>(()), config),
        config.memtable_threshold_bytes > 0,
    ensures
        total_charge(after.tree.memtable) < config.memtable_threshold_bytes,
        after.tree.memtable.len() > 0 ==> after.tree.levels == before.tree.levels
            && after.tree.next_sequence == before.tree.next_sequence,
        after.tree.memtable.len() == 0 ==> after.tree.log.len() == 0,
{
    let middle = choose|middle: Phase| #[trigger]
        is_logged(before, middle, entry, config) && if total_charge(middle.tree.memtable)
            < config.memtable_threshold_bytes {
            after == middle
        } else {
            exists|written: bool| #[trigger]
                flush_outcome(middle, after, Ok::<bool, StorageError>(written), config)
        };
    if total_charge(middle.tree.memtable) >= config.memtable_threshold_bytes {
        let written = choose|written: bool| #[trigger]
            flush_outcome(middle, after, Ok::<bool, StorageError>(written), config);
        law_a_flush_empties_the_memtable(middle, after, written, config);
        assert(middle.tree.memtable.len() > 0);
    } else {
        let is = super::entries::as_map(middle.tree.memtable);
        assert(is.contains_key(entry.0)) by {
            assert(super::entries::as_map(before.tree.memtable).insert(
                entry.0,
                entry.1,
            ).contains_key(entry.0));
        }
        assert(super::entries::has_key(middle.tree.memtable, entry.0));
    }
}

/// A flush writes one run, of one unit, to the front of level 0, and leaves every other
/// run where it is.
pub proof fn law_a_flush_adds_one_run_to_level_0(
    before: TreeView,
    after: TreeView,
    actions: Seq<ActionView>,
    options: TableOptions,
)
    requires
        is_flushed(before, after, actions, options),
    ensures
        after.levels.len() == if before.levels.len() == 0 {
            1
        } else {
            before.levels.len() as int
        },
        before.levels.len() == 0 ==> after.levels[0].len() == 1,
        before.levels.len() > 0 ==> {
            &&& after.levels[0].len() == before.levels[0].len() + 1
            &&& forall|r: int|
                0 <= r < before.levels[0].len() ==> #[trigger] after.levels[0][r + 1]
                    == before.levels[0][r]
        },
        forall|l: int|
            1 <= l < before.levels.len() ==> #[trigger] after.levels[l] == before.levels[l],
        after.levels[0][0].sequence == before.next_sequence,
        after.levels[0][0].units == 1,
        after.next_sequence == before.next_sequence + 1,
        before.counters.flush_count < u64::MAX ==> after.counters.flush_count
            == before.counters.flush_count + 1,
        after.counters.compaction_count == before.counters.compaction_count,
{
    reveal(is_flushed_as);
    reveal(is_run_of);
}

/// Under a policy of a sync with every write the log is synced as soon as a record was
/// appended to it; under a manual one only when asked to.
pub proof fn law_every_write_is_synced(entry: EntryView)
    ensures
        write_actions(entry, SyncPolicy::EveryWrite).len() == 2,
        write_actions(entry, SyncPolicy::EveryWrite)[0] == (ActionView::AppendLog {
            bytes: record_of(entry),
        }),
        write_actions(entry, SyncPolicy::EveryWrite)[1] == ActionView::SyncLog,
        write_actions(entry, SyncPolicy::Manual).len() == 1,
        write_actions(entry, SyncPolicy::Manual)[0] == (ActionView::AppendLog {
            bytes: record_of(entry),
        }),
{
}

/// The log takes whatever is no longer than 64 MiB, with five bytes for its tag and the
/// length of its key.
pub proof fn law_the_log_takes_what_is_not_too_long(entry: EntryView)
    ensures
        loggable(entry) <==> 5 + entry.0.len() + (match entry.1 {
            Some(value) => value.len(),
            None => 0,
        }) <= 67_108_864,
{
}

// ---------------------------------------------------------------------------
// Compacting
// ---------------------------------------------------------------------------

/// Compaction goes on until the growth scheme asks for nothing, unless it has had as many
/// turns as the configuration gives it, or runs out of sequence numbers.
pub proof fn law_compaction_goes_on_until_quiet(
    before: Phase,
    after: Phase,
    config: LsmConfig,
) -> (turns: nat)
    requires
        is_compacted(before, after, config),
    ensures
        turns <= config.max_compactions_per_flush,
        exists|middle: Phase| #[trigger]
            turned(before, middle, turns, config) && after.tree == middle.tree && (turns
                == config.max_compactions_per_flush || after.tree.next_sequence >= u64::MAX
                || exists|shape: TreeShape| #[trigger]
                is_shape_of(shape, after.tree.levels) && middle.growth.steps_to(
                    shape,
                    after.growth,
                    None,
                )),
{
    let (turns, middle) = choose|turns: nat, middle: Phase| #[trigger]
        turned(before, middle, turns, config) && turns <= config.max_compactions_per_flush
            && if is_over(middle, turns, config) {
            after == middle
        } else {
            rests(middle, after)
        };
    if !is_over(middle, turns, config) {
        let shape = choose|shape: TreeShape| #[trigger]
            super::steps::asks(middle, after, shape, None);
        assert(is_shape_of(shape, after.tree.levels) && middle.growth.steps_to(
            shape,
            after.growth,
            None,
        ));
    }
    turns
}

/// The bytes of the tables of runs, added one by one.
pub open spec fn bytes_of_runs(sum: int, runs: Seq<RunView>) -> int {
    runs.fold_left(
        sum,
        |sum: int, run: RunView|
            run.tables.fold_left(sum, |sum: int, named: NamedView| sum + named.table.file.len()),
    )
}

/// A shape tells how much a level holds: as many bytes as its files.
pub proof fn law_shapes_tell_sizes(shape: TreeShape, levels: Seq<Seq<RunView>>, l: int)
    requires
        is_shape_of(shape, levels),
        0 <= l < levels.len(),
    ensures
        shape.bytes_at(l) == at_most_u64(bytes_of_runs(0, levels[l])),
{
    reveal(is_shape_of);
    let runs = shape.levels@[l].runs@;
    assert forall|r: int| 0 <= r < runs.len() implies super::steps::is_run_shape(
        #[trigger] runs[r],
        levels[l][r],
        r,
    ) by {
        assert(super::steps::is_run_shape(shape.levels@[l].runs@[r], levels[l][r], r));
    }
    lemma_same_sizes(runs, levels[l], runs.len() as int);
    assert(runs.take(runs.len() as int) =~= runs);
    assert(levels[l].take(runs.len() as int) =~= levels[l]);
}

proof fn lemma_same_sizes(shapes: Seq<super::shape::RunShape>, runs: Seq<RunView>, n: int)
    requires
        shapes.len() == runs.len(),
        0 <= n <= shapes.len(),
        forall|r: int|
            0 <= r < shapes.len() ==> super::steps::is_run_shape(#[trigger] shapes[r], runs[r], r),
    ensures
        super::shape::runs_bytes(shapes.take(n)) == bytes_of_runs(0, runs.take(n)),
    decreases n,
{
    reveal_with_fuel(Seq::fold_left, 2);
    if n > 0 {
        lemma_same_sizes(shapes, runs, n - 1);
        assert(shapes.take(n).drop_last() =~= shapes.take(n - 1));
        assert(runs.take(n).drop_last() =~= runs.take(n - 1));
        let shape = shapes[n - 1];
        let run = runs[n - 1];
        assert(super::steps::is_run_shape(shape, run, n - 1));
        let files = shape.files@;
        lemma_same_bytes(
            bytes_of_runs(0, runs.take(n - 1)),
            files,
            run.tables,
            files.len() as int,
        );
        assert(files.take(files.len() as int) =~= files);
        assert(run.tables.take(files.len() as int) =~= run.tables);
    }
}

proof fn lemma_same_bytes(
    sum: int,
    files: Seq<super::shape::FileShape>,
    tables: Seq<NamedView>,
    n: int,
)
    requires
        files.len() == tables.len(),
        0 <= n <= files.len(),
        forall|f: int|
            0 <= f < files.len() ==> super::steps::is_file_shape(
                #[trigger] files[f],
                tables[f].table,
                f,
            ),
    ensures
        sum + super::shape::files_bytes(files.take(n)) == tables.take(n).fold_left(
            sum,
            |sum: int, named: NamedView| sum + named.table.file.len(),
        ),
    decreases n,
{
    reveal_with_fuel(Seq::fold_left, 2);
    if n > 0 {
        lemma_same_bytes(sum, files, tables, n - 1);
        assert(files.take(n).drop_last() =~= files.take(n - 1));
        assert(tables.take(n).drop_last() =~= tables.take(n - 1));
        assert(super::steps::is_file_shape(files[n - 1], tables[n - 1].table, n - 1));
    }
}

/// A tree that grows vertically is within its bounds once compaction is quiet: every level
/// is empty or its tables take less than `B * T^(i+1)` bytes.
pub proof fn law_quiet_vertical_trees_are_within_bounds(
    middle: Phase,
    after: Phase,
    scheme: Vertical,
    shape: TreeShape,
    l: int,
)
    requires
        is_shape_of(shape, after.tree.levels),
        middle.growth == Growth::Vertical(scheme),
        middle.growth.steps_to(shape, after.growth, None),
        0 <= l < after.tree.levels.len(),
    ensures
        ({
            let held = bytes_of_runs(0, after.tree.levels[l]);
            held == 0 || held < scheme.buffer() * pow(scheme.ratio() as int, (l + 1) as nat)
        }),
{
    law_shapes_tell_sizes(shape, after.tree.levels, l);
    reveal(Growth::steps_to);
    reveal(is_shape_of);
    match after.growth {
        Growth::Vertical(now) => {
            law_vertical_growth_keeps_levels_within_bounds(scheme, shape, now, None);
            assert(shape.bytes_at(l) == 0 || shape.bytes_at(l) < at_most_u64(
                scheme.buffer() * pow(scheme.ratio() as int, (l + 1) as nat),
            ));
        },
        _ => {},
    }
}

// ---------------------------------------------------------------------------
// Counting
// ---------------------------------------------------------------------------

/// The units of the runs that selections of a level name, added one by one.
pub open spec fn named_units(level: Seq<RunView>, runs: Seq<RunFiles>) -> int {
    runs.fold_left(
        0int,
        |sum: int, selection: RunFiles|
            sum + if selection.run < level.len() {
                level[selection.run as int].units as int
            } else {
                0
            },
    )
}

/// What selections of a level stand for is the sum of what their runs stand for.
pub proof fn law_selected_units_are_a_sum(
    levels: Seq<Seq<RunView>>,
    level: nat,
    runs: Seq<RunFiles>,
)
    requires
        level < levels.len(),
    ensures
        selected_units(levels, level, runs) == named_units(levels[level as int], runs),
    decreases runs.len(),
{
    reveal_with_fuel(Seq::fold_left, 2);
    if runs.len() > 0 {
        law_selected_units_are_a_sum(levels, level, runs.drop_last());
    }
}

/// A merge of selections of one level into the next stands for as many units as the runs
/// of both together, as far as a `usize` reaches, and for one at least.
pub proof fn law_a_merge_stands_for_what_was_merged(
    levels: Seq<Seq<RunView>>,
    job: CompactionJob,
)
    requires
        job.sources@.len() == 1,
        job.sources@[0].level < levels.len(),
        job.target_level < levels.len(),
    ensures
        ({
            let units = named_units(levels[job.sources@[0].level as int], job.sources@[0].runs@)
                + named_units(levels[job.target_level as int], job.targets@);
            &&& units == 0 ==> merged_units(levels, job) == 1
            &&& 1 <= units <= usize::MAX ==> merged_units(levels, job) == units
        }),
{
    let source = job.sources@[0];
    assert(job.sources@.drop_last() =~= Seq::empty());
    assert(source_units(levels, job.sources@.drop_last()) == 0);
    assert(job.sources@.last() == source);
    law_selected_units_are_a_sum(levels, source.level as nat, source.runs@);
    law_selected_units_are_a_sum(levels, job.target_level as nat, job.targets@);
}

/// The sizes that are reported are sums over tables: their number and their bytes.
pub proof fn law_reported_sizes_are_sums(runs: Seq<RunView>)
    ensures
        runs_size(runs) == bytes_of_runs(0, runs),
        runs_files(runs) == runs.fold_left(
            0int,
            |sum: int, run: RunView| sum + run.tables.len(),
        ),
    decreases runs.len(),
{
    reveal_with_fuel(Seq::fold_left, 2);
    if runs.len() > 0 {
        law_reported_sizes_are_sums(runs.drop_last());
        lemma_tables_bytes(bytes_of_runs(0, runs.drop_last()), runs.last().tables);
    }
}

proof fn lemma_tables_bytes(sum: int, tables: Seq<NamedView>)
    ensures
        sum + super::run::tables_bytes(tables) == tables.fold_left(
            sum,
            |sum: int, named: NamedView| sum + named.table.file.len(),
        ),
    decreases tables.len(),
{
    reveal_with_fuel(Seq::fold_left, 2);
    if tables.len() > 0 {
        lemma_tables_bytes(sum, tables.drop_last());
    }
}

/// What users write is counted in full, whether it is refused or not; what a flush writes
/// counts as written, and what a compaction writes as both.
pub proof fn law_written_bytes_are_counted(
    before: Phase,
    after: Phase,
    entry: EntryView,
    config: LsmConfig,
)
    requires
        write_outcome(before, after, entry, Err::<(), StorageError>(super::wal::log_error(entry)), config),
        !loggable(entry),
    ensures
        after.tree.counters.user_bytes_written == at_most_u64(
            before.tree.counters.user_bytes_written + entry.0.len() + (match entry.1 {
                Some(value) => value.len(),
                None => 0,
            }),
        ),
        after.tree.memtable == before.tree.memtable,
        after.tree.log == before.tree.log,
        after.actions == before.actions,
{
}

/// A mutation that was applied is counted, and nothing else is.
pub proof fn law_applied_bytes_are_counted(before: TreeView, after: TreeView, entry: EntryView)
    requires
        is_written(before, after, entry),
    ensures
        after.counters.user_bytes_written == at_most_u64(
            before.counters.user_bytes_written + entry.0.len() + (match entry.1 {
                Some(value) => value.len(),
                None => 0,
            }),
        ),
        after.counters.flush_count == before.counters.flush_count,
        after.counters.compaction_count == before.counters.compaction_count,
        after.counters.sstable_bytes_written == before.counters.sstable_bytes_written,
        after.counters.compaction_bytes_written == before.counters.compaction_bytes_written,
{
}

/// A compaction counts as one; the tables that it wrote count as bytes written, and as
/// bytes written by compactions.
pub proof fn law_compactions_are_counted(
    before: TreeView,
    after: TreeView,
    actions: Seq<ActionView>,
    job: CompactionJob,
    config: LsmConfig,
    merged: Seq<EntryView>,
    run: RunView,
)
    requires
        is_performed_as(before, after, actions, job, config, merged, Some(run)),
        bytes_of_runs(0, seq![run]) <= u64::MAX,
    ensures
        before.counters.compaction_count < u64::MAX ==> after.counters.compaction_count
            == before.counters.compaction_count + 1,
        after.counters.sstable_bytes_written == at_most_u64(
            before.counters.sstable_bytes_written + bytes_of_runs(0, seq![run]),
        ),
        after.counters.compaction_bytes_written == at_most_u64(
            before.counters.compaction_bytes_written + bytes_of_runs(0, seq![run]),
        ),
        after.counters.flush_count == before.counters.flush_count,
        after.counters.user_bytes_written == before.counters.user_bytes_written,
{
    reveal(is_performed_as);
    reveal_with_fuel(Seq::fold_left, 2);
    assert(seq![run].drop_last() =~= Seq::<RunView>::empty());
    lemma_tables_bytes(0, run.tables);
}

// ---------------------------------------------------------------------------
// Splitting
// ---------------------------------------------------------------------------

/// A run is split into files at the target size: a file ends as soon as its keys and
/// values reach the target. Every file but the last reaches it, and none would without its
/// last entry.
pub proof fn law_runs_are_split_at_the_target_size(entries: Seq<EntryView>, limit: nat, i: int)
    requires
        0 <= i < parts_of(entries, limit).len(),
        limit > 0,
    ensures
        i < parts_of(entries, limit).len() - 1 ==> payload_sum(parts_of(entries, limit)[i])
            >= limit,
        parts_of(entries, limit)[i].len() > 0,
        payload_sum(parts_of(entries, limit)[i].drop_last()) < limit,
{
    lemma_split_at_target(entries, limit);
    let (finished, open) = part_split(entries, limit);
    if i < finished.len() {
        assert(parts_of(entries, limit)[i] == finished[i]);
    } else {
        assert(parts_of(entries, limit)[i] == open);
    }
}

proof fn lemma_split_at_target(entries: Seq<EntryView>, limit: nat)
    requires
        limit > 0,
    ensures
        ({
            let (finished, open) = part_split(entries, limit);
            &&& forall|i: int|
                0 <= i < finished.len() ==> (#[trigger] finished[i]).len() > 0 && payload_sum(
                    finished[i],
                ) >= limit && payload_sum(finished[i].drop_last()) < limit
            &&& payload_sum(open) < limit
            &&& open.len() > 0 ==> payload_sum(open.drop_last()) < limit
        }),
    decreases entries.len(),
{
    if entries.len() > 0 {
        let head = entries.drop_last();
        lemma_split_at_target(head, limit);
        let (before, was_open) = part_split(head, limit);
        let (finished, open) = part_split(entries, limit);
        let grown = was_open.push(entries.last());
        assert(grown.drop_last() =~= was_open);
        assert forall|i: int| 0 <= i < finished.len() implies (#[trigger] finished[i]).len() > 0
            && payload_sum(finished[i]) >= limit && payload_sum(finished[i].drop_last())
            < limit by {
            if i < before.len() {
                assert(finished[i] == before[i]);
            }
        }
    }
}

/// The size of entries is that of their keys and values, added one by one.
pub proof fn law_payload_is_keys_and_values(entries: Seq<EntryView>)
    ensures
        payload_sum(entries) == entries.fold_left(
            0int,
            |sum: int, entry: EntryView|
                sum + entry.0.len() + match entry.1 {
                    Some(value) => value.len() as int,
                    None => 0,
                },
        ),
    decreases entries.len(),
{
    reveal_with_fuel(Seq::fold_left, 2);
    if entries.len() > 0 {
        law_payload_is_keys_and_values(entries.drop_last());
    }
}

/// Tables are written with the sizes and the filters that the configuration gives.
pub proof fn law_tables_are_written_as_configured(config: LsmConfig)
    ensures
        config.options().block_target_bytes == config.block_target_bytes,
        config.options().bloom_bits_per_key == config.bloom_bits_per_key,
        config.options().target_file_size_bytes == config.target_file_size_bytes,
{
}

// ---------------------------------------------------------------------------
// Parts
// ---------------------------------------------------------------------------

/// A tree asks the scheme that it was configured with, and that scheme stays.
pub proof fn law_the_configured_scheme_is_asked(
    growth: Growth,
    tree: TreeShape,
    after: Growth,
    request: Option<super::growth::CompactionRequest>,
)
    requires
        growth.steps_to(tree, after, request),
    ensures
        growth matches Growth::Vertical(was) ==> after is Vertical && was.steps_to(
            tree,
            after->Vertical_0,
            request,
        ),
        growth matches Growth::HorizontalLeveling(was) ==> after is HorizontalLeveling
            && was.steps_to(tree, after->HorizontalLeveling_0, request),
        growth matches Growth::HorizontalTiering(was) ==> after is HorizontalTiering
            && was.steps_to(tree, after->HorizontalTiering_0, request),
        growth matches Growth::Vertiorizon(was) ==> after is Vertiorizon && was.steps_to(
            tree,
            after->Vertiorizon_0,
            request,
        ),
        growth matches Growth::EcoTune(was) ==> after is EcoTune && was.steps_to(
            tree,
            after->EcoTune_0,
            request,
        ),
{
    reveal(Growth::steps_to);
}

/// Every flush is noted by the scheme that the tree was configured with.
pub proof fn law_the_configured_scheme_notes_flushes(growth: Growth, after: Growth)
    requires
        growth.flushes_to(after),
    ensures
        growth is Vertical ==> after == growth,
        growth matches Growth::HorizontalLeveling(was) ==> after is HorizontalLeveling
            && was.flushes_to(after->HorizontalLeveling_0),
        growth matches Growth::HorizontalTiering(was) ==> after is HorizontalTiering
            && was.flushes_to(after->HorizontalTiering_0),
        growth matches Growth::Vertiorizon(was) ==> after is Vertiorizon && was.flushes_to(
            after->Vertiorizon_0,
        ),
        growth matches Growth::EcoTune(was) ==> after is EcoTune && !after->EcoTune_0.scanned
            && after->EcoTune_0.position == was.position && after->EcoTune_0.schedule
            == was.schedule,
{
    reveal(Growth::flushes_to);
}

/// A scheme is built with the sizes that it is configured with.
pub proof fn law_schemes_are_built_as_configured(growth: Growth, kind: GrowthKind)
    requires
        growth.begins_as(kind),
    ensures
        kind matches GrowthKind::Vertical { buffer_bytes, size_ratio } ==> growth is Vertical
            && growth->Vertical_0.buffer() == buffer_bytes && growth->Vertical_0.ratio()
            == size_ratio,
        kind matches GrowthKind::HorizontalLeveling { levels } ==> growth is HorizontalLeveling && {
            let counters = growth->HorizontalLeveling_0.counters@;
            counters.len() == levels && forall|i: int|
                0 <= i < levels ==> #[trigger] counters[i] == 0
        },
        kind matches GrowthKind::HorizontalTiering { levels, buffer_bytes, expected_data_bytes }
            ==> growth is HorizontalTiering && {
            let scheme = growth->HorizontalTiering_0;
            let counters = scheme.counters@;
            &&& counters.len() == levels
            &&& forall|i: int| 0 <= i < levels ==> #[trigger] counters[i] == scheme.k
            &&& scheme.buffer_bytes == buffer_bytes
            &&& scheme.horizon_bytes == expected_data_bytes
        },
        kind matches GrowthKind::Vertiorizon {
            horizontal_levels,
            size_ratio,
            buffer_bytes,
            initial_n,
            policy,
        } ==> growth is Vertiorizon && {
            let scheme = growth->Vertiorizon_0;
            &&& scheme.horizontal_levels == horizontal_levels
            &&& scheme.size_ratio == size_ratio
            &&& scheme.buffer_bytes == buffer_bytes
            &&& initial_n > 0 ==> scheme.n == initial_n
            &&& initial_n == 0 ==> scheme.n == 1
            &&& scheme.horizontal is Leveling <==> policy is Leveling
        },
        kind matches GrowthKind::EcoTune { config, top_capacity_bytes } ==> growth is EcoTune && {
            let scheme = growth->EcoTune_0;
            &&& scheme.made_for() == config
            &&& scheme.top_capacity_bytes == top_capacity_bytes
            &&& scheme.position == 0
            &&& scheme.schedule@ == placed(chosen(round_merges(config)))
        },
{
    reveal(Growth::begins_as);
}

/// Leveling plans what leveling does, and tiering what tiering does: it touches nothing at
/// the target.
pub proof fn law_the_configured_policy_plans(
    kind: MergeKind,
    tree: TreeShape,
    request: super::growth::CompactionRequest,
    job: Option<CompactionJob>,
)
    requires
        kind.plans(tree, request, job),
    ensures
        kind is Leveling && job is Some ==> is_leveling_job(tree, request, job->0)
            && job->0.sources@.len() > 0,
        kind is Tiering && job is Some ==> is_tiering_job(tree, request, job->0)
            && job->0.targets@.len() == 0 && job->0.sources@.len() > 0,
        job is None ==> nothing_to_move(tree, request),
        kind is Leveling ==> kind.run_limit() == 1,
        kind matches MergeKind::Tiering { runs_per_level } ==> kind.run_limit() == runs_per_level,
{
    reveal(MergeKind::plans);
}

/// What a job merged is removed from the disk once the manifest does not name it any more.
pub proof fn law_merged_tables_are_removed(
    before: TreeView,
    after: TreeView,
    actions: Seq<ActionView>,
    job: CompactionJob,
    config: LsmConfig,
    merged: Seq<EntryView>,
    run: Option<RunView>,
    l: int,
    r: int,
    f: int,
)
    requires
        is_performed_as(before, after, actions, job, config, merged, run),
        0 <= l < before.levels.len(),
        0 <= r < before.levels[l].len(),
        0 <= f < before.levels[l][r].tables.len(),
        taken(job, l, r, f),
    ensures
        actions.contains(ActionView::RemoveTable { name: before.levels[l][r].tables[f].name }),
{
    reveal(is_performed_as);
    let table = before.levels[l][r].tables[f];
    let gone = tables_taken(before.levels, job);
    lemma_taken_in_levels(before.levels, job, l, r, f);
    let i = choose|i: int| 0 <= i < gone.len() && gone[i] == table;
    let removals = table_removals(table_names(gone));
    assert(removals[i] == (ActionView::RemoveTable { name: table.name }));
    assert(actions[actions.len() - removals.len() + i] == removals[i]);
}

proof fn lemma_selected_in(tables: Seq<NamedView>, keep: spec_fn(int) -> bool, f: int)
    requires
        0 <= f < tables.len(),
        keep(f),
    ensures
        select(tables, keep).contains(tables[f]),
    decreases tables.len(),
{
    let head = tables.drop_last();
    let all = select(tables, keep);
    let before = select(head, keep);
    if f < head.len() {
        lemma_selected_in(head, keep, f);
        let i = choose|i: int| 0 <= i < before.len() && before[i] == head[f];
        assert(all[i] == tables[f]);
    } else {
        assert(all[all.len() - 1] == tables[f]);
    }
}

proof fn lemma_taken_in_level(level: Seq<RunView>, l: int, job: CompactionJob, r: int, f: int)
    requires
        0 <= r < level.len(),
        0 <= f < level[r].tables.len(),
        taken(job, l, r, f),
    ensures
        level_tables_taken(level, l, job).contains(level[r].tables[f]),
    decreases level.len(),
{
    let head = level.drop_last();
    let all = level_tables_taken(level, l, job);
    let before = level_tables_taken(head, l, job);
    if r < head.len() {
        lemma_taken_in_level(head, l, job, r, f);
        let i = choose|i: int| 0 <= i < before.len() && before[i] == head[r].tables[f];
        assert(all[i] == level[r].tables[f]);
    } else {
        let keep = takes(job, l, r);
        assert(keep(f));
        lemma_selected_in(level[r].tables, keep, f);
        let last = select(level[r].tables, keep);
        let i = choose|i: int| 0 <= i < last.len() && last[i] == level[r].tables[f];
        assert(all[before.len() + i] == level[r].tables[f]);
    }
}

proof fn lemma_taken_in_levels(
    levels: Seq<Seq<RunView>>,
    job: CompactionJob,
    l: int,
    r: int,
    f: int,
)
    requires
        0 <= l < levels.len(),
        0 <= r < levels[l].len(),
        0 <= f < levels[l][r].tables.len(),
        taken(job, l, r, f),
    ensures
        tables_taken(levels, job).contains(levels[l][r].tables[f]),
    decreases levels.len(),
{
    let head = levels.drop_last();
    let all = tables_taken(levels, job);
    let before = tables_taken(head, job);
    if l < head.len() {
        lemma_taken_in_levels(head, job, l, r, f);
        let i = choose|i: int| 0 <= i < before.len() && before[i] == head[l][r].tables[f];
        assert(all[i] == levels[l][r].tables[f]);
    } else {
        lemma_taken_in_level(levels[l], l, job, r, f);
        let last = level_tables_taken(levels[l], l, job);
        let i = choose|i: int| 0 <= i < last.len() && last[i] == levels[l][r].tables[f];
        assert(all[before.len() + i] == levels[l][r].tables[f]);
    }
}

/// The entries that a run counts are those that its tables count, added one by one.
pub proof fn law_entry_counts_are_a_sum(tables: Seq<NamedView>)
    ensures
        super::run::tables_count(tables) == tables.fold_left(
            0int,
            |sum: int, named: NamedView| sum + named.table.entry_count,
        ),
    decreases tables.len(),
{
    reveal_with_fuel(Seq::fold_left, 2);
    if tables.len() > 0 {
        law_entry_counts_are_a_sum(tables.drop_last());
    }
}

/// Tables overlap exactly if some key lies in the ranges of both.
pub proof fn law_tables_overlap_where_they_share_a_key(a: TableView, b: TableView)
    requires
        a.min_key() is Some && a.max_key is Some && lex_le(a.min_key()->0, a.max_key->0),
        b.min_key() is Some && b.max_key is Some && lex_le(b.min_key()->0, b.max_key->0),
    ensures
        a.overlaps(b) <==> exists|key: Seq<u8>|
            lex_le(a.min_key()->0, key) && #[trigger] lex_le(key, a.max_key->0) && lex_le(
                b.min_key()->0,
                key,
            ) && lex_le(key, b.max_key->0),
        a.overlaps(b) == b.overlaps(a),
{
    super::shape::law_ranges_meet_where_they_share_a_key(
        a.min_key()->0,
        a.max_key->0,
        b.min_key()->0,
        b.max_key->0,
    );
}

// ---------------------------------------------------------------------------
// What cannot be read
// ---------------------------------------------------------------------------

/// Iterating over a table gives an error for every block that cannot be read, and nothing
/// but entries if all can.
pub proof fn law_unreadable_blocks_are_errors(table: TableView, from: nat, b: int)
    requires
        from <= b < table.index.len(),
        block_at(table.file, table.index[b]) is Err,
    ensures
        has_error(table.items_from(from)),
    decreases b - from,
{
    let items = table.items_from(from);
    let first = block_items(block_at(table.file, table.index[from as int]));
    if b == from {
        assert(items[0] is Err);
    } else {
        law_unreadable_blocks_are_errors(table, from + 1, b);
        let rest = table.items_from(from + 1);
        let i = choose|i: int| 0 <= i < rest.len() && #[trigger] rest[i] is Err;
        assert(items[first.len() + i] == rest[i]);
    }
}

/// A lookup that leads to a block that cannot be read is an error, and not a miss.
pub proof fn law_unreadable_blocks_are_no_misses(table: TableView, key: Seq<u8>, b: usize)
    requires
        super::reader::probe_of(table, key) == super::reader::Probe::Block(b),
        table.index.len() <= usize::MAX,
        block_at(table.file, table.index[b as int]) is Err,
    ensures
        table.get(key) is Err,
{
    super::sstable::lemma_blocks_upto(table.index, key);
}

/// A run is read through all of its tables, so that an error in any of them is one of the
/// run.
proof fn lemma_run_has_error(tables: Seq<NamedView>, f: int)
    requires
        0 <= f < tables.len(),
        has_error(tables[f].table.items()),
    ensures
        has_error(super::run::run_items(tables)),
    decreases tables.len(),
{
    let items = super::run::run_items(tables);
    let head = tables.drop_last();
    let before = super::run::run_items(head);
    if f < head.len() {
        lemma_run_has_error(head, f);
        let i = choose|i: int| 0 <= i < before.len() && #[trigger] before[i] is Err;
        assert(items[i] == before[i]);
    } else {
        let last = tables[f].table.items();
        let i = choose|i: int| 0 <= i < last.len() && #[trigger] last[i] is Err;
        assert(items[before.len() + i] == last[i]);
    }
}

/// A compaction that is performed read everything that it was to merge: no table that it
/// selected has a block that cannot be read. One that has stops it instead of being dropped.
pub proof fn law_compactions_drop_nothing_unread(
    before: TreeView,
    after: TreeView,
    actions: Seq<ActionView>,
    job: CompactionJob,
    config: LsmConfig,
    i: int,
    f: int,
    b: int,
)
    requires
        is_performed(before, after, actions, job, config),
        0 <= i < selections(job).len(),
        0 <= f < selected(before.levels, selections(job)[i]).len(),
        0 <= b < selected(before.levels, selections(job)[i])[f].table.index.len(),
    ensures
        ({
            let table = selected(before.levels, selections(job)[i])[f].table;
            block_at(table.file, table.index[b]) is Ok
        }),
{
    reveal(is_performed_as);
    let tables = selected(before.levels, selections(job)[i]);
    let table = tables[f].table;
    if block_at(table.file, table.index[b]) is Err {
        law_unreadable_blocks_are_errors(table, 0, b);
        lemma_run_has_error(tables, f);
        let sources = items_taken(before.levels, job);
        assert(sources[i] == super::run::run_items(tables));
        law_no_merge_skips_what_it_could_not_read(sources, job.drop_tombstones, i);
    }
}

/// A compaction that fails leaves the tree as it was after the last one that did not: its
/// runs, its memtable and its log.
pub proof fn law_a_failed_compaction_changes_nothing(
    before: Phase,
    after: Phase,
    config: LsmConfig,
    error: StorageError,
) -> (turns: nat)
    requires
        is_stuck(before, after, config, error),
    ensures
        turns < config.max_compactions_per_flush,
        exists|middle: Phase| #[trigger]
            turned(before, middle, turns, config) && after.tree.levels == middle.tree.levels
                && after.actions == middle.actions && after.tree.counters == middle.tree.counters,
        after.tree.memtable == before.tree.memtable,
        after.tree.log == before.tree.log,
{
    let (turns, middle) = choose|turns: nat, middle: Phase| #[trigger]
        turned(before, middle, turns, config) && turns < config.max_compactions_per_flush
            && middle.tree.next_sequence < u64::MAX && is_stuck_at(middle, after, config, error);
    lemma_turns_keep_the_memtable(before, middle, turns, config);
    turns
}

/// A shape tells of every run how many units it stands for, and of every file what it
/// spans.
pub proof fn law_shapes_tell_units_and_ranges(
    shape: TreeShape,
    levels: Seq<Seq<RunView>>,
    l: int,
    r: int,
    f: int,
)
    requires
        is_shape_of(shape, levels),
        0 <= l < levels.len(),
        0 <= r < levels[l].len(),
        0 <= f < levels[l][r].tables.len(),
    ensures
        shape.levels@.len() == levels.len(),
        shape.levels@[l].runs@.len() == levels[l].len(),
        ({
            let run = shape.levels@[l].runs@[r];
            let table = levels[l][r].tables[f].table;
            &&& run.index == r
            &&& run.units == levels[l][r].units
            &&& run.files@.len() == levels[l][r].tables.len()
            &&& run.files@[f].index == f
            &&& run.files@[f].bytes == table.file.len()
            &&& run.files@[f].min_key is Some <==> table.index.len() > 0
            &&& table.index.len() > 0 ==> run.files@[f].min_key->0@ == table.index[0].first_key
            &&& run.files@[f].max_key is Some <==> table.max_key is Some
            &&& table.max_key is Some ==> run.files@[f].max_key->0@ == table.max_key->0
        }),
{
    reveal(is_shape_of);
    assert(super::steps::is_run_shape(shape.levels@[l].runs@[r], levels[l][r], r));
    assert(super::steps::is_file_shape(
        shape.levels@[l].runs@[r].files@[f],
        levels[l][r].tables[f].table,
        f,
    ));
}

/// Opening asks for a torn tail of the log to be cut off, right behind the last record that
/// is intact, and for nothing else.
pub proof fn law_opening_cuts_the_torn_tail_off(log: Seq<u8>)
    ensures
        verified_len(log) == log.len() ==> super::lsm::open_actions(log).len() == 0,
        verified_len(log) < log.len() ==> super::lsm::open_actions(log) == seq![
            ActionView::TruncateLog { length: verified_len(log) },
        ],
{
}

// ---------------------------------------------------------------------------
// Turns
// ---------------------------------------------------------------------------

/// A flush that writes is noted by the growth scheme, and compaction follows it.
pub proof fn law_flushes_are_noted_and_compacted(
    before: Phase,
    after: Phase,
    config: LsmConfig,
) -> (middle: Phase)
    requires
        flush_outcome(before, after, Ok::<bool, StorageError>(true), config),
    ensures
        before.growth.flushes_to(middle.growth),
        exists|actions: Seq<ActionView>| #[trigger]
            is_flushed(before.tree, middle.tree, actions, config.options()) && middle.actions
                == before.actions + actions,
        is_compacted(middle, after, config),
        super::steps::compaction_outcome(middle, after, Ok::<(), StorageError>(()), config),
{
    choose|middle: Phase| #[trigger]
        is_noted(before, middle, config) && is_compacted(middle, after, config)
}

/// In every turn the scheme is shown the tree as it is, what it asks for is planned by the
/// policy, and what was planned is performed; only where nothing was planned is nothing
/// done.
pub proof fn law_what_is_asked_for_is_planned_and_performed(
    before: Phase,
    after: Phase,
    config: LsmConfig,
) -> (turn: (TreeShape, super::growth::CompactionRequest, Option<CompactionJob>))
    requires
        turns_to(before, after, config),
    ensures
        is_shape_of(turn.0, before.tree.levels),
        before.growth.steps_to(turn.0, after.growth, Some(turn.1)),
        config.merge.plans(turn.0, turn.1, turn.2),
        turn.2 is None ==> after.tree == before.tree && after.actions == before.actions,
        turn.2 is Some ==> exists|actions: Seq<ActionView>| #[trigger]
            is_performed(before.tree, after.tree, actions, turn.2->0, config) && after.actions
                == before.actions + actions,
        turn.2 is Some ==> after.tree.next_sequence == before.tree.next_sequence + 1,
{
    let (shape, request, job) = choose|
        shape: TreeShape,
        request: super::growth::CompactionRequest,
        job: Option<CompactionJob>,
    | #[trigger] is_turn(before, after, config, shape, request, job);
    reveal(is_performed_as);
    (shape, request, job)
}

} // verus!
