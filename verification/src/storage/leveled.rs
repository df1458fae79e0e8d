//! One run per level: what leveling keeps.

use vstd::prelude::*;

use super::coalesce::{
    clear_of, coalesced, in_front, lemma_intact_is_lined_up, ranged, runs_clear, tables_disjoint,
};
use super::compaction::leveling::{
    is_leveling_job, lemma_leveling_is_safe, lemma_leveling_sources, lemma_span, sliced, Span,
};
use super::compaction::{
    file_at, has_file, lemma_occupied_contains, lemma_sources_pick, occupied_runs, picks,
    requested_levels, requested_runs, sources_pick, taken, takes_request, well_indexed,
    within_units, CompactionJob,
};
use super::config::{LsmConfig, MergeKind};
use super::disk::ActionView;
use super::entries::{find, has_key, EntryView};
use super::growth::{orderly, CompactionRequest};
use super::levels::{
    kept_level, kept_run, lemma_key_in_range, lemma_lists_by_place, lemma_lists_len,
    lemma_nothing_found, lemma_place, lemma_run_head, lemma_select, lemma_table_in_run, level_after, levels_after,
    levels_intact, lists_taken, place, select, shows, takes, unless,
};
use super::merge::{entries_or_error, first_found, merge_of, without_tombstone};
use super::order::{
    lemma_lex_irreflexive, lemma_lex_mixed, lemma_lex_total, lemma_lex_transitive, lex_le, lex_lt,
};
use super::run::{
    intact, law_written_run_is_intact, parts_storable, run_entries, run_intact, run_max, run_min,
    table_entries, NamedView, RunView, TableOptions,
};
use super::shape::{RunShape, TreeShape};
use super::soundness::{
    fits_upto, lemma_merge_is_fine, lemma_merge_weight, lemma_shape_shows,
    lemma_turns_are_invisible, sound,
};
use super::sstable::{key_view, TableView};
use super::steps::{
    is_compacted, is_flushed, is_flushed_as, is_performed, is_performed_as, is_run_of, is_shape_of,
    is_over, is_turn, items_taken, lemma_shape_is_indexed, merged_units, rests, turned, turns_to, Phase,
};
use super::tree::TreeView;
use super::weight::weight;
use super::StorageError;

verus! {

/// Every level below level 0 holds one run at most.
pub open spec fn one_run_each(levels: Seq<Seq<RunView>>) -> bool {
    forall|l: int| 1 <= l < levels.len() ==> (#[trigger] levels[l]).len() <= 1
}

/// No more runs stay than there were.
proof fn lemma_kept_len(level: Seq<RunView>, l: int, job: CompactionJob)
    ensures
        kept_level(level, l, job).len() <= level.len(),
    decreases level.len(),
{
    if level.len() > 0 {
        lemma_kept_len(level.drop_last(), l, job);
    }
}

/// What stays of a level of one run.
proof fn lemma_kept_one(level: Seq<RunView>, l: int, job: CompactionJob)
    requires
        level.len() == 1,
    ensures
        kept_level(level, l, job) == if kept_run(level[0], l, 0, job).tables.len() == 0 {
            Seq::empty()
        } else {
            seq![kept_run(level[0], l, 0, job)]
        },
{
    assert(level.drop_last() =~= Seq::<RunView>::empty());
    assert(kept_level(level.drop_last(), l, job) =~= Seq::<RunView>::empty());
    assert(kept_level(level, l, job) =~= if kept_run(level[0], l, 0, job).tables.len() == 0 {
        Seq::empty()
    } else {
        seq![kept_run(level[0], l, 0, job)]
    });
}

/// Nothing is selected where nothing is admitted.
proof fn lemma_select_nothing(tables: Seq<NamedView>, keep: spec_fn(int) -> bool)
    requires
        forall|f: int| 0 <= f < tables.len() ==> !#[trigger] keep(f),
    ensures
        select(tables, keep).len() == 0,
    decreases tables.len(),
{
    if tables.len() > 0 {
        lemma_select_nothing(tables.drop_last(), keep);
    }
}

/// What is selected comes from a place that is admitted.
proof fn lemma_selected_place(tables: Seq<NamedView>, keep: spec_fn(int) -> bool, i: int) -> (f: int)
    requires
        0 <= i < select(tables, keep).len(),
    ensures
        0 <= f < tables.len(),
        keep(f),
        tables[f] == select(tables, keep)[i],
    decreases tables.len(),
{
    let head = tables.drop_last();
    let before = select(head, keep);
    if i < before.len() {
        lemma_selected_place(head, keep, i)
    } else {
        tables.len() - 1
    }
}

/// A job that has its target among its sources, and takes whole levels, leaves
/// nothing there.
proof fn lemma_target_is_emptied(
    levels: Seq<Seq<RunView>>,
    shape: TreeShape,
    request: CompactionRequest,
    job: CompactionJob,
)
    requires
        shows(shape, levels),
        well_indexed(shape),
        takes_request(job.sources@, shape, request),
        job.target_level == request.target_level,
        request.first_level <= request.target_level <= request.last_level,
        request.merge_units is None,
        job.target_level < levels.len(),
    ensures
        kept_level(levels[job.target_level as int], job.target_level as int, job).len() == 0,
{
    let t = job.target_level as int;
    lemma_sources_pick(shape, request, job.sources@);
    lemma_all_taken(levels[t], t, job, shape, levels, levels[t].len() as int);
    assert(levels[t].take(levels[t].len() as int) =~= levels[t]);
}

/// Of runs of which everything is taken nothing stays.
proof fn lemma_all_taken(
    level: Seq<RunView>,
    t: int,
    job: CompactionJob,
    shape: TreeShape,
    levels: Seq<Seq<RunView>>,
    upto: int,
)
    requires
        0 <= t < levels.len(),
        level == levels[t],
        shows(shape, levels),
        0 <= upto <= level.len(),
        forall|r: int, f: int|
            #![trigger has_file(shape, t, r, f)]
            has_file(shape, t, r, f) ==> sources_pick(job.sources@, t, r, f),
    ensures
        kept_level(level.take(upto), t, job).len() == 0,
    decreases upto,
{
    if upto > 0 {
        let part = level.take(upto);
        assert(part.drop_last() =~= level.take(upto - 1));
        lemma_all_taken(level, t, job, shape, levels, upto - 1);
        let r = upto - 1;
        let tables = level[r].tables;
        assert(part.last() == level[r]);
        assert(shape.levels@[t].runs@[r].files@.len() == tables.len());
        let keep = unless(takes(job, t, r));
        assert forall|f: int| 0 <= f < tables.len() implies !#[trigger] keep(f) by {
            assert(has_file(shape, t, r, f));
            assert(taken(job, t, r, f));
        }
        lemma_select_nothing(tables, keep);
    }
}

/// A level that a request merges as a whole, with its target in it, holds one run
/// at most afterwards, whatever it held before: a last level that is named among
/// the sources as well as the target is consumed, not appended to.
pub proof fn law_consuming_the_target_leaves_one_run(
    before: TreeView,
    after: TreeView,
    actions: Seq<ActionView>,
    shape: TreeShape,
    request: CompactionRequest,
    job: CompactionJob,
    config: LsmConfig,
    merged: Seq<EntryView>,
    run: Option<RunView>,
)
    requires
        is_performed_as(before, after, actions, job, config, merged, run),
        is_shape_of(shape, before.levels),
        config.merge.plans(shape, request, Some(job)),
        orderly(request),
        request.first_level <= request.target_level <= request.last_level,
        request.merge_units is None,
    ensures
        job.target_level < after.levels.len(),
        after.levels[job.target_level as int].len() <= 1,
{
    reveal(is_performed_as);
    reveal(MergeKind::plans);
    let t = job.target_level as int;
    let levels = before.levels;
    lemma_shape_shows(shape, levels);
    lemma_shape_is_indexed(shape, levels);
    assert(takes_request(job.sources@, shape, request));
    if t < levels.len() {
        lemma_target_is_emptied(levels, shape, request, job);
    }
    assert(level_after(levels, job, run, t).len() <= 1);
    assert(levels_after(levels, job, run)[t] == level_after(levels, job, run, t));
}

/// Two runs of which no tables meet fold into one.
proof fn lemma_two_fold(a: RunView, b: RunView)
    requires
        ranged(a),
        ranged(b),
        runs_clear(a, b),
    ensures
        coalesced(seq![a, b]).len() == 1,
{
    let level = seq![a, b];
    assert forall|i: int, j: int|
        #![trigger level[i], level[j]]
        0 <= i < j < level.len() implies runs_clear(level[i], level[j]) by {
        assert(i == 0 && j == 1);
    }
    assert(tables_disjoint(level));
}

/// Where an intact run begins and ends.
proof fn lemma_run_ends(tables: Seq<NamedView>)
    requires
        run_intact(tables),
        tables.len() > 0,
    ensures
        run_entries(tables).len() > 0,
        run_min(tables) == Some(run_entries(tables)[0].0),
        run_max(tables) == Some(run_entries(tables).last().0),
        lex_le(run_entries(tables)[0].0, run_entries(tables).last().0),
    decreases tables.len(),
{
    let entries = run_entries(tables);
    let head = tables.drop_last();
    let last = table_entries(tables.last().table);
    assert(intact(tables[tables.len() - 1].table));
    assert(entries.last() == last.last());
    if head.len() > 0 {
        lemma_run_head(tables);
        lemma_run_ends(head);
        assert(head[0] == tables[0]);
        assert(entries[0] == run_entries(head)[0]);
    } else {
        assert(run_entries(head) =~= Seq::<EntryView>::empty());
        assert(entries =~= last);
    }
    if entries.len() > 1 {
        assert(lex_lt(entries[0].0, entries[entries.len() - 1].0));
    }
}

/// A key that a job takes is in a table that it takes.
proof fn lemma_taken_table(
    levels: Seq<Seq<RunView>>,
    job: CompactionJob,
    i: int,
    key: Seq<u8>,
) -> (found: (int, int, int))
    requires
        levels_intact(levels),
        0 <= i < lists_taken(levels, job).len(),
        has_key(lists_taken(levels, job)[i], key),
    ensures
        0 <= found.0 < levels.len(),
        0 <= found.1 < levels[found.0].len(),
        0 <= found.2 < levels[found.0][found.1].tables.len(),
        taken(job, found.0, found.1, found.2),
        has_key(table_entries(levels[found.0][found.1].tables[found.2].table), key),
{
    lemma_lists_len(levels, job);
    let (l, r) = place(levels, i);
    lemma_place(levels, i);
    lemma_lists_by_place(levels, job, i);
    let tables = levels[l][r].tables;
    assert(run_intact(levels[l][r].tables));
    lemma_select(tables, takes(job, l, r));
    let g = choose|g: int|
        0 <= g < tables.len() && takes(job, l, r)(g) && has_key(
            table_entries((#[trigger] tables[g]).table),
            key,
        );
    (l, r, g)
}

/// A key of a merge was taken.
proof fn lemma_merged_is_taken(
    levels: Seq<Seq<RunView>>,
    job: CompactionJob,
    merged: Seq<EntryView>,
    n: int,
) -> (i: int)
    requires
        0 <= n < merged.len(),
        forall|key: Seq<u8>| #[trigger]
            find(merged, key) == without_tombstone(
                first_found(lists_taken(levels, job), key),
                job.drop_tombstones,
            ),
    ensures
        0 <= i < lists_taken(levels, job).len(),
        has_key(lists_taken(levels, job)[i], merged[n].0),
{
    let lists = lists_taken(levels, job);
    let key = merged[n].0;
    assert(has_key(merged, key));
    assert(find(merged, key) is Some);
    if forall|j: int| 0 <= j < lists.len() ==> !has_key(#[trigger] lists[j], key) {
        lemma_nothing_found(lists, key);
    }
    choose|i: int| 0 <= i < lists.len() && has_key(#[trigger] lists[i], key)
}

/// One run is nothing to merge by units.
proof fn lemma_one_run_is_no_merge(shape: TreeShape, t: int, units: usize)
    requires
        shape.runs_at(t).len() == 1,
    ensures
        requested_runs(shape, t, Some(units)).len() == 0,
{
    let runs = shape.runs_at(t);
    let rest = runs.drop_first();
    assert(within_units(rest, units as nat).len() == 0);
    assert(runs[0].units <= units ==> within_units(rest, (units - runs[0].units) as nat).len()
        == 0);
}

/// A table that stays at the target of a leveling job lies on one side of a key
/// that was taken: below it if it lies below the span of the sources, above it if
/// it lies above.
proof fn lemma_side(
    levels: Seq<Seq<RunView>>,
    shape: TreeShape,
    request: CompactionRequest,
    job: CompactionJob,
    low: Seq<u8>,
    high: Seq<u8>,
    f: int,
    i: int,
    key: Seq<u8>,
)
    requires
        levels_intact(levels),
        shows(shape, levels),
        well_indexed(shape),
        request.target_level == job.target_level,
        job.target_level < levels.len(),
        levels[job.target_level as int].len() == 1,
        0 <= f < levels[job.target_level as int][0].tables.len(),
        !taken(job, job.target_level as int, 0, f),
        forall|r: int, f: int|
            !#[trigger] sources_pick(job.sources@, job.target_level as int, r, f),
        forall|l: int, r: int, f: int|
            #![trigger file_at(shape, l, r, f)]
            sources_pick(job.sources@, l, r, f) && has_file(shape, l, r, f) && file_at(
                shape,
                l,
                r,
                f,
            ).min_key is Some && file_at(shape, l, r, f).max_key is Some ==> {
                &&& lex_le(
                    low,
                    key_view(file_at(shape, l, r, f).min_key)->0,
                )
                &&& lex_le(
                    key_view(file_at(shape, l, r, f).max_key)->0,
                    high,
                )
            },
        forall|r: int, f: int|
            #![trigger file_at(shape, request.target_level as int, r, f)]
            has_file(shape, request.target_level as int, r, f) ==> (picks(job.targets@, r, f)
                <==> file_at(shape, request.target_level as int, r, f).meets(low, high)),
        0 <= i < lists_taken(levels, job).len(),
        has_key(lists_taken(levels, job)[i], key),
    ensures
        ({
            let table = levels[job.target_level as int][0].tables[f].table;
            &&& table.min_key() is Some
            &&& table.max_key is Some
            &&& lex_le(table.min_key()->0, table.max_key->0)
            &&& lex_lt(table.max_key->0, low) || lex_lt(high, table.min_key()->0)
            &&& lex_lt(table.max_key->0, low) ==> lex_lt(table.max_key->0, key)
            &&& lex_lt(high, table.min_key()->0) ==> lex_lt(key, table.min_key()->0)
        }),
{
    let t = job.target_level as int;
    let tables = levels[t][0].tables;
    let table = tables[f].table;
    let (l, r, g) = lemma_taken_table(levels, job, i, key);
    let from = levels[l][r].tables;
    assert(run_intact(levels[l][r].tables));
    assert(run_intact(levels[t][0].tables));
    assert(intact(from[g].table) && intact(tables[f].table));
    lemma_key_in_range(from[g].table, key);
    let entries = table_entries(table);
    lemma_key_in_range(table, entries[0].0);
    if entries.len() > 1 {
        assert(lex_lt(entries[0].0, entries[entries.len() - 1].0));
    }
    assert(shape.levels@[t].runs@[0].files@.len() == tables.len());
    assert(shape.levels@[l].runs@[r].files@.len() == from.len());
    assert(has_file(shape, t, 0, f) && has_file(shape, l, r, g));
    let stays = file_at(shape, t, 0, f);
    let gone = file_at(shape, l, r, g);
    assert(!picks(job.targets@, 0, f));
    assert(!stays.meets(low, high));
    let min = table.min_key()->0;
    let max = table.max_key->0;
    lemma_lex_total(min, high);
    lemma_lex_total(low, max);
    let gone_min = from[g].table.min_key()->0;
    let gone_max = from[g].table.max_key->0;
    if sources_pick(job.sources@, l, r, g) {
        if lex_lt(max, low) {
            lemma_lex_mixed(max, low, gone_min);
            lemma_lex_mixed(max, gone_min, key);
        }
        if lex_lt(high, min) {
            lemma_lex_mixed(gone_max, high, min);
            lemma_lex_mixed(key, gone_max, min);
        }
    } else {
        assert(l == t && picks(job.targets@, r, g));
        assert(r == 0);
        assert(gone.meets(low, high));
        lemma_intact_is_lined_up(tables);
        lemma_table_ends(tables[f].table);
        lemma_table_ends(tables[g].table);
        if g < f {
            assert(in_front(tables[g].table, tables[f].table));
            if lex_lt(max, low) {
                // The table that goes would end before the span begins.
                lemma_lex_mixed(gone_max, min, max);
                lemma_lex_transitive(gone_max, max, low);
                lemma_lex_mixed(low, gone_max, low);
                lemma_lex_irreflexive(low);
            }
            lemma_lex_mixed(key, gone_max, min);
        } else if f < g {
            assert(in_front(tables[f].table, tables[g].table));
            if lex_lt(high, min) {
                lemma_lex_mixed(high, min, max);
                lemma_lex_transitive(high, max, gone_min);
                lemma_lex_mixed(high, gone_min, high);
                lemma_lex_irreflexive(high);
            }
            lemma_lex_mixed(max, gone_min, key);
        }
    }
}

/// Where an intact table begins and ends.
proof fn lemma_table_ends(table: TableView)
    requires
        intact(table),
    ensures
        table.min_key() == Some(table_entries(table)[0].0),
        table.max_key == Some(table_entries(table).last().0),
{
}

/// Leveling keeps its invariant, one run per level below level 0: where every such
/// level held one run at most, it does after a leveling job.
pub proof fn law_leveling_keeps_one_run(
    before: TreeView,
    after: TreeView,
    actions: Seq<ActionView>,
    shape: TreeShape,
    request: CompactionRequest,
    job: CompactionJob,
    config: LsmConfig,
    merged: Seq<EntryView>,
    run: Option<RunView>,
)
    requires
        is_performed_as(before, after, actions, job, config, merged, run),
        is_shape_of(shape, before.levels),
        config.merge == MergeKind::Leveling,
        config.merge.plans(shape, request, Some(job)),
        orderly(request),
        sound(before),
        fits_upto(config.options(), weight(before)),
        one_run_each(before.levels),
    ensures
        one_run_each(after.levels),
{
    reveal(is_performed_as);
    reveal(MergeKind::plans);
    let t = job.target_level as int;
    let levels = before.levels;
    let middle = levels_after(levels, job, run);
    assert(after.levels == middle.update(t, coalesced(middle[t])));
    assert forall|l: int| 1 <= l < after.levels.len() implies (#[trigger] after.levels[l]).len()
        <= 1 by {
        assert(middle[l] == level_after(levels, job, run, l));
        if l < levels.len() {
            assert(levels[l].len() <= 1);
            lemma_kept_len(levels[l], l, job);
        }
        if l == t {
            lemma_target_keeps_one_run(before, shape, request, job, config, merged, run);
        }
    }
}

/// A flush adds a run to level 0 alone.
pub proof fn law_flushing_keeps_one_run(
    before: TreeView,
    after: TreeView,
    actions: Seq<ActionView>,
    options: TableOptions,
)
    requires
        is_flushed(before, after, actions, options),
        one_run_each(before.levels),
    ensures
        one_run_each(after.levels),
{
    reveal(is_flushed_as);
}

/// A leveled tree stays one through any number of compactions.
pub proof fn law_compacting_keeps_one_run(before: Phase, after: Phase, config: LsmConfig)
    requires
        is_compacted(before, after, config),
        config.merge == MergeKind::Leveling,
        sound(before.tree),
        fits_upto(config.options(), weight(before.tree)),
        one_run_each(before.tree.levels),
    ensures
        one_run_each(after.tree.levels),
{
    let (turns, middle) = choose|turns: nat, middle: Phase| #[trigger]
        turned(before, middle, turns, config) && turns <= config.max_compactions_per_flush
            && if is_over(middle, turns, config) {
            after == middle
        } else {
            rests(middle, after)
        };
    lemma_turns_keep_one_run(before, middle, turns, config);
}

proof fn lemma_turns_keep_one_run(before: Phase, after: Phase, turns: nat, config: LsmConfig)
    requires
        turned(before, after, turns, config),
        config.merge == MergeKind::Leveling,
        sound(before.tree),
        fits_upto(config.options(), weight(before.tree)),
        one_run_each(before.tree.levels),
    ensures
        one_run_each(after.tree.levels),
    decreases turns,
{
    if turns > 0 {
        let middle = choose|middle: Phase|
            turned(before, middle, (turns - 1) as nat, config) && #[trigger] turns_to(
                middle,
                after,
                config,
            );
        lemma_turns_keep_one_run(before, middle, (turns - 1) as nat, config);
        lemma_turns_are_invisible(before, middle, (turns - 1) as nat, config);
        let (shape, request, job) = choose|
            shape: TreeShape,
            request: CompactionRequest,
            job: Option<CompactionJob>,
        | #[trigger] is_turn(middle, after, config, shape, request, job);
        match job {
            None => {},
            Some(job) => {
                let actions = choose|actions: Seq<ActionView>| #[trigger]
                    is_performed(middle.tree, after.tree, actions, job, config) && after.actions
                        == middle.actions + actions;
                let (merged, run) = choose|merged: Seq<EntryView>, run: Option<RunView>| #[trigger]
                    is_performed_as(middle.tree, after.tree, actions, job, config, merged, run);
                law_leveling_keeps_one_run(
                    middle.tree,
                    after.tree,
                    actions,
                    shape,
                    request,
                    job,
                    config,
                    merged,
                    run,
                );
            },
        }
    }
}

#[verifier::rlimit(40)]
proof fn lemma_target_keeps_one_run(
    before: TreeView,
    shape: TreeShape,
    request: CompactionRequest,
    job: CompactionJob,
    config: LsmConfig,
    merged: Seq<EntryView>,
    run: Option<RunView>,
)
    requires
        entries_or_error(
            merge_of(
                items_taken(before.levels, job),
                job.drop_tombstones,
            ),
        ) == Ok::<Seq<EntryView>, StorageError>(merged),
        is_run_of(
            run,
            merged,
            job.target_level as nat,
            before.next_sequence,
            merged_units(before.levels, job),
            config.options(),
        ),
        is_shape_of(shape, before.levels),
        is_leveling_job(shape, request, job),
        job.sources@.len() > 0,
        orderly(request),
        sound(before),
        fits_upto(config.options(), weight(before)),
        job.target_level < before.levels.len() ==> before.levels[job.target_level as int].len()
            <= 1,
    ensures
        coalesced(level_after(before.levels, job, run, job.target_level as int)).len() <= 1,
{
    let t = job.target_level as int;
    let levels = before.levels;
    let level = level_after(levels, job, run, t);
    if t < levels.len() {
        lemma_kept_len(levels[t], t, job);
    }
    if level.len() >= 2 {
        let kept = kept_level(levels[t], t, job);
        lemma_shape_shows(shape, levels);
        lemma_shape_is_indexed(shape, levels);
        lemma_kept_one(levels[t], t, job);
        let stays = kept_run(levels[t][0], t, 0, job);
        assert(kept == seq![stays]);
        let written = run->0;
        assert(level =~= seq![written, stays]);
        lemma_leveling_is_safe(shape, request, job);
        let out = lemma_merge_is_fine(levels, job);
        assert(out == merged);
        lemma_merge_weight(levels, job, merged);
        assert(parts_storable(merged, config.options()));
        assert(merged.len() > 0 && run_intact(written.tables) && run_entries(written.tables)
            == merged) by {
            reveal(is_run_of);
            law_written_run_is_intact(
                written.tables,
                merged,
                job.target_level as nat,
                before.next_sequence,
                config.options(),
            );
        }
        assert(written.tables.len() > 0) by {
            if written.tables.len() == 0 {
                assert(run_entries(written.tables).len() == 0);
            }
        }
        lemma_run_ends(written.tables);
        assert(run_intact(levels[t][0].tables));
        lemma_select(levels[t][0].tables, unless(takes(job, t, 0)));
        lemma_run_ends(stays.tables);
        lemma_stays_clear(levels, shape, request, job, merged, written);
        lemma_two_fold(written, stays);
    }
}

/// No table of a merge meets a table that stays at its target.
proof fn lemma_stays_clear(
    levels: Seq<Seq<RunView>>,
    shape: TreeShape,
    request: CompactionRequest,
    job: CompactionJob,
    merged: Seq<EntryView>,
    written: RunView,
)
    requires
        levels_intact(levels),
        shows(shape, levels),
        well_indexed(shape),
        is_leveling_job(shape, request, job),
        job.sources@.len() > 0,
        orderly(request),
        job.target_level < levels.len(),
        levels[job.target_level as int].len() == 1,
        forall|key: Seq<u8>| #[trigger]
            find(merged, key) == without_tombstone(
                first_found(lists_taken(levels, job), key),
                job.drop_tombstones,
            ),
        run_intact(written.tables),
        run_entries(written.tables) == merged,
    ensures
        runs_clear(
            written,
            kept_run(levels[job.target_level as int][0], job.target_level as int, 0, job),
        ),
{
    let t = job.target_level as int;
    let tables = levels[t][0].tables;
    let keep = unless(takes(job, t, 0));
    let stays = kept_run(levels[t][0], t, 0, job);
    assert forall|w: int, g: int|
        #![trigger written.tables[w], stays.tables[g]]
        0 <= w < written.tables.len() && 0 <= g < stays.tables.len() implies clear_of(
        written.tables[w].table,
        stays.tables[g].table,
    ) by {
        let f = lemma_selected_place(tables, keep, g);
        lemma_table_stays_clear(levels, shape, request, job, merged, written, w, f);
    }
}

/// A table of a merge does not meet a table that stays at its target.
proof fn lemma_table_stays_clear(
    levels: Seq<Seq<RunView>>,
    shape: TreeShape,
    request: CompactionRequest,
    job: CompactionJob,
    merged: Seq<EntryView>,
    written: RunView,
    w: int,
    f: int,
)
    requires
        levels_intact(levels),
        shows(shape, levels),
        well_indexed(shape),
        is_leveling_job(shape, request, job),
        job.sources@.len() > 0,
        orderly(request),
        job.target_level < levels.len(),
        levels[job.target_level as int].len() == 1,
        forall|key: Seq<u8>| #[trigger]
            find(merged, key) == without_tombstone(
                first_found(lists_taken(levels, job), key),
                job.drop_tombstones,
            ),
        run_intact(written.tables),
        run_entries(written.tables) == merged,
        0 <= w < written.tables.len(),
        0 <= f < levels[job.target_level as int][0].tables.len(),
        !taken(job, job.target_level as int, 0, f),
    ensures
        clear_of(
            written.tables[w].table,
            levels[job.target_level as int][0].tables[f].table,
        ),
{
    let t = job.target_level as int;
    let tables = levels[t][0].tables;
    let table = written.tables[w].table;
    let entries = table_entries(table);
    assert(intact(written.tables[w].table));
    lemma_table_ends(table);
    let first = lemma_table_in_run(written.tables, w, 0);
    let last = lemma_table_in_run(written.tables, w, entries.len() - 1);
    let i = lemma_merged_is_taken(levels, job, merged, first);
    let j = lemma_merged_is_taken(levels, job, merged, last);
    let span = lemma_target_span(levels, shape, request, job, f, i, merged[first].0);
    lemma_side(levels, shape, request, job, span.least, span.greatest, f, i, merged[first].0);
    lemma_side(levels, shape, request, job, span.least, span.greatest, f, j, merged[last].0);
}

/// The span of the sources of a leveling job that leaves a table at its target.
proof fn lemma_target_span(
    levels: Seq<Seq<RunView>>,
    shape: TreeShape,
    request: CompactionRequest,
    job: CompactionJob,
    f: int,
    i: int,
    key: Seq<u8>,
) -> (span: Span)
    requires
        levels_intact(levels),
        shows(shape, levels),
        well_indexed(shape),
        is_leveling_job(shape, request, job),
        job.sources@.len() > 0,
        orderly(request),
        job.target_level < levels.len(),
        levels[job.target_level as int].len() == 1,
        0 <= f < levels[job.target_level as int][0].tables.len(),
        !taken(job, job.target_level as int, 0, f),
        0 <= i < lists_taken(levels, job).len(),
        has_key(lists_taken(levels, job)[i], key),
    ensures
        forall|r: int, f: int|
            !#[trigger] sources_pick(job.sources@, job.target_level as int, r, f),
        forall|l: int, r: int, f: int|
            #![trigger file_at(shape, l, r, f)]
            sources_pick(job.sources@, l, r, f) && has_file(shape, l, r, f) && file_at(
                shape,
                l,
                r,
                f,
            ).min_key is Some && file_at(shape, l, r, f).max_key is Some ==> {
                &&& lex_le(span.least, key_view(file_at(shape, l, r, f).min_key)->0)
                &&& lex_le(key_view(file_at(shape, l, r, f).max_key)->0, span.greatest)
            },
        forall|r: int, f: int|
            #![trigger file_at(shape, request.target_level as int, r, f)]
            has_file(shape, request.target_level as int, r, f) ==> (picks(job.targets@, r, f)
                <==> file_at(shape, request.target_level as int, r, f).meets(
                span.least,
                span.greatest,
            )),
{
    let t = job.target_level as int;
    let tables = levels[t][0].tables;
    assert(shape.levels@[t].runs@.len() == 1);
    assert(shape.levels@[t].runs@[0].files@.len() == tables.len());
    assert(has_file(shape, t, 0, f));
    if request.first_level <= request.target_level <= request.last_level {
        // Everything would have been taken.
        assert(!sliced(shape, request));
        lemma_sources_pick(shape, request, job.sources@);
        if request.merge_units is None {
            assert(taken(job, t, 0, f));
        } else {
            lemma_one_run_is_no_merge(shape, t, request.merge_units->0);
            assert(requested_levels(shape, t, t + 1, request.merge_units).len() == 0) by {
                assert(requested_levels(shape, t, t, request.merge_units).len() == 0);
            }
        }
        assert(false);
    }
    lemma_occupied_contains(shape, t, 0);
    let held = occupied_runs(shape.runs_at(t));
    shape.runs_at(t).lemma_filter_len(|run: RunShape| run.files@.len() > 0);
    assert(held.len() == 1);
    let span = lemma_span(shape, request, job);
    lemma_leveling_sources(shape, request, job.sources@);
    assert forall|r: int, f: int| !#[trigger] sources_pick(job.sources@, t, r, f) by {}
    assert(span is Some) by {
        let (l, r, g) = lemma_taken_table(levels, job, i, key);
        assert(run_intact(levels[l][r].tables));
        assert(intact(levels[l][r].tables[g].table));
        lemma_key_in_range(levels[l][r].tables[g].table, key);
        assert(shape.levels@[l].runs@[r].files@.len() == levels[l][r].tables.len());
        assert(has_file(shape, l, r, g));
        let file = file_at(shape, l, r, g);
        assert(file.min_key is Some && file.max_key is Some);
    }
    span->0
}

} // verus!
