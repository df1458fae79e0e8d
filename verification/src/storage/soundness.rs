//! Why a tree answers what was written.
//!
//! A lookup gives the last value written to its key, whatever flushes and
//! compactions came in between, and none of them fails: as long as everything
//! in the tree can be read, all that is ever written to a table fits its
//! format. That is owed of no more entries than the tree has room to produce.

use vstd::prelude::*;

use super::coalesce::{coalesced, law_coalescing_is_invisible};
use super::compaction::{file_at, lists_in_order, safe, CompactionJob};
use super::config::LsmConfig;
use super::disk::ActionView;
use super::entries::{as_map, ascending, find, has_key, lemma_find_at, EntryView};
use super::growth::CompactionRequest;
use super::levels::{
    all_runs, kept_level, law_safe_jobs_are_invisible, lemma_first_found_one, lemma_levels_push,
    lemma_lists_by_place, lemma_lists_len, lemma_place, lemma_select, level_after, levels_after,
    levels_find, levels_intact, lists_kept, lists_of, lists_taken, place, select, shows, takes,
    unless,
};
use super::memtable::{charge, total_charge};
use super::merge::{
    entries_or_error, first_found, law_merge_keeps_the_newest, lemma_all_entries,
    lemma_first_found_concat, merge_of, without_tombstone,
};
use super::ordering::{lemma_items_taken, lemma_job_order, selected_lists};
use super::run::{
    law_written_run_is_intact, parts_storable, run_entries, run_intact, RunView, TableOptions,
};
use super::shape::TreeShape;
use super::sstable::appendable;
use super::steps::{
    cannot_perform, flush_outcome, folded, is_compacted, is_flushed, is_flushed_as, is_file_shape,
    is_logged, is_noted, is_over, is_performed, is_performed_as, is_run_of, is_run_shape, is_shape_of,
    is_stuck, is_stuck_at, is_stuck_on, is_turn, is_written, items_taken,
    levels_flushed, named, rests, selections, turned, turns_to, write_outcome, Phase,
};
use super::tree::{answer, readable_tree, tree_lists, TreeView};
use super::wal::loggable;
use super::weight::{
    lemma_flushed_weight, lemma_job_parts, lemma_job_weight, lemma_run_weight,
    lemma_said_weighs_less, lemma_written_weight, levels_weight, lists_weight, weight,
};
use super::StorageError;

verus! {

/// Everything that a list says could have been logged.
pub open spec fn fine(entries: Seq<EntryView>) -> bool {
    forall|key: Seq<u8>|
        (#[trigger] find(entries, key)) matches Some(value) ==> loggable((key, value))
}

/// Everything that levels say could have been logged.
pub open spec fn levels_fine(levels: Seq<Seq<RunView>>) -> bool {
    forall|l: int, r: int|
        0 <= l < levels.len() && 0 <= r < levels[l].len() ==> fine(
            run_entries((#[trigger] levels[l][r]).tables),
        )
}

/// Everything in the tree can be read, and came through the log.
pub open spec fn sound(tree: TreeView) -> bool {
    &&& readable_tree(tree)
    &&& fine(tree.memtable)
    &&& levels_fine(tree.levels)
}

/// Whatever came through the log fits the format of tables.
pub open spec fn fits(options: TableOptions) -> bool {
    forall|entries: Seq<EntryView>|
        ascending(entries) && fine(entries) ==> #[trigger] parts_storable(entries, options)
}

/// Whatever came through the log, and is charged no more than `budget` together,
/// fits the format of tables.
pub open spec fn fits_upto(options: TableOptions, budget: nat) -> bool {
    forall|entries: Seq<EntryView>|
        ascending(entries) && fine(entries) && total_charge(entries) <= budget
            ==> #[trigger] parts_storable(entries, options)
}

/// What fits however much there is fits.
pub proof fn law_what_fits_fits_in_part(options: TableOptions, budget: nat)
    requires
        fits(options),
    ensures
        fits_upto(options, budget),
{
}

/// Two trees answer alike.
pub open spec fn same_answers(a: TreeView, b: TreeView) -> bool {
    forall|key: Seq<u8>| #[trigger] answer(a, key) == answer(b, key)
}

/// What could have been logged, a table can take.
pub proof fn lemma_fine_is_appendable(entries: Seq<EntryView>)
    requires
        ascending(entries),
        fine(entries),
    ensures
        appendable(entries),
        forall|i: int| 0 <= i < entries.len() ==> loggable(#[trigger] entries[i]),
{
    assert forall|i: int| 0 <= i < entries.len() implies loggable(#[trigger] entries[i]) by {
        lemma_find_at(entries, i);
        assert(find(entries, entries[i].0) == Some(entries[i].1));
    }
}

// ---------------------------------------------------------------------------
// Flushing
// ---------------------------------------------------------------------------

/// The run of a flush is read first.
pub proof fn lemma_all_runs_flushed(levels: Seq<Seq<RunView>>, run: RunView)
    ensures
        all_runs(levels_flushed(levels, run)) == seq![run] + all_runs(levels),
    decreases levels.len(),
{
    let after = levels_flushed(levels, run);
    if levels.len() == 0 {
        assert(after.drop_last() =~= Seq::<Seq<RunView>>::empty());
        assert(all_runs(after.drop_last()) =~= Seq::<RunView>::empty());
        assert(all_runs(after) =~= seq![run] + all_runs(levels));
    } else if levels.len() == 1 {
        assert(after.drop_last() =~= Seq::<Seq<RunView>>::empty());
        assert(levels.drop_last() =~= Seq::<Seq<RunView>>::empty());
        assert(all_runs(after.drop_last()) =~= Seq::<RunView>::empty());
        assert(all_runs(levels) =~= levels[0]);
        assert(all_runs(after) =~= seq![run] + all_runs(levels));
    } else {
        let head = levels.drop_last();
        lemma_all_runs_flushed(head, run);
        assert(after.drop_last() =~= levels_flushed(head, run));
        assert(all_runs(after) =~= seq![run] + all_runs(levels));
    }
}

/// Writing the memtable as a run changes no answer.
pub proof fn law_flushing_is_invisible(
    before: TreeView,
    after: TreeView,
    actions: Seq<ActionView>,
    options: TableOptions,
)
    requires
        is_flushed(before, after, actions, options),
        sound(before),
        fits_upto(options, weight(before)),
    ensures
        sound(after),
        same_answers(before, after),
        weight(after) == weight(before),
{
    let run = choose|run: RunView| #[trigger]
        is_flushed_as(before, after, actions, options, run);
    lemma_flushed_run(before, after, actions, options, run);
    lemma_flushed_levels(before.levels, run);
    assert(fine(after.memtable)) by {
        assert forall|key: Seq<u8>|
            (#[trigger] find(after.memtable, key)) matches Some(value) implies loggable(
            (key, find(after.memtable, key)->0),
        ) by {
            assert(!has_key(after.memtable, key));
        }
    }
    assert forall|key: Seq<u8>| #[trigger] answer(before, key) == answer(after, key) by {
        let old_lists = lists_of(all_runs(before.levels));
        lemma_all_runs_flushed(before.levels, run);
        assert(lists_of(all_runs(after.levels)) =~= seq![before.memtable] + old_lists);
        assert(tree_lists(after) =~= seq![after.memtable] + (seq![before.memtable] + old_lists));
        lemma_first_found_concat(
            seq![after.memtable],
            seq![before.memtable] + old_lists,
            key,
        );
        lemma_first_found_one(after.memtable, key);
        assert(!has_key(after.memtable, key));
    }
}

/// The run of a flush holds what the memtable held.
pub proof fn lemma_flushed_run(
    before: TreeView,
    after: TreeView,
    actions: Seq<ActionView>,
    options: TableOptions,
    run: RunView,
)
    requires
        is_flushed_as(before, after, actions, options, run),
        sound(before),
        fits_upto(options, weight(before)),
    ensures
        weight(after) == weight(before),
        run_intact(run.tables),
        run_entries(run.tables) == before.memtable,
        after.levels == levels_flushed(before.levels, run),
        after.memtable == Seq::<EntryView>::empty(),
{
    reveal(is_flushed_as);
    reveal(is_run_of);
    assert(parts_storable(before.memtable, options));
    law_written_run_is_intact(run.tables, before.memtable, 0, before.next_sequence, options);
    lemma_run_weight(run.tables);
    lemma_flushed_weight(before.levels, run);
    assert(total_charge(after.memtable) == 0);
}

/// A readable run in front of readable levels.
proof fn lemma_flushed_levels(levels: Seq<Seq<RunView>>, run: RunView)
    requires
        levels_intact(levels),
        levels_fine(levels),
        run_intact(run.tables),
        fine(run_entries(run.tables)),
    ensures
        levels_intact(levels_flushed(levels, run)),
        levels_fine(levels_flushed(levels, run)),
{
    let after = levels_flushed(levels, run);
    assert forall|l: int, r: int|
        0 <= l < after.len() && 0 <= r < after[l].len() implies run_intact(
        (#[trigger] after[l][r]).tables,
    ) && fine(run_entries(after[l][r].tables)) by {
        if levels.len() == 0 {
        } else if l == 0 {
            if r > 0 {
                assert(after[l][r] == levels[l][r - 1]);
            }
        } else {
            assert(after[l][r] == levels[l][r]);
        }
    }
}

// ---------------------------------------------------------------------------
// Compacting
// ---------------------------------------------------------------------------

/// Part of a run is fine if the run is.
proof fn lemma_part_is_fine(tables: Seq<super::run::NamedView>, keep: spec_fn(int) -> bool)
    requires
        run_intact(tables),
        fine(run_entries(tables)),
    ensures
        run_intact(select(tables, keep)),
        fine(run_entries(select(tables, keep))),
{
    lemma_select(tables, keep);
    let part = run_entries(select(tables, keep));
    assert forall|key: Seq<u8>|
        (#[trigger] find(part, key)) matches Some(value) implies loggable(
        (key, find(part, key)->0),
    ) by {
        assert(has_key(part, key));
        assert(find(part, key) == find(run_entries(tables), key));
    }
}

/// What fine lists say is fine.
proof fn lemma_found_is_fine(lists: Seq<Seq<EntryView>>, key: Seq<u8>)
    requires
        forall|i: int| 0 <= i < lists.len() ==> fine(#[trigger] lists[i]),
    ensures
        first_found(lists, key) matches Some(value) ==> loggable((key, value)),
    decreases lists.len(),
{
    if lists.len() > 0 {
        let rest = lists.drop_first();
        assert(fine(lists[0]));
        assert forall|i: int| 0 <= i < rest.len() implies fine(#[trigger] rest[i]) by {
            assert(rest[i] == lists[i + 1]);
        }
        lemma_found_is_fine(rest, key);
    }
}

/// What a job selects is fine if the levels are.
proof fn lemma_selected_is_fine(levels: Seq<Seq<RunView>>, job: CompactionJob)
    requires
        levels_intact(levels),
        levels_fine(levels),
    ensures
        forall|i: int|
            0 <= i < selected_lists(levels, selections(job)).len() ==> fine(
                #[trigger] selected_lists(levels, selections(job))[i],
            ),
{
    let chosen = selections(job);
    let lists = selected_lists(levels, chosen);
    assert forall|i: int| 0 <= i < lists.len() implies fine(#[trigger] lists[i]) by {
        let l = chosen[i].level as int;
        let r = chosen[i].run as int;
        if l < levels.len() && r < levels[l].len() {
            assert(run_intact(levels[l][r].tables));
            lemma_part_is_fine(levels[l][r].tables, named(chosen[i].files));
        } else {
            assert(lists[i].len() == 0);
        }
    }
}

/// A merge of what a job takes can be read and written. If the job lists its inputs
/// newest first, the merge says of a key what the newest of them says.
pub proof fn lemma_merge_is_fine(levels: Seq<Seq<RunView>>, job: CompactionJob) -> (merged: Seq<
    EntryView,
>)
    requires
        levels_intact(levels),
        levels_fine(levels),
    ensures
        entries_or_error(merge_of(items_taken(levels, job), job.drop_tombstones)) == Ok::<
            Seq<EntryView>,
            StorageError,
        >(merged),
        ascending(merged),
        fine(merged),
        lists_in_order(job) ==> forall|key: Seq<u8>| #[trigger]
            find(merged, key) == without_tombstone(
                first_found(lists_taken(levels, job), key),
                job.drop_tombstones,
            ),
{
    let lists = selected_lists(levels, selections(job));
    lemma_items_taken(levels, job);
    let merged = law_merge_keeps_the_newest(lists, job.drop_tombstones);
    lemma_all_entries(merged);
    lemma_selected_is_fine(levels, job);
    assert forall|key: Seq<u8>|
        (#[trigger] find(merged, key)) matches Some(value) implies loggable(
        (key, find(merged, key)->0),
    ) by {
        lemma_found_is_fine(lists, key);
    }
    if lists_in_order(job) {
        assert forall|key: Seq<u8>| #[trigger]
            find(merged, key) == without_tombstone(
            first_found(lists_taken(levels, job), key),
            job.drop_tombstones,
        ) by {
            lemma_job_order(levels, job, key);
        }
    }
    merged
}

/// A merge is charged no more than what was taken for it.
pub proof fn lemma_merge_weight(
    levels: Seq<Seq<RunView>>,
    job: CompactionJob,
    merged: Seq<EntryView>,
)
    requires
        levels_intact(levels),
        ascending(merged),
        forall|key: Seq<u8>| #[trigger]
            find(merged, key) == without_tombstone(
                first_found(lists_taken(levels, job), key),
                job.drop_tombstones,
            ),
    ensures
        total_charge(merged) + lists_weight(lists_kept(levels, job)) <= levels_weight(levels),
{
    let lists = lists_taken(levels, job);
    assert forall|i: int| 0 <= i < lists.len() implies ascending(#[trigger] lists[i]) by {
        lemma_lists_len(levels, job);
        lemma_place(levels, i);
        lemma_lists_by_place(levels, job, i);
        let (l, r) = place(levels, i);
        assert(run_intact(levels[l][r].tables));
        lemma_select(levels[l][r].tables, takes(job, l, r));
    }
    lemma_said_weighs_less(merged, lists);
    lemma_job_parts(levels, job);
}

/// What a job leaves of a level can be read, and is fine.
proof fn lemma_kept_is_fine(level: Seq<RunView>, l: int, job: CompactionJob)
    requires
        forall|r: int|
            0 <= r < level.len() ==> run_intact((#[trigger] level[r]).tables) && fine(
                run_entries(level[r].tables),
            ),
    ensures
        forall|r: int|
            0 <= r < kept_level(level, l, job).len() ==> run_intact(
                (#[trigger] kept_level(level, l, job)[r]).tables,
            ) && fine(run_entries(kept_level(level, l, job)[r].tables)),
    decreases level.len(),
{
    let kept = kept_level(level, l, job);
    if level.len() > 0 {
        let head = level.drop_last();
        let n = level.len() - 1;
        assert forall|r: int| 0 <= r < head.len() implies run_intact((#[trigger] head[r]).tables)
            && fine(run_entries(head[r].tables)) by {
            assert(head[r] == level[r]);
        }
        lemma_kept_is_fine(head, l, job);
        let before = kept_level(head, l, job);
        assert(run_intact(level[n].tables));
        lemma_part_is_fine(level[n].tables, unless(takes(job, l, n)));
        assert forall|r: int| 0 <= r < kept.len() implies run_intact((#[trigger] kept[r]).tables)
            && fine(run_entries(kept[r].tables)) by {
            if r < before.len() {
                assert(kept[r] == before[r]);
            }
        }
    }
}

/// The levels after a job can be read, and are fine.
proof fn lemma_after_is_fine(
    levels: Seq<Seq<RunView>>,
    job: CompactionJob,
    run: Option<RunView>,
)
    requires
        levels_intact(levels),
        levels_fine(levels),
        run matches Some(run) ==> run_intact(run.tables) && fine(run_entries(run.tables)),
    ensures
        levels_intact(levels_after(levels, job, run)),
        levels_fine(levels_after(levels, job, run)),
{
    let after = levels_after(levels, job, run);
    assert forall|l: int, r: int|
        0 <= l < after.len() && 0 <= r < after[l].len() implies run_intact(
        (#[trigger] after[l][r]).tables,
    ) && fine(run_entries(after[l][r].tables)) by {
        let kept = if l < levels.len() {
            kept_level(levels[l], l, job)
        } else {
            Seq::empty()
        };
        if l < levels.len() {
            assert forall|r: int| 0 <= r < levels[l].len() implies run_intact(
                (#[trigger] levels[l][r]).tables,
            ) && fine(run_entries(levels[l][r].tables)) by {}
            lemma_kept_is_fine(levels[l], l, job);
        }
        assert(after[l] == level_after(levels, job, run, l));
        if l == job.target_level && run is Some {
            if r > 0 {
                assert(after[l][r] == kept[r - 1]);
            }
        } else {
            assert(after[l][r] == kept[r]);
        }
    }
}

/// A level that says the same changes nothing of what the levels say.
proof fn lemma_level_replaced(levels: Seq<Seq<RunView>>, l: int, level: Seq<RunView>, key: Seq<u8>)
    requires
        0 <= l < levels.len(),
        first_found(lists_of(level), key) == first_found(lists_of(levels[l]), key),
    ensures
        levels_find(levels.update(l, level), key) == levels_find(levels, key),
    decreases levels.len(),
{
    let after = levels.update(l, level);
    lemma_levels_push(levels, key);
    lemma_levels_push(after, key);
    if l == levels.len() - 1 {
        assert(after.drop_last() =~= levels.drop_last());
    } else {
        assert(after.drop_last() =~= levels.drop_last().update(l, level));
        lemma_level_replaced(levels.drop_last(), l, level, key);
    }
}

/// Folding a level changes nothing that the levels say, and keeps them sound.
proof fn lemma_folding_is_invisible(levels: Seq<Seq<RunView>>, l: int, limit: nat)
    requires
        0 <= l < levels.len(),
        levels_intact(levels),
        levels_fine(levels),
    ensures
        levels_intact(folded(levels, l, limit)),
        levels_fine(folded(levels, l, limit)),
        forall|key: Seq<u8>| #[trigger]
            levels_find(folded(levels, l, limit), key) == levels_find(levels, key),
{
    let after = folded(levels, l, limit);
    if limit == 1 {
        let level = coalesced(levels[l]);
        assert forall|r: int| 0 <= r < levels[l].len() implies run_intact(
            (#[trigger] levels[l][r]).tables,
        ) by {}
        assert forall|key: Seq<u8>| #[trigger]
            levels_find(folded(levels, l, limit), key) == levels_find(levels, key) by {
            law_coalescing_is_invisible(levels[l], key);
            lemma_level_replaced(levels, l, level, key);
        }
        law_coalescing_is_invisible(levels[l], Seq::empty());
        assert forall|r: int| 0 <= r < level.len() implies fine(
            run_entries((#[trigger] level[r]).tables),
        ) by {
            if level != levels[l] {
                let list = run_entries(level[0].tables);
                let lists = lists_of(levels[l]);
                assert(lists_of(level) =~= seq![list]);
                assert forall|i: int| 0 <= i < lists.len() implies fine(#[trigger] lists[i]) by {
                    assert(fine(run_entries(levels[l][i].tables)));
                }
                assert forall|key: Seq<u8>|
                    (#[trigger] find(list, key)) matches Some(value) implies loggable(
                    (key, find(list, key)->0),
                ) by {
                    law_coalescing_is_invisible(levels[l], key);
                    lemma_first_found_one(list, key);
                    lemma_found_is_fine(lists, key);
                }
            } else {
                assert(fine(run_entries(levels[l][r].tables)));
            }
        }
        assert forall|a: int, r: int|
            0 <= a < after.len() && 0 <= r < after[a].len() implies run_intact(
            (#[trigger] after[a][r]).tables,
        ) && fine(run_entries(after[a][r].tables)) by {
            if a == l {
                assert(after[a][r] == level[r]);
            } else {
                assert(after[a][r] == levels[a][r]);
            }
        }
    }
}

/// A shape shows the key ranges of the tables.
pub proof fn lemma_shape_shows(shape: TreeShape, levels: Seq<Seq<RunView>>)
    requires
        is_shape_of(shape, levels),
    ensures
        shows(shape, levels),
{
    reveal(is_shape_of);
    assert forall|l: int, r: int|
        0 <= l < levels.len() && 0 <= r < levels[l].len() implies (
    #[trigger] shape.levels@[l].runs@[r]).files@.len() == levels[l][r].tables.len() by {
        assert(is_run_shape(shape.levels@[l].runs@[r], levels[l][r], r));
    }
    assert forall|l: int, r: int, f: int|
        0 <= l < levels.len() && 0 <= r < levels[l].len() && 0 <= f
            < levels[l][r].tables.len() implies {
        &&& super::sstable::key_view((#[trigger] file_at(shape, l, r, f)).min_key)
            == levels[l][r].tables[f].table.min_key()
        &&& super::sstable::key_view(file_at(shape, l, r, f).max_key)
            == levels[l][r].tables[f].table.max_key
    } by {
        assert(is_run_shape(shape.levels@[l].runs@[r], levels[l][r], r));
        assert(is_file_shape(
            shape.levels@[l].runs@[r].files@[f],
            levels[l][r].tables[f].table,
            f,
        ));
    }
}

/// Performing a safe job changes no answer.
pub proof fn law_compacting_is_invisible(
    before: TreeView,
    after: TreeView,
    actions: Seq<ActionView>,
    shape: TreeShape,
    job: CompactionJob,
    config: LsmConfig,
)
    requires
        is_performed(before, after, actions, job, config),
        is_shape_of(shape, before.levels),
        safe(shape, job),
        sound(before),
        fits_upto(config.options(), weight(before)),
    ensures
        sound(after),
        same_answers(before, after),
        weight(after) <= weight(before),
{
    reveal(is_performed_as);
    reveal(is_run_of);
    let (merged, run) = choose|merged: Seq<EntryView>, run: Option<RunView>| #[trigger]
        is_performed_as(before, after, actions, job, config, merged, run);
    let levels = before.levels;
    let out = lemma_merge_is_fine(levels, job);
    assert(out == merged);
    lemma_merge_weight(levels, job, merged);
    assert(parts_storable(merged, config.options()));
    lemma_job_weight(levels, job, run, config.merge.run_limit());
    match run {
        Some(run) => {
            law_written_run_is_intact(
                run.tables,
                merged,
                job.target_level as nat,
                before.next_sequence,
                config.options(),
            );
            lemma_run_weight(run.tables);
        },
        None => {},
    }
    lemma_shape_shows(shape, levels);
    lemma_after_is_fine(levels, job, run);
    let middle = levels_after(levels, job, run);
    lemma_folding_is_invisible(middle, job.target_level as int, config.merge.run_limit());
    assert forall|key: Seq<u8>| #[trigger] answer(before, key) == answer(after, key) by {
        law_safe_jobs_are_invisible(levels, shape, job, run, merged, key);
        assert(levels_find(after.levels, key) == levels_find(middle, key));
        lemma_first_found_concat(seq![before.memtable], lists_of(all_runs(before.levels)), key);
        lemma_first_found_concat(seq![after.memtable], lists_of(all_runs(after.levels)), key);
        lemma_first_found_one(before.memtable, key);
    }
}

/// In a sound tree every job can be performed, if whatever it may write fits: for one
/// that lists its inputs newest first that is no more than the tree holds.
pub proof fn law_sound_jobs_succeed(
    tree: TreeView,
    job: CompactionJob,
    config: LsmConfig,
    error: StorageError,
)
    requires
        sound(tree),
        fits(config.options()) || (lists_in_order(job) && fits_upto(
            config.options(),
            weight(tree),
        )),
    ensures
        !cannot_perform(tree, job, config, error),
{
    reveal(cannot_perform);
    let merged = lemma_merge_is_fine(tree.levels, job);
    lemma_fine_is_appendable(merged);
    if lists_in_order(job) {
        lemma_merge_weight(tree.levels, job, merged);
    }
    assert(parts_storable(merged, config.options()));
}

/// Turns change no answer.
pub proof fn lemma_turns_are_invisible(
    before: Phase,
    after: Phase,
    turns: nat,
    config: LsmConfig,
)
    requires
        turned(before, after, turns, config),
        sound(before.tree),
        fits_upto(config.options(), weight(before.tree)),
    ensures
        sound(after.tree),
        same_answers(before.tree, after.tree),
        weight(after.tree) <= weight(before.tree),
    decreases turns,
{
    if turns > 0 {
        let middle = choose|middle: Phase|
            turned(before, middle, (turns - 1) as nat, config) && #[trigger] turns_to(
                middle,
                after,
                config,
            );
        lemma_turns_are_invisible(before, middle, (turns - 1) as nat, config);
        let (shape, request, job) = choose|
            shape: TreeShape,
            request: CompactionRequest,
            job: Option<CompactionJob>,
        | #[trigger] is_turn(middle, after, config, shape, request, job);
        match job {
            None => {},
            Some(job) => {
                let actions = choose|actions: Seq<ActionView>| #[trigger]
                    is_performed(middle.tree, after.tree, actions, job, config) && after.actions
                        == middle.actions + actions;
                law_compacting_is_invisible(
                    middle.tree,
                    after.tree,
                    actions,
                    shape,
                    job,
                    config,
                );
            },
        }
        assert forall|key: Seq<u8>| #[trigger]
            answer(before.tree, key) == answer(after.tree, key) by {
            assert(answer(before.tree, key) == answer(middle.tree, key));
            assert(answer(middle.tree, key) == answer(after.tree, key));
        }
    }
}

/// Compaction of a sound tree changes no answer.
pub proof fn law_compaction_changes_no_answer(before: Phase, after: Phase, config: LsmConfig)
    requires
        is_compacted(before, after, config),
        sound(before.tree),
        fits_upto(config.options(), weight(before.tree)),
    ensures
        sound(after.tree),
        same_answers(before.tree, after.tree),
        weight(after.tree) <= weight(before.tree),
{
    let (turns, middle) = choose|turns: nat, middle: Phase| #[trigger]
        turned(before, middle, turns, config) && turns <= config.max_compactions_per_flush
            && if is_over(middle, turns, config) {
            after == middle
        } else {
            rests(middle, after)
        };
    lemma_turns_are_invisible(before, middle, turns, config);
}

/// Compaction of a sound tree does not fail.
pub proof fn law_compaction_succeeds(
    before: Phase,
    after: Phase,
    config: LsmConfig,
    error: StorageError,
)
    requires
        sound(before.tree),
        fits_upto(config.options(), weight(before.tree)),
    ensures
        !is_stuck(before, after, config, error),
{
    if is_stuck(before, after, config, error) {
        let (turns, middle) = choose|turns: nat, middle: Phase| #[trigger]
            turned(before, middle, turns, config) && turns < config.max_compactions_per_flush
                && middle.tree.next_sequence < u64::MAX && is_stuck_at(middle, after, config, error);
        lemma_turns_are_invisible(before, middle, turns, config);
        let (shape, request, job) = choose|
            shape: TreeShape,
            request: CompactionRequest,
            job: CompactionJob,
        | #[trigger] is_stuck_on(middle, after, config, error, shape, request, job);
        law_sound_jobs_succeed(middle.tree, job, config, error);
    }
}

/// A flush of a sound tree succeeds, leaves a sound tree, and changes no
/// answer.
pub proof fn law_flush_changes_no_answer(
    before: Phase,
    after: Phase,
    outcome: Result<bool, StorageError>,
    config: LsmConfig,
)
    requires
        flush_outcome(before, after, outcome, config),
        sound(before.tree),
        fits_upto(config.options(), weight(before.tree)),
    ensures
        outcome == Ok::<bool, StorageError>(before.tree.memtable.len() > 0),
        sound(after.tree),
        same_answers(before.tree, after.tree),
        weight(after.tree) <= weight(before.tree),
{
    if before.tree.memtable.len() > 0 {
        lemma_fine_is_appendable(before.tree.memtable);
        assert(parts_storable(before.tree.memtable, config.options()));
        match outcome {
            Ok(_) => {
                let middle = choose|middle: Phase| #[trigger]
                    is_noted(before, middle, config) && is_compacted(middle, after, config);
                lemma_noted_is_invisible(before, middle, config);
                law_compaction_changes_no_answer(middle, after, config);
                assert forall|key: Seq<u8>| #[trigger]
                    answer(before.tree, key) == answer(after.tree, key) by {
                    assert(answer(before.tree, key) == answer(middle.tree, key));
                    assert(answer(middle.tree, key) == answer(after.tree, key));
                }
            },
            Err(error) => {
                let middle = choose|middle: Phase| #[trigger]
                    is_noted(before, middle, config) && is_stuck(middle, after, config, error);
                lemma_noted_is_invisible(before, middle, config);
                law_compaction_succeeds(middle, after, config, error);
            },
        }
    }
}

proof fn lemma_noted_is_invisible(before: Phase, middle: Phase, config: LsmConfig)
    requires
        is_noted(before, middle, config),
        sound(before.tree),
        fits_upto(config.options(), weight(before.tree)),
    ensures
        sound(middle.tree),
        same_answers(before.tree, middle.tree),
        weight(middle.tree) == weight(before.tree),
{
    let actions = choose|actions: Seq<ActionView>| #[trigger]
        is_flushed(before.tree, middle.tree, actions, config.options()) && middle.actions
            == before.actions + actions;
    law_flushing_is_invisible(before.tree, middle.tree, actions, config.options());
}

// ---------------------------------------------------------------------------
// Writing
// ---------------------------------------------------------------------------

/// A mutation that was applied is the answer for its key, and changes no other.
pub proof fn lemma_written(before: TreeView, after: TreeView, entry: EntryView)
    requires
        is_written(before, after, entry),
        loggable(entry),
        sound(before),
    ensures
        sound(after),
        weight(after) <= weight(before) + charge(entry),
        answer(after, entry.0) == entry.1,
        forall|key: Seq<u8>|
            key != entry.0 ==> #[trigger] answer(after, key) == answer(before, key),
{
    let was = before.memtable;
    let is = after.memtable;
    lemma_written_weight(before, after, entry);
    assert forall|key: Seq<u8>| #[trigger] find(is, key) == if key == entry.0 {
        Some(entry.1)
    } else {
        find(was, key)
    } by {
        assert(as_map(is).contains_key(key) == as_map(was).insert(entry.0, entry.1).contains_key(
            key,
        ));
        if as_map(is).contains_key(key) {
            assert(as_map(is)[key] == as_map(was).insert(entry.0, entry.1)[key]);
        }
    }
    assert(fine(is)) by {
        assert forall|key: Seq<u8>|
            (#[trigger] find(is, key)) matches Some(value) implies loggable(
            (key, find(is, key)->0),
        ) by {
            if key != entry.0 {
                assert(find(was, key) is Some);
            }
        }
    }
    let lists = lists_of(all_runs(before.levels));
    assert forall|key: Seq<u8>| answer(after, key) == if key == entry.0 {
        entry.1
    } else {
        #[trigger] answer(before, key)
    } by {
        lemma_first_found_concat(seq![was], lists, key);
        lemma_first_found_concat(seq![is], lists, key);
        lemma_first_found_one(was, key);
        lemma_first_found_one(is, key);
        assert(find(is, key) == if key == entry.0 {
            Some(entry.1)
        } else {
            find(was, key)
        });
    }
    assert(answer(after, entry.0) == entry.1) by {
        assert(answer(before, entry.0) == answer(before, entry.0));
    }
    assert forall|key: Seq<u8>| key != entry.0 implies #[trigger] answer(after, key) == answer(
        before,
        key,
    ) by {
        assert(answer(before, key) == answer(before, key));
    }
}

/// A write to a sound tree succeeds exactly if the log can hold it. Then the key
/// answers with what was written, or with nothing if it was deleted, and every
/// other key answers as before, whatever flush and compaction it set off. A
/// write that is refused changes no answer.
pub proof fn law_reads_see_writes(
    before: Phase,
    after: Phase,
    entry: EntryView,
    outcome: Result<(), StorageError>,
    config: LsmConfig,
)
    requires
        write_outcome(before, after, entry, outcome, config),
        sound(before.tree),
        fits_upto(config.options(), weight(before.tree) + charge(entry)),
    ensures
        sound(after.tree),
        weight(after.tree) <= weight(before.tree) + charge(entry),
        outcome is Ok <==> loggable(entry),
        outcome is Ok ==> answer(after.tree, entry.0) == entry.1,
        outcome is Ok ==> forall|key: Seq<u8>|
            key != entry.0 ==> #[trigger] answer(after.tree, key) == answer(before.tree, key),
        outcome is Err ==> same_answers(before.tree, after.tree),
{
    if loggable(entry) {
        let middle = choose|middle: Phase| #[trigger]
            is_logged(before, middle, entry, config) && if total_charge(
                middle.tree.memtable,
            ) < config.memtable_threshold_bytes {
                outcome is Ok && after == middle
            } else {
                match outcome {
                    Ok(()) => exists|written: bool| #[trigger]
                        flush_outcome(middle, after, Ok::<bool, StorageError>(written), config),
                    Err(error) => flush_outcome(
                        middle,
                        after,
                        Err::<bool, StorageError>(error),
                        config,
                    ),
                }
            };
        lemma_written(before.tree, middle.tree, entry);
        if total_charge(middle.tree.memtable)
            >= config.memtable_threshold_bytes {
            match outcome {
                Ok(()) => {
                    let written = choose|written: bool| #[trigger]
                        flush_outcome(middle, after, Ok::<bool, StorageError>(written), config);
                    law_flush_changes_no_answer(
                        middle,
                        after,
                        Ok::<bool, StorageError>(written),
                        config,
                    );
                    assert(answer(middle.tree, entry.0) == answer(after.tree, entry.0));
                    assert forall|key: Seq<u8>| key != entry.0 implies #[trigger] answer(
                        after.tree,
                        key,
                    ) == answer(before.tree, key) by {
                        assert(answer(middle.tree, key) == answer(after.tree, key));
                    }
                },
                Err(error) => {
                    law_flush_changes_no_answer(
                        middle,
                        after,
                        Err::<bool, StorageError>(error),
                        config,
                    );
                },
            }
        }
    } else {
        assert forall|key: Seq<u8>| #[trigger]
            answer(before.tree, key) == answer(after.tree, key) by {
            assert(tree_lists(before.tree) =~= tree_lists(after.tree));
        }
    }
}

} // verus!
