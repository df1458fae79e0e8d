//! Many operations in a row, and a crash anywhere among them.

use vstd::prelude::*;

use super::config::{LsmConfig, MergeKind};
use super::disk::{lemma_perform_concat, perform_all, ActionView, DiskView};
use super::durability::{
    kept, law_compacting_loses_nothing, law_flushing_loses_nothing, law_recovery_answers_alike,
    law_recovery_restores_the_tree, law_writing_loses_nothing, mirrors, recovers_as,
};
use super::entries::EntryView;
use super::leveled::{law_compacting_keeps_one_run, law_flushing_keeps_one_run, one_run_each};
use super::levels::all_runs;
use super::lsm::{can_write, has_sequence};
use super::memtable::{charge, total_charge};
use super::recovery::{is_opened, opened};
use super::soundness::{
    fits_upto, law_compaction_changes_no_answer, law_flush_changes_no_answer, law_flushing_is_invisible,
    law_reads_see_writes, lemma_written, sound,
};
use super::steps::{
    compaction_outcome, flush_outcome, is_compacted, is_flushed, is_logged, is_noted, write_outcome,
    Phase,
};
use super::tree::{answer, tree_items, tree_items_from, tree_sources, tree_sources_from, TreeView};
use super::weight::weight;
use super::StorageError;

verus! {

/// What a tree is asked to do.
pub enum Call {
    /// A put or a delete.
    Write { entry: EntryView },
    Flush { written: bool },
    Compact,
    Sync,
}

/// A call that returned without an error, with the tree before and after it.
pub struct Step {
    pub call: Call,
    pub before: Phase,
    pub after: Phase,
}

/// The call does what it says.
pub open spec fn is_step(step: Step, config: LsmConfig) -> bool {
    match step.call {
        Call::Write { entry } => can_write(step.before.tree, entry, config) && write_outcome(
            step.before,
            step.after,
            entry,
            Ok::<(), StorageError>(()),
            config,
        ),
        Call::Flush { written } => (step.before.tree.memtable.len() > 0 ==> has_sequence(
            step.before.tree,
        )) && flush_outcome(
            step.before,
            step.after,
            Ok::<bool, StorageError>(written),
            config,
        ),
        Call::Compact => compaction_outcome(
            step.before,
            step.after,
            Ok::<(), StorageError>(()),
            config,
        ),
        Call::Sync => step.after == (Phase {
            actions: step.before.actions.push(ActionView::SyncLog),
            ..step.before
        }),
    }
}

/// Calls one after the other, from `start` on. What was asked of the disk may be
/// handed out between any two of them.
pub open spec fn is_history(start: TreeView, steps: Seq<Step>, config: LsmConfig) -> bool {
    &&& forall|i: int| 0 <= i < steps.len() ==> is_step(#[trigger] steps[i], config)
    &&& forall|i: int|
        0 <= i < steps.len() ==> (#[trigger] steps[i]).before.tree == tree_at(start, steps, i)
}

/// The tree after the first `n` calls.
pub open spec fn tree_at(start: TreeView, steps: Seq<Step>, n: int) -> TreeView {
    if n == 0 {
        start
    } else {
        steps[n - 1].after.tree
    }
}

/// What a call asks of the disk.
pub open spec fn asked(step: Step) -> Seq<ActionView> {
    step.after.actions.skip(step.before.actions.len() as int)
}

/// What calls ask of the disk, one after the other.
pub open spec fn all_asked(steps: Seq<Step>) -> Seq<ActionView>
    decreases steps.len(),
{
    if steps.len() == 0 {
        Seq::empty()
    } else {
        all_asked(steps.drop_last()) + asked(steps.last())
    }
}

/// What a call may add to a tree.
pub open spec fn charged(step: Step) -> nat {
    match step.call {
        Call::Write { entry } => charge(entry),
        _ => 0,
    }
}

/// What calls may add to a tree together.
pub open spec fn all_charged(steps: Seq<Step>) -> nat
    decreases steps.len(),
{
    if steps.len() == 0 {
        0
    } else {
        all_charged(steps.drop_last()) + charged(steps.last())
    }
}

/// What is known of a key after calls on a tree: what the last write to the key
/// said, or what the tree answered before them.
pub open spec fn answer_after(start: TreeView, steps: Seq<Step>, key: Seq<u8>) -> Option<Seq<u8>>
    decreases steps.len(),
{
    if steps.len() == 0 {
        answer(start, key)
    } else {
        match steps.last().call {
            Call::Write { entry } => if entry.0 == key {
                entry.1
            } else {
                answer_after(start, steps.drop_last(), key)
            },
            _ => answer_after(start, steps.drop_last(), key),
        }
    }
}

/// A disk that a crash left behind is taken up as the tree was after one of the
/// calls, no earlier than the `since`-th.
pub open spec fn recovers_since(
    disk: DiskView,
    start: TreeView,
    steps: Seq<Step>,
    since: int,
) -> bool {
    exists|n: int|
        since <= n <= steps.len() && recovers_as(disk, #[trigger] tree_at(start, steps, n))
}

proof fn lemma_history_head(start: TreeView, steps: Seq<Step>, config: LsmConfig)
    requires
        is_history(start, steps, config),
        steps.len() > 0,
    ensures
        is_history(start, steps.drop_last(), config),
        forall|n: int|
            0 <= n < steps.len() ==> #[trigger] tree_at(start, steps.drop_last(), n) == tree_at(
                start,
                steps,
                n,
            ),
        is_step(steps.last(), config),
        steps.last().before.tree == tree_at(start, steps, steps.len() - 1),
{
    let head = steps.drop_last();
    assert(is_step(steps[steps.len() - 1], config));
    assert forall|i: int| 0 <= i < head.len() implies is_step(#[trigger] head[i], config)
        && head[i].before.tree == tree_at(start, head, i) by {
        assert(head[i] == steps[i]);
    }
}

/// The last write of a key is what is read, after any calls, with all the flushes
/// and compactions that they set off.
pub proof fn law_the_last_write_is_read(start: TreeView, steps: Seq<Step>, config: LsmConfig)
    requires
        is_history(start, steps, config),
        sound(start),
        fits_upto(config.options(), weight(start) + all_charged(steps)),
    ensures
        sound(tree_at(start, steps, steps.len() as int)),
        weight(tree_at(start, steps, steps.len() as int)) <= weight(start) + all_charged(steps),
        forall|key: Seq<u8>| #[trigger]
            answer(tree_at(start, steps, steps.len() as int), key) == answer_after(
                start,
                steps,
                key,
            ),
    decreases steps.len(),
{
    if steps.len() > 0 {
        let head = steps.drop_last();
        let last = steps.last();
        lemma_history_head(start, steps, config);
        law_the_last_write_is_read(start, head, config);
        let before = tree_at(start, head, head.len() as int);
        assert(before == last.before.tree);
        match last.call {
            Call::Write { entry } => law_reads_see_writes(
                last.before,
                last.after,
                entry,
                Ok::<(), StorageError>(()),
                config,
            ),
            Call::Flush { written } => law_flush_changes_no_answer(
                last.before,
                last.after,
                Ok::<bool, StorageError>(written),
                config,
            ),
            Call::Compact => law_compaction_changes_no_answer(last.before, last.after, config),
            Call::Sync => {},
        }
        assert forall|key: Seq<u8>| #[trigger]
            answer(tree_at(start, steps, steps.len() as int), key) == answer_after(
            start,
            steps,
            key,
        ) by {
            assert(answer(before, key) == answer_after(start, head, key));
            assert(answer(last.before.tree, key) == answer(before, key));
        }
    }
}

/// What one call leaves on a disk that holds its tree, and on the way there.
proof fn lemma_step_survives(disk: DiskView, step: Step, config: LsmConfig)
    requires
        is_step(step, config),
        mirrors(disk, step.before.tree),
        kept(step.before.tree),
        sound(step.before.tree),
        fits_upto(config.options(), weight(step.before.tree) + charged(step)),
    ensures
        step.after.actions == step.before.actions + asked(step),
        mirrors(perform_all(disk, asked(step)), step.after.tree),
        kept(step.after.tree),
        forall|k: int|
            1 <= k <= asked(step).len() ==> recovers_as(
                #[trigger] perform_all(disk, asked(step).take(k)),
                step.before.tree,
            ) || recovers_as(perform_all(disk, asked(step).take(k)), step.after.tree),
{
    match step.call {
        Call::Write { entry } => {
            let actions = law_writing_loses_nothing(disk, step.before, step.after, entry, config);
            lemma_asked(step, actions);
        },
        Call::Flush { written } => {
            law_flush_changes_no_answer(
                step.before,
                step.after,
                Ok::<bool, StorageError>(written),
                config,
            );
            let actions = law_flushing_loses_nothing(disk, step.before, step.after, config);
            lemma_asked(step, actions);
        },
        Call::Compact => {
            let actions = law_compacting_loses_nothing(disk, step.before, step.after, config);
            lemma_asked(step, actions);
        },
        Call::Sync => {
            let actions = seq![ActionView::SyncLog];
            assert(step.after.actions =~= step.before.actions + actions);
            lemma_asked(step, actions);
            assert(actions.drop_last() =~= Seq::<ActionView>::empty());
            assert(perform_all(disk, actions.drop_last()) == disk);
            assert(perform_all(disk, actions) == disk);
            law_recovery_answers_alike(disk, step.before.tree);
            assert forall|k: int| 1 <= k <= actions.len() implies recovers_as(
                #[trigger] perform_all(disk, actions.take(k)),
                step.before.tree,
            ) by {
                assert(actions.take(k) =~= actions);
            }
        },
    }
}

proof fn lemma_asked(step: Step, actions: Seq<ActionView>)
    requires
        step.after.actions == step.before.actions + actions,
    ensures
        asked(step) == actions,
{
    assert(asked(step) =~= actions);
}

/// No call that returned is lost, wherever a crash comes among the actions of many:
/// once those of the first `since` calls are done, the disk is taken up as the tree
/// was after one of the calls from there on, whole.
#[verifier::rlimit(40)]
pub proof fn law_accepted_writes_survive(
    disk: DiskView,
    start: TreeView,
    steps: Seq<Step>,
    config: LsmConfig,
)
    requires
        is_history(start, steps, config),
        mirrors(disk, start),
        kept(start),
        sound(start),
        fits_upto(config.options(), weight(start) + all_charged(steps)),
    ensures
        mirrors(perform_all(disk, all_asked(steps)), tree_at(start, steps, steps.len() as int)),
        kept(tree_at(start, steps, steps.len() as int)),
        forall|since: int, k: int|
            0 <= since <= steps.len() && all_asked(steps.take(since)).len() <= k
                <= all_asked(steps).len() ==> #[trigger] recovers_since(
                perform_all(disk, all_asked(steps).take(k)),
                start,
                steps,
                since,
            ),
    decreases steps.len(),
{
    if steps.len() == 0 {
        law_recovery_answers_alike(disk, start);
        assert forall|since: int, k: int|
            0 <= since <= steps.len() && all_asked(steps.take(since)).len() <= k <= all_asked(
                steps,
            ).len() implies #[trigger] recovers_since(
            perform_all(disk, all_asked(steps).take(k)),
            start,
            steps,
            since,
        ) by {
            assert(all_asked(steps).take(k) =~= Seq::<ActionView>::empty());
            assert(recovers_as(disk, tree_at(start, steps, 0)));
        }
    } else {
        let head = steps.drop_last();
        lemma_history_head(start, steps, config);
        law_accepted_writes_survive(disk, start, head, config);
        law_the_last_write_is_read(start, head, config);
        let now = perform_all(disk, all_asked(head));
        assert(tree_at(start, head, head.len() as int) == steps.last().before.tree);
        lemma_step_survives(now, steps.last(), config);
        lemma_perform_concat(disk, all_asked(head), asked(steps.last()));
        law_recovery_answers_alike(
            perform_all(disk, all_asked(steps)),
            tree_at(start, steps, steps.len() as int),
        );
        assert forall|since: int, k: int|
            0 <= since <= steps.len() && all_asked(steps.take(since)).len() <= k <= all_asked(
                steps,
            ).len() implies #[trigger] recovers_since(
            perform_all(disk, all_asked(steps).take(k)),
            start,
            steps,
            since,
        ) by {
            lemma_crash_among(disk, start, steps, since, k);
        }
    }
}

/// A crash among the actions of all but the last call, or among those of the last.
proof fn lemma_crash_among(
    disk: DiskView,
    start: TreeView,
    steps: Seq<Step>,
    since: int,
    k: int,
)
    requires
        steps.len() > 0,
        0 <= since <= steps.len(),
        all_asked(steps.take(since)).len() <= k <= all_asked(steps).len(),
        forall|n: int|
            0 <= n < steps.len() ==> #[trigger] tree_at(start, steps.drop_last(), n) == tree_at(
                start,
                steps,
                n,
            ),
        steps.last().before.tree == tree_at(start, steps, steps.len() - 1),
        recovers_as(
            perform_all(disk, all_asked(steps)),
            tree_at(start, steps, steps.len() as int),
        ),
        forall|since: int, k: int|
            0 <= since <= steps.len() - 1 && all_asked(steps.drop_last().take(since)).len() <= k
                <= all_asked(steps.drop_last()).len() ==> #[trigger] recovers_since(
                perform_all(disk, all_asked(steps.drop_last()).take(k)),
                start,
                steps.drop_last(),
                since,
            ),
        forall|j: int|
            1 <= j <= asked(steps.last()).len() ==> recovers_as(
                #[trigger] perform_all(
                    perform_all(disk, all_asked(steps.drop_last())),
                    asked(steps.last()).take(j),
                ),
                steps.last().before.tree,
            ) || recovers_as(
                perform_all(
                    perform_all(disk, all_asked(steps.drop_last())),
                    asked(steps.last()).take(j),
                ),
                steps.last().after.tree,
            ),
    ensures
        recovers_since(perform_all(disk, all_asked(steps).take(k)), start, steps, since),
{
    let head = steps.drop_last();
    let first = all_asked(head);
    let second = asked(steps.last());
    let all = all_asked(steps);
    let whole = steps.len() as int;
    if since == whole {
        assert(steps.take(since) =~= steps);
        assert(all.take(k) =~= all);
        assert(recovers_as(perform_all(disk, all.take(k)), tree_at(start, steps, whole)));
    } else if k <= first.len() {
        assert(all.take(k) =~= first.take(k));
        assert(head.take(since) =~= steps.take(since));
        assert(recovers_since(perform_all(disk, first.take(k)), start, head, since));
        let n = choose|n: int|
            since <= n <= head.len() && recovers_as(
                perform_all(disk, first.take(k)),
                #[trigger] tree_at(start, head, n),
            );
        assert(recovers_as(perform_all(disk, all.take(k)), tree_at(start, steps, n)));
    } else {
        let j = k - first.len();
        assert(all.take(k) =~= first + second.take(j));
        lemma_perform_concat(disk, first, second.take(j));
        let left = perform_all(disk, all.take(k));
        if recovers_as(left, steps.last().before.tree) {
            assert(recovers_as(left, tree_at(start, steps, whole - 1)));
        } else {
            assert(recovers_as(left, tree_at(start, steps, whole)));
        }
    }
}

/// A tree that is closed after any calls, once the disk has done what they asked for,
/// can be opened again: with the same runs, the same memtable and log and the same
/// scans, deleted keys still deleted; and the sequence numbers that it goes on with
/// are above those of every run that it holds.
pub proof fn law_a_closed_tree_opens_again(
    disk: DiskView,
    start: TreeView,
    steps: Seq<Step>,
    config: LsmConfig,
    reopened: TreeView,
)
    requires
        is_history(start, steps, config),
        mirrors(disk, start),
        kept(start),
        sound(start),
        fits_upto(config.options(), weight(start) + all_charged(steps)),
    ensures
        opened(perform_all(disk, all_asked(steps))) is Ok,
        is_opened(perform_all(disk, all_asked(steps)), reopened) ==> {
            let closed = tree_at(start, steps, steps.len() as int);
            &&& reopened.memtable == closed.memtable
            &&& reopened.log == closed.log
            &&& all_runs(reopened.levels) == all_runs(closed.levels)
            &&& tree_items(reopened) == tree_items(closed)
            &&& forall|from: Seq<u8>| #[trigger]
                tree_items_from(reopened, from) == tree_items_from(closed, from)
            &&& forall|key: Seq<u8>| #[trigger]
                answer(reopened, key) == answer_after(start, steps, key)
            &&& reopened.next_sequence == closed.next_sequence
            &&& forall|i: int|
                0 <= i < all_runs(reopened.levels).len() ==> (#[trigger] all_runs(
                    reopened.levels,
                )[i]).sequence < reopened.next_sequence
        },
{
    let closed = tree_at(start, steps, steps.len() as int);
    let left = perform_all(disk, all_asked(steps));
    law_accepted_writes_survive(disk, start, steps, config);
    law_the_last_write_is_read(start, steps, config);
    law_recovery_answers_alike(left, closed);
    if is_opened(left, reopened) {
        law_recovery_restores_the_tree(left, closed, reopened);
        assert(tree_sources(reopened) =~= tree_sources(closed));
        assert forall|from: Seq<u8>| #[trigger]
            tree_items_from(reopened, from) == tree_items_from(closed, from) by {
            assert(tree_sources_from(reopened, from) =~= tree_sources_from(closed, from));
        }
        assert forall|key: Seq<u8>| #[trigger]
            answer(reopened, key) == answer_after(start, steps, key) by {
            assert(answer(closed, key) == answer(reopened, key));
        }
        assert forall|i: int| 0 <= i < all_runs(reopened.levels).len() implies (
        #[trigger] all_runs(reopened.levels)[i]).sequence < reopened.next_sequence by {
            let (l, r) = super::levels::place(closed.levels, i);
            super::levels::lemma_place(closed.levels, i);
            assert(super::durability::level_kept(closed.levels[l], closed.next_sequence));
            assert(super::durability::run_kept(closed.levels[l][r], closed.next_sequence));
        }
    }
}

/// Under leveling, a tree that holds one run at most in every level below level 0
/// does so after any calls.
pub proof fn law_leveled_trees_stay_leveled(start: TreeView, steps: Seq<Step>, config: LsmConfig)
    requires
        is_history(start, steps, config),
        config.merge == MergeKind::Leveling,
        sound(start),
        fits_upto(config.options(), weight(start) + all_charged(steps)),
        one_run_each(start.levels),
    ensures
        one_run_each(tree_at(start, steps, steps.len() as int).levels),
    decreases steps.len(),
{
    if steps.len() > 0 {
        let head = steps.drop_last();
        let last = steps.last();
        lemma_history_head(start, steps, config);
        law_leveled_trees_stay_leveled(start, head, config);
        law_the_last_write_is_read(start, head, config);
        assert(tree_at(start, head, head.len() as int) == last.before.tree);
        match last.call {
            Call::Write { entry } => lemma_write_keeps_one_run(
                last.before,
                last.after,
                entry,
                config,
            ),
            Call::Flush { written } => lemma_flush_keeps_one_run(
                last.before,
                last.after,
                written,
                config,
            ),
            Call::Compact => law_compacting_keeps_one_run(last.before, last.after, config),
            Call::Sync => {},
        }
    }
}

proof fn lemma_flush_keeps_one_run(before: Phase, after: Phase, written: bool, config: LsmConfig)
    requires
        flush_outcome(before, after, Ok::<bool, StorageError>(written), config),
        config.merge == MergeKind::Leveling,
        sound(before.tree),
        fits_upto(config.options(), weight(before.tree)),
        one_run_each(before.tree.levels),
    ensures
        one_run_each(after.tree.levels),
{
    if before.tree.memtable.len() > 0 {
        let middle = choose|middle: Phase| #[trigger]
            is_noted(before, middle, config) && is_compacted(middle, after, config);
        let actions = choose|actions: Seq<ActionView>| #[trigger]
            is_flushed(before.tree, middle.tree, actions, config.options()) && middle.actions
                == before.actions + actions;
        law_flushing_is_invisible(before.tree, middle.tree, actions, config.options());
        law_flushing_keeps_one_run(before.tree, middle.tree, actions, config.options());
        law_compacting_keeps_one_run(middle, after, config);
    }
}

proof fn lemma_write_keeps_one_run(
    before: Phase,
    after: Phase,
    entry: EntryView,
    config: LsmConfig,
)
    requires
        write_outcome(before, after, entry, Ok::<(), StorageError>(()), config),
        config.merge == MergeKind::Leveling,
        sound(before.tree),
        fits_upto(config.options(), weight(before.tree) + charge(entry)),
        one_run_each(before.tree.levels),
    ensures
        one_run_each(after.tree.levels),
{
    let middle = choose|middle: Phase| #[trigger]
        is_logged(before, middle, entry, config) && if total_charge(middle.tree.memtable)
            < config.memtable_threshold_bytes {
            after == middle
        } else {
            exists|written: bool| #[trigger]
                flush_outcome(middle, after, Ok::<bool, StorageError>(written), config)
        };
    lemma_written(before.tree, middle.tree, entry);
    if total_charge(middle.tree.memtable) >= config.memtable_threshold_bytes {
        let written = choose|written: bool| #[trigger]
            flush_outcome(middle, after, Ok::<bool, StorageError>(written), config);
        lemma_flush_keeps_one_run(middle, after, written, config);
    }
}

} // verus!
