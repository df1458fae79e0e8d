//! What becomes of deleted keys.
//!
//! A delete is written as a tombstone, which hides older values until a merge at the
//! bottom of the tree leaves nothing for it to hide. That merge writes neither the
//! tombstone nor anything older, so that deleting data frees its space.

use vstd::prelude::*;

use super::compaction::laws::{
    consumes_target, law_leveling_reclaims_deletes,
    law_merges_that_leave_nothing_older_reclaim_deletes, nothing_below,
};
use super::compaction::{safe, CompactionJob};
use super::config::{LsmConfig, MergeKind};
use super::disk::ActionView;
use super::entries::{find, lemma_find_at, EntryView};
use super::growth::{orderly, CompactionRequest};
use super::merge::{first_found, without_tombstone};
use super::levels::lists_taken;
use super::run::{law_written_run_is_intact, parts_storable, run_entries, RunView};
use super::shape::TreeShape;
use super::soundness::{fits_upto, lemma_merge_is_fine, lemma_merge_weight, sound};
use super::steps::{
    is_performed_as, is_run_of, is_shape_of, lemma_shape_is_indexed,
};
use super::tree::TreeView;
use super::weight::weight;

verus! {

/// No level below `target` holds a table.
pub open spec fn no_tables_below(levels: Seq<Seq<RunView>>, target: int) -> bool {
    forall|l: int, r: int|
        target < l < levels.len() && 0 <= r < levels[l].len() ==> (
        #[trigger] levels[l][r]).tables.len() == 0
}

/// A job that drops tombstones writes none.
pub proof fn law_a_dropping_merge_writes_no_tombstone(
    before: TreeView,
    after: TreeView,
    actions: Seq<ActionView>,
    shape: TreeShape,
    job: CompactionJob,
    config: LsmConfig,
    merged: Seq<EntryView>,
    run: RunView,
)
    requires
        is_performed_as(before, after, actions, job, config, merged, Some(run)),
        is_shape_of(shape, before.levels),
        safe(shape, job),
        sound(before),
        fits_upto(config.options(), weight(before)),
        job.drop_tombstones,
    ensures
        forall|i: int|
            0 <= i < run_entries(run.tables).len() ==> (#[trigger] run_entries(run.tables)[i]).1
                is Some,
{
    reveal(is_performed_as);
    reveal(is_run_of);
    let out = lemma_merge_is_fine(before.levels, job);
    assert(out == merged);
    lemma_merge_weight(before.levels, job, merged);
    assert(parts_storable(merged, config.options()));
    law_written_run_is_intact(
        run.tables,
        merged,
        job.target_level as nat,
        before.next_sequence,
        config.options(),
    );
    assert forall|i: int| 0 <= i < merged.len() implies (#[trigger] merged[i]).1 is Some by {
        lemma_find_at(merged, i);
        assert(find(merged, merged[i].0) == without_tombstone(
            first_found(lists_taken(before.levels, job), merged[i].0),
            job.drop_tombstones,
        ));
    }
}

/// Deletes are reclaimed at the bottom of the tree: a merge into a level below which no
/// table lies writes no tombstone, if the policy is leveling and the target is the next
/// level, or if every table of the target is merged along.
pub proof fn law_merges_into_the_bottom_reclaim_deletes(
    before: TreeView,
    after: TreeView,
    actions: Seq<ActionView>,
    shape: TreeShape,
    request: CompactionRequest,
    job: CompactionJob,
    config: LsmConfig,
    merged: Seq<EntryView>,
    run: RunView,
)
    requires
        is_performed_as(before, after, actions, job, config, merged, Some(run)),
        is_shape_of(shape, before.levels),
        config.merge.plans(shape, request, Some(job)),
        orderly(request),
        sound(before),
        fits_upto(config.options(), weight(before)),
        no_tables_below(before.levels, request.target_level as int),
        config.merge == MergeKind::Leveling && request.target_level > request.last_level
            || consumes_target(shape, job),
    ensures
        job.drop_tombstones,
        forall|i: int|
            0 <= i < run_entries(run.tables).len() ==> (#[trigger] run_entries(run.tables)[i]).1
                is Some,
{
    lemma_shape_is_indexed(shape, before.levels);
    assert(nothing_below(shape, request.target_level as int)) by {
        super::soundness::lemma_shape_shows(shape, before.levels);
        assert forall|l: int, r: int|
            request.target_level < l < shape.levels@.len() && 0 <= r
                < shape.levels@[l].runs@.len() implies (
        #[trigger] shape.levels@[l].runs@[r]).files@.len() == 0 by {
            assert(shape.levels@[l].runs@.len() == before.levels[l].len());
            assert(before.levels[l][r].tables.len() == 0);
        }
    }
    reveal(MergeKind::plans);
    match config.merge {
        MergeKind::Leveling => {
            super::compaction::leveling::lemma_leveling_is_safe(shape, request, job);
            if request.target_level > request.last_level {
                law_leveling_reclaims_deletes(shape, request, job);
            } else {
                law_merges_that_leave_nothing_older_reclaim_deletes(shape, request, job);
            }
        },
        MergeKind::Tiering { .. } => {
            super::compaction::lemma_whole_levels_are_safe(shape, request, job);
            law_merges_that_leave_nothing_older_reclaim_deletes(shape, request, job);
        },
    }
    law_a_dropping_merge_writes_no_tombstone(
        before,
        after,
        actions,
        shape,
        job,
        config,
        merged,
        run,
    );
}

} // verus!
