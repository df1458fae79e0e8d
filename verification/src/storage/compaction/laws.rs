//! What a planned merge takes, what it leaves, and when it reclaims deletes.
//!
//! Stated of files and key ranges: which files a job consumes, and that a job that
//! leaves nothing older behind drops the tombstones that it meets.

use vstd::arithmetic::power::pow;
use vstd::prelude::*;

use super::leveling::{
    first_keys_of_runs, greatest_key, is_largest, is_largest_run, is_leveling_job,
    last_keys_of_runs, least_key, over_budget, run_indices, runs_met, sliced, Leveling, RunJob,
};
use super::tiering::{is_tiering_job, nothing_to_move};
use super::{
    has_file, is_whole, lemma_occupied_contains, lemma_requested_prefix, lemma_sources_pick,
    occupied_runs, orderly, picks, requested_levels, requested_runs, run_indexed, sources_pick,
    taken, takes_request, well_indexed, within_units, CompactionJob, LevelFiles, RunFiles,
};
use crate::storage::growth::laws::{at_most_u64, law_vertical_capacities_are_powers};
use crate::storage::growth::{CompactionRequest, Vertical};
use crate::storage::order::{lemma_lex_mixed, lex_le};
use crate::storage::shape::{deepest, files_bytes, saturated, RunShape, TreeShape};

verus! {

/// No level below `target` holds a file.
pub open spec fn nothing_below(tree: TreeShape, target: int) -> bool {
    forall|l: int, r: int|
        target < l < tree.levels@.len() && 0 <= r < tree.levels@[l].runs@.len() ==> (
        #[trigger] tree.levels@[l].runs@[r]).files@.len() == 0
}

/// A job consumes every file of its target level.
pub open spec fn consumes_target(tree: TreeShape, job: CompactionJob) -> bool {
    forall|r: int, f: int|
        #![trigger tree.levels@[job.target_level as int].runs@[r].files@[f]]
        job.target_level < tree.levels@.len() && 0 <= r
            < tree.levels@[job.target_level as int].runs@.len() && 0 <= f
            < tree.levels@[job.target_level as int].runs@[r].files@.len() ==> taken(
            job,
            job.target_level as int,
            r,
            f,
        )
}

/// A level is the deepest exactly if no level below it holds a file.
pub proof fn law_the_deepest_level_has_nothing_below(tree: TreeShape, target: int)
    requires
        target >= 0,
    ensures
        deepest(tree, target) <==> nothing_below(tree, target),
{
    if deepest(tree, target) {
        assert forall|l: int, r: int|
            target < l < tree.levels@.len() && 0 <= r < tree.levels@[l].runs@.len() implies (
        #[trigger] tree.levels@[l].runs@[r]).files@.len() == 0 by {
            assert(!tree.occupied(l));
        }
    }
    if nothing_below(tree, target) {
        assert forall|l: int| target < l implies !#[trigger] tree.occupied(l) by {
            if 0 <= l < tree.levels@.len() {
                assert(tree.levels@[l].holds_nothing());
            }
        }
    }
}

// ---------------------------------------------------------------------------
// Reclaiming deletes
// ---------------------------------------------------------------------------

/// Leveling reclaims deletes: a merge of levels into the next one drops tombstones
/// whenever nothing lies below the target, since it consumes every file there that its
/// keys could be in. That makes it required and not only allowed.
pub proof fn law_leveling_reclaims_deletes(
    tree: TreeShape,
    request: CompactionRequest,
    job: CompactionJob,
)
    requires
        is_leveling_job(tree, request, job),
        request.target_level > request.last_level,
        nothing_below(tree, request.target_level as int),
    ensures
        job.drop_tombstones,
{
    law_the_deepest_level_has_nothing_below(tree, request.target_level as int);
}

/// Whatever the policy, a merge that consumes every file of its target level, with
/// nothing below it, drops tombstones.
pub proof fn law_merges_that_leave_nothing_older_reclaim_deletes(
    tree: TreeShape,
    request: CompactionRequest,
    job: CompactionJob,
)
    requires
        is_leveling_job(tree, request, job) || is_tiering_job(tree, request, job),
        orderly(request),
        well_indexed(tree),
        nothing_below(tree, request.target_level as int),
        consumes_target(tree, job),
    ensures
        job.drop_tombstones,
{
    let target = request.target_level as int;
    law_the_deepest_level_has_nothing_below(tree, target);
    if request.target_level == request.last_level {
        lemma_consumed_is_requested(tree, request, job);
    } else if is_tiering_job(tree, request, job) {
        lemma_sources_pick(tree, request, job.sources@);
        if tree.occupied(target) {
            let r = choose|r: int|
                0 <= r < tree.levels@[target].runs@.len() && (
                #[trigger] tree.levels@[target].runs@[r]).files@.len() != 0;
            let file = tree.levels@[target].runs@[r].files@[0];
            assert(taken(job, target, r, 0));
            assert(sources_pick(job.sources@, target, r, 0));
        }
    }
}

/// A job whose target is the last of its sources takes of it what was requested; if that
/// is all of it, everything was requested.
proof fn lemma_consumed_is_requested(
    tree: TreeShape,
    request: CompactionRequest,
    job: CompactionJob,
)
    requires
        is_leveling_job(tree, request, job) || is_tiering_job(tree, request, job),
        orderly(request),
        request.target_level == request.last_level,
        well_indexed(tree),
        consumes_target(tree, job),
    ensures
        requested_runs(tree, request.target_level as int, request.merge_units).len()
            == occupied_runs(tree.runs_at(request.target_level as int)).len(),
{
    let target = request.target_level as int;
    let asked = requested_runs(tree, target, request.merge_units);
    let held = occupied_runs(tree.runs_at(target));
    lemma_requested_prefix(tree, target, request.merge_units);
    assert(takes_request(job.sources@, tree, request));
    if asked.len() < held.len() {
        let k = asked.len() as int;
        let run = held[k];
        super::lemma_runs_indexed(tree, target);
        super::lemma_occupied(tree.runs_at(target));
        let r = run.index as int;
        assert(tree.levels@[target].runs@[r] == run);
        let file = tree.levels@[target].runs@[r].files@[0];
        assert(taken(job, target, r, 0));
        assert(sources_pick(job.sources@, target, r, 0));
        let sources = job.sources@;
        let levels = requested_levels(
            tree,
            request.first_level as int,
            request.last_level + 1,
            request.merge_units,
        );
        let s = choose|s: int|
            0 <= s < sources.len() && (#[trigger] sources[s]).level == target && picks(
                sources[s].runs@,
                r,
                0,
            );
        assert(levels[s] == target);
        let runs = sources[s].runs@;
        let i = choose|i: int|
            0 <= i < runs.len() && (#[trigger] runs[i]).run == r && runs[i].files@.contains(0usize);
        assert(is_whole(runs[i], asked[i]));
        assert(asked[i] == held[i]);
        assert(held[i].index < held[k].index);
    }
}

/// A job that drops tombstones leaves nothing below its target that holds a file.
pub proof fn law_deletes_are_reclaimed_at_the_bottom_only(
    tree: TreeShape,
    request: CompactionRequest,
    job: CompactionJob,
)
    requires
        is_leveling_job(tree, request, job) || is_tiering_job(tree, request, job),
        job.drop_tombstones,
    ensures
        nothing_below(tree, job.target_level as int),
{
    law_the_deepest_level_has_nothing_below(tree, request.target_level as int);
}

// ---------------------------------------------------------------------------
// What is taken
// ---------------------------------------------------------------------------

/// A merge of whole levels consumes every file of every level from the first to the last
/// that were asked for; and consumes nothing outside them but at its target, where
/// tiering touches nothing at all.
pub proof fn law_whole_levels_are_consumed(
    tree: TreeShape,
    request: CompactionRequest,
    job: CompactionJob,
)
    requires
        is_leveling_job(tree, request, job) && request.granularity is Full || is_tiering_job(
            tree,
            request,
            job,
        ),
        orderly(request),
        well_indexed(tree),
    ensures
        job.target_level == request.target_level,
        request.merge_units is None ==> forall|l: int, r: int, f: int|
            request.first_level <= l <= request.last_level && l < tree.levels@.len() && 0 <= r
                < tree.levels@[l].runs@.len() && 0 <= f < tree.levels@[l].runs@[r].files@.len()
                ==> #[trigger] taken(job, l, r, f),
        forall|l: int, r: int, f: int| #[trigger]
            taken(job, l, r, f) ==> request.first_level <= l <= request.last_level || l
                == request.target_level,
        is_tiering_job(tree, request, job) ==> forall|l: int, r: int, f: int| #[trigger]
            taken(job, l, r, f) ==> request.first_level <= l <= request.last_level,
{
    lemma_sources_pick(tree, request, job.sources@);
    if request.merge_units is None {
        assert forall|l: int, r: int, f: int|
            request.first_level <= l <= request.last_level && l < tree.levels@.len() && 0 <= r
                < tree.levels@[l].runs@.len() && 0 <= f
                < tree.levels@[l].runs@[r].files@.len() implies #[trigger] taken(job, l, r, f) by {
            assert(has_file(tree, l, r, f));
            assert(requested_runs(tree, l, request.merge_units) == occupied_runs(tree.runs_at(l)));
        }
    }
}

/// Where nothing is planned for whole levels, there is no file in any of them.
pub proof fn law_nothing_planned_means_nothing_there(tree: TreeShape, request: CompactionRequest)
    requires
        nothing_to_move(tree, request),
        request.merge_units is None,
        well_indexed(tree),
    ensures
        forall|l: int, r: int|
            request.first_level <= l <= request.last_level && l < tree.levels@.len() && 0 <= r
                < tree.levels@[l].runs@.len() ==> (#[trigger] tree.levels@[l].runs@[r]).files@.len()
                == 0,
{
    let levels = requested_levels(
        tree,
        request.first_level as int,
        request.last_level + 1,
        request.merge_units,
    );
    super::lemma_requested_levels(
        tree,
        request.first_level as int,
        request.last_level + 1,
        request.merge_units,
    );
    assert forall|l: int, r: int|
        request.first_level <= l <= request.last_level && l < tree.levels@.len() && 0 <= r
            < tree.levels@[l].runs@.len() implies (#[trigger] tree.levels@[l].runs@[r]).files@.len()
        == 0 by {
        if tree.levels@[l].runs@[r].files@.len() > 0 {
            lemma_occupied_contains(tree, l, r);
            assert(requested_runs(tree, l, request.merge_units).len() > 0);
            assert(levels.contains(l));
        }
    }
}

/// The units of runs, added one by one.
pub open spec fn units_of(runs: Seq<RunShape>) -> int {
    runs.fold_left(0int, |sum: int, run: RunShape| sum + run.units)
}

proof fn lemma_units_first(runs: Seq<RunShape>)
    requires
        runs.len() > 0,
    ensures
        units_of(runs) == runs[0].units + units_of(runs.drop_first()),
    decreases runs.len(),
{
    reveal_with_fuel(Seq::fold_left, 2);
    if runs.len() == 1 {
        assert(runs.drop_last() =~= Seq::<RunShape>::empty());
        assert(runs.drop_first() =~= Seq::<RunShape>::empty());
    } else {
        lemma_units_first(runs.drop_last());
        assert(runs.drop_last().drop_first() =~= runs.drop_first().drop_last());
    }
}

/// A merge by units takes the newest runs that hold files, in order and as many as fit:
/// their units come to no more than was asked for, and if they come to less, no run is
/// left or the next one does not fit any more.
pub proof fn law_units_bound_a_merge(runs: Seq<RunShape>, units: nat)
    ensures
        ({
            let chosen = within_units(runs, units);
            let held = runs.filter(|run: RunShape| run.files@.len() > 0);
            &&& chosen.len() <= held.len()
            &&& chosen == held.take(chosen.len() as int)
            &&& units_of(chosen) <= units
            &&& units_of(chosen) < units && chosen.len() < held.len() ==> units_of(chosen)
                + held[chosen.len() as int].units > units
        }),
    decreases runs.len(),
{
    let chosen = within_units(runs, units);
    let keep = |run: RunShape| run.files@.len() > 0;
    let held = runs.filter(keep);
    super::lemma_within_units_prefix(runs, units);
    reveal_with_fuel(Seq::fold_left, 2);
    if runs.len() == 0 {
        reveal(Seq::filter);
    } else {
        super::lemma_filter_first(runs, keep);
        let rest = runs.drop_first();
        if runs[0].files@.len() == 0 {
            law_units_bound_a_merge(rest, units);
        } else if runs[0].units > units {
        } else if runs[0].units == units {
            assert(chosen.drop_last() =~= Seq::<RunShape>::empty());
            assert(units_of(chosen) == units);
        } else {
            let left = (units - runs[0].units) as nat;
            law_units_bound_a_merge(rest, left);
            let more = within_units(rest, left);
            assert(chosen.drop_first() =~= more);
            lemma_units_first(chosen);
            if chosen.len() < held.len() {
                assert(held[chosen.len() as int] == rest.filter(keep)[more.len() as int]);
            }
        }
    }
}

/// What a request takes of a level: all runs that hold files unless it goes by units,
/// and then the newest that fit, if they are two or more.
pub proof fn law_requested_runs_are_the_newest(tree: TreeShape, level: int, units: usize)
    requires
        0 <= level < tree.levels@.len(),
    ensures
        ({
            let held = tree.levels@[level].runs@.filter(|run: RunShape| run.files@.len() > 0);
            let chosen = requested_runs(tree, level, Some(units));
            &&& requested_runs(tree, level, None) == held
            &&& chosen.len() != 1
            &&& chosen.len() <= held.len()
            &&& chosen == held.take(chosen.len() as int)
            &&& units_of(chosen) <= units
            // Two runs that fit are enough for a merge.
            &&& held.len() >= 2 && held[0].units + held[1].units <= units && held[0].units < units
                ==> chosen.len() >= 2
            &&& chosen.len() >= 2 && units_of(chosen) < units && chosen.len() < held.len()
                ==> units_of(chosen) + held[chosen.len() as int].units > units
        }),
{
    let runs = tree.levels@[level].runs@;
    let held = runs.filter(|run: RunShape| run.files@.len() > 0);
    let fit = within_units(runs, units as nat);
    law_units_bound_a_merge(runs, units as nat);
    assert(held.take(0) =~= Seq::<RunShape>::empty());
    reveal_with_fuel(Seq::fold_left, 2);
    if held.len() >= 2 && held[0].units + held[1].units <= units && held[0].units < units {
        if fit.len() == 1 {
            lemma_units_first(fit);
            assert(fit.drop_first() =~= Seq::<RunShape>::empty());
            assert(fit[0] == held[0]);
        }
        if fit.len() == 0 {
            assert(units_of(fit) == 0);
        }
    }
}

/// A slice of a level that holds one run is one file of it, and none is larger.
pub proof fn law_a_slice_is_the_largest_file(
    tree: TreeShape,
    request: CompactionRequest,
    job: CompactionJob,
    r: int,
)
    requires
        is_leveling_job(tree, request, job),
        request.granularity is Partial,
        request.first_level == request.last_level,
        request.target_level > request.last_level,
        request.merge_units is None,
        well_indexed(tree),
        request.first_level < tree.levels@.len(),
        0 <= r < tree.levels@[request.first_level as int].runs@.len(),
        tree.levels@[request.first_level as int].runs@[r].files@.len() > 0,
        forall|o: int|
            0 <= o < tree.levels@[request.first_level as int].runs@.len() && o != r ==> (
            #[trigger] tree.levels@[request.first_level as int].runs@[o]).files@.len() == 0,
    ensures
        ({
            let level = request.first_level as int;
            let files = tree.levels@[level].runs@[r].files@;
            exists|f: int|
                0 <= f < files.len() && #[trigger] taken(job, level, r, f) && (forall|o: int|
                    0 <= o < files.len() ==> (#[trigger] files[o]).bytes <= files[f].bytes) && (
                forall|o: int|
                    0 <= o < files.len() && o != f ==> !#[trigger] taken(job, level, r, o))
        }),
{
    let level = request.first_level as int;
    let runs = tree.runs_at(level);
    let run = runs[r];
    let held = occupied_runs(runs);
    super::lemma_runs_indexed(tree, level);
    super::lemma_occupied(runs);
    assert(held.contains(run));
    assert(held.len() == 1) by {
        if held.len() > 1 {
            assert(held[0].index < held[1].index);
            assert(runs[held[0].index as int].files@.len() > 0);
            assert(runs[held[1].index as int].files@.len() > 0);
            let a = held[0].index as int;
            let b = held[1].index as int;
            assert(tree.levels@[level].runs@[a].files@.len() > 0);
            assert(tree.levels@[level].runs@[b].files@.len() > 0);
        }
    }
    assert(held[0] == run);
    assert(sliced(tree, request));
    let sources = job.sources@;
    let f = choose|i: int| #[trigger]
        is_largest(run.files@, i) && sources[0].runs@[0].files@[0] == run.files@[i].index;
    assert(run_indexed(run, r));
    assert(run.files@[f].index == f);
    assert(sources[0].runs@[0].files@.contains(f as usize));
    assert(picks(sources[0].runs@, r, f));
    assert(sources_pick(sources, level, r, f));
    assert(taken(job, level, r, f));
    assert forall|o: int| 0 <= o < run.files@.len() && o != f implies !#[trigger] taken(
        job,
        level,
        r,
        o,
    ) by {
        if sources_pick(sources, level, r, o) {
            let s = choose|s: int|
                0 <= s < sources.len() && (#[trigger] sources[s]).level == level && picks(
                    sources[s].runs@,
                    r,
                    o,
                );
            let i = choose|i: int|
                0 <= i < sources[s].runs@.len() && (#[trigger] sources[s].runs@[i]).run == r
                    && sources[s].runs@[i].files@.contains(o as usize);
            assert(s == 0 && i == 0);
            assert(run.files@[o].index == o);
        }
    }
}

/// The least of keys is one of them, and none is below it.
pub proof fn law_the_least_key_is_the_least(keys: Seq<Option<Seq<u8>>>)
    ensures
        least_key(keys) is None <==> forall|i: int| 0 <= i < keys.len() ==> #[trigger] keys[i] is None,
        least_key(keys) is Some ==> keys.contains(least_key(keys)) && forall|i: int|
            0 <= i < keys.len() && (#[trigger] keys[i]) is Some ==> lex_le(
                least_key(keys)->0,
                keys[i]->0,
            ),
    decreases keys.len(),
{
    if keys.len() > 0 {
        let head = keys.drop_last();
        law_the_least_key_is_the_least(head);
        if least_key(keys) is Some {
            if least_key(head) is Some && least_key(keys) == least_key(head) {
                let k = choose|k: int| 0 <= k < head.len() && head[k] == least_key(head);
                assert(keys[k] == least_key(keys));
            } else {
                assert(keys[keys.len() - 1] == least_key(keys));
            }
        }
        assert forall|i: int| 0 <= i < keys.len() && (#[trigger] keys[i]) is Some implies least_key(
            keys,
        ) is Some && lex_le(least_key(keys)->0, keys[i]->0) by {
            super::leveling::lemma_least_key(keys, i);
        }
        if forall|i: int| 0 <= i < keys.len() ==> #[trigger] keys[i] is None {
            assert forall|i: int| 0 <= i < head.len() implies #[trigger] head[i] is None by {
                assert(keys[i] is None);
            }
            assert(keys[keys.len() - 1] is None);
        }
    }
}

/// The greatest of keys is one of them, and none is above it.
pub proof fn law_the_greatest_key_is_the_greatest(keys: Seq<Option<Seq<u8>>>)
    ensures
        greatest_key(keys) is None <==> forall|i: int|
            0 <= i < keys.len() ==> #[trigger] keys[i] is None,
        greatest_key(keys) is Some ==> keys.contains(greatest_key(keys)) && forall|i: int|
            0 <= i < keys.len() && (#[trigger] keys[i]) is Some ==> lex_le(
                keys[i]->0,
                greatest_key(keys)->0,
            ),
    decreases keys.len(),
{
    if keys.len() > 0 {
        let head = keys.drop_last();
        law_the_greatest_key_is_the_greatest(head);
        if greatest_key(keys) is Some {
            if greatest_key(head) is Some && greatest_key(keys) == greatest_key(head) {
                let k = choose|k: int| 0 <= k < head.len() && head[k] == greatest_key(head);
                assert(keys[k] == greatest_key(keys));
            } else {
                assert(keys[keys.len() - 1] == greatest_key(keys));
            }
        }
        assert forall|i: int| 0 <= i < keys.len() && (#[trigger] keys[i]) is Some implies greatest_key(
            keys,
        ) is Some && lex_le(keys[i]->0, greatest_key(keys)->0) by {
            super::leveling::lemma_greatest_key(keys, i);
        }
        if forall|i: int| 0 <= i < keys.len() ==> #[trigger] keys[i] is None {
            assert forall|i: int| 0 <= i < head.len() implies #[trigger] head[i] is None by {
                assert(keys[i] is None);
            }
            assert(keys[keys.len() - 1] is None);
        }
    }
}

/// Leveling rewrites every file at the target that shares a key range with a file that it
/// takes from above.
pub proof fn law_leveling_rewrites_what_it_meets(
    tree: TreeShape,
    request: CompactionRequest,
    job: CompactionJob,
    l: int,
    r: int,
    f: int,
    r2: int,
    f2: int,
)
    requires
        is_leveling_job(tree, request, job),
        well_indexed(tree),
        orderly(request),
        request.target_level > request.last_level,
        l <= request.last_level,
        has_file(tree, l, r, f),
        has_file(tree, request.target_level as int, r2, f2),
        taken(job, l, r, f),
        ({
            let a = tree.levels@[l].runs@[r].files@[f];
            let b = tree.levels@[request.target_level as int].runs@[r2].files@[f2];
            &&& a.min_key is Some && a.max_key is Some && b.min_key is Some && b.max_key is Some
            &&& lex_le(a.min_key->0@, b.max_key->0@) && lex_le(b.min_key->0@, a.max_key->0@)
        }),
    ensures
        taken(job, request.target_level as int, r2, f2),
{
    assert(sources_pick(job.sources@, l, r, f));
    super::leveling::lemma_met_targets_are_taken(tree, request, job, l, r, f, r2, f2);
}

// ---------------------------------------------------------------------------
// Picking by runs
// ---------------------------------------------------------------------------

/// Once nothing is picked, level 0 holds fewer runs than its trigger and every level
/// below it no more than its budget, `B * T^i`. What is picked before that is level 0,
/// whole, as soon as it has gathered its runs; and else the largest run of the shallowest
/// level that is over its budget. Tombstones are dropped exactly if nothing lies below.
pub proof fn law_picks_keep_levels_within_budget(
    policy: Leveling,
    tree: TreeShape,
    growth: Vertical,
    job: Option<RunJob>,
)
    requires
        policy.is_pick(tree, growth, job),
        growth.valid(),
    ensures
        job is None ==> {
            &&& tree.levels@.len() > 0 ==> tree.levels@[0].runs@.len() < policy.trigger()
            &&& forall|i: int|
                1 <= i < tree.levels@.len() ==> #[trigger] tree.bytes_at(i) <= at_most_u64(
                    growth.buffer() * pow(growth.ratio() as int, i as nat),
                )
        },
        job matches Some(job) ==> {
            let level = job.source_level as int;
            &&& level < tree.levels@.len()
            &&& job.target_level == level + 1
            &&& job.drop_tombstones <==> nothing_below(tree, level + 1)
            &&& level == 0 <==> tree.levels@[0].runs@.len() >= policy.trigger()
            &&& level == 0 ==> {
                &&& job.source_runs@.len() == tree.levels@[0].runs@.len()
                &&& forall|r: int|
                    0 <= r < tree.levels@[0].runs@.len() ==> #[trigger] job.source_runs@[r]
                        == tree.levels@[0].runs@[r].index
            }
            &&& level > 0 ==> {
                &&& tree.bytes_at(level) > at_most_u64(
                    growth.buffer() * pow(growth.ratio() as int, level as nat),
                )
                &&& forall|i: int|
                    1 <= i < level ==> #[trigger] tree.bytes_at(i) <= at_most_u64(
                        growth.buffer() * pow(growth.ratio() as int, i as nat),
                    )
                &&& job.source_runs@.len() == 1
                &&& exists|r: int|
                    #![trigger tree.levels@[level].runs@[r]]
                    0 <= r < tree.levels@[level].runs@.len() && job.source_runs@[0]
                        == tree.levels@[level].runs@[r].index && forall|o: int|
                        0 <= o < tree.levels@[level].runs@.len() ==> saturated(
                            files_bytes((#[trigger] tree.levels@[level].runs@[o]).files@),
                        ) <= saturated(files_bytes(tree.levels@[level].runs@[r].files@))
            }
        },
{
    assert forall|i: int| 1 <= i < tree.levels@.len() implies (over_budget(tree, growth, i)
        <==> #[trigger] tree.bytes_at(i) > at_most_u64(
        growth.buffer() * pow(growth.ratio() as int, i as nat),
    )) by {
        law_vertical_capacities_are_powers(growth, (i - 1) as nat);
        crate::storage::growth::vertical::lemma_capacity_is_positive(growth, (i - 1) as nat);
    }
    match job {
        Some(job) => {
            let level = job.source_level as int;
            law_the_deepest_level_has_nothing_below(tree, level + 1);
            if policy.triggered(tree) {
                assert(run_indices(tree.runs_at(0)).len() == tree.levels@[0].runs@.len());
            } else {
                assert(over_budget(tree, growth, level));
                let r = choose|r: int| #[trigger]
                    is_largest_run(tree.runs_at(level), r) && job.source_runs@ == seq![
                        tree.runs_at(level)[r].index,
                    ];
                let run = tree.levels@[level].runs@[r];
                assert forall|i: int| 1 <= i < level implies #[trigger] tree.bytes_at(i)
                    <= at_most_u64(growth.buffer() * pow(growth.ratio() as int, i as nat)) by {
                    assert(!over_budget(tree, growth, i));
                }
            }
        },
        None => {
            assert forall|i: int| 1 <= i < tree.levels@.len() implies #[trigger] tree.bytes_at(i)
                <= at_most_u64(growth.buffer() * pow(growth.ratio() as int, i as nat)) by {
                assert(!over_budget(tree, growth, i));
            }
        },
    }
}

/// Of the target level every run is merged along whose keys a run that was picked could
/// share.
pub proof fn law_picks_merge_what_they_meet(
    tree: TreeShape,
    sources: Seq<RunShape>,
    target: int,
    s: int,
    r: int,
)
    requires
        0 <= s < sources.len(),
        0 <= target < tree.levels@.len(),
        0 <= r < tree.levels@[target].runs@.len(),
        ({
            let a = sources[s];
            let b = tree.levels@[target].runs@[r];
            &&& a.files@.len() > 0 && b.files@.len() > 0
            &&& a.files@[0].min_key is Some && a.files@.last().max_key is Some
            &&& b.files@[0].min_key is Some && b.files@.last().max_key is Some
            &&& lex_le(a.files@[0].min_key->0@, b.files@.last().max_key->0@)
            &&& lex_le(b.files@[0].min_key->0@, a.files@.last().max_key->0@)
        }),
    ensures
        runs_met(tree, sources, target).contains(tree.levels@[target].runs@[r].index),
{
    let a = sources[s];
    let b = tree.levels@[target].runs@[r];
    super::leveling::lemma_least_key(first_keys_of_runs(sources), s);
    super::leveling::lemma_greatest_key(last_keys_of_runs(sources), s);
    let min = least_key(first_keys_of_runs(sources))->0;
    let max = greatest_key(last_keys_of_runs(sources))->0;
    lemma_lex_mixed(min, a.files@[0].min_key->0@, b.files@.last().max_key->0@);
    lemma_lex_mixed(b.files@[0].min_key->0@, a.files@.last().max_key->0@, max);
    let keep = |run: RunShape| run.meets(min, max);
    let runs = tree.runs_at(target);
    assert(keep(b));
    runs.lemma_filter_contains(keep, r);
    let met = runs.filter(keep);
    let j = choose|j: int| 0 <= j < met.len() && met[j] == b;
    assert(run_indices(met)[j] == b.index);
}

/// What a job reads from is counted one by one: its runs, and its files.
pub proof fn law_inputs_are_counted_one_by_one(levels: Seq<LevelFiles>, runs: Seq<RunFiles>)
    ensures
        super::level_runs(levels) == levels.fold_left(
            0int,
            |sum: int, level: LevelFiles| sum + level.runs@.len(),
        ),
        super::level_files(levels) == levels.fold_left(
            0int,
            |sum: int, level: LevelFiles| sum + super::selected_count(level.runs@),
        ),
        super::selected_count(runs) == runs.fold_left(
            0int,
            |sum: int, selection: RunFiles| sum + selection.files@.len(),
        ),
    decreases levels.len() + runs.len(),
{
    reveal_with_fuel(Seq::fold_left, 2);
    if levels.len() > 0 {
        law_inputs_are_counted_one_by_one(levels.drop_last(), runs);
    } else if runs.len() > 0 {
        law_inputs_are_counted_one_by_one(levels, runs.drop_last());
    }
}

} // verus!
