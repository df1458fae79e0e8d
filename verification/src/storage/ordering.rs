//! Why a job that lists its inputs newest first merges them newest first.

use vstd::prelude::*;

use super::compaction::{
    in_order, lists_in_order, newer, picks, sources_pick, taken, CompactionJob, LevelFiles, RunFiles,
};
use super::entries::{ascending, find, has_key, EntryView};
use super::levels::{
    all_runs, lemma_first_found_is, lemma_lists_by_place, lemma_lists_len, lemma_nothing_found,
    lemma_place, lemma_place_order, lemma_select, levels_intact, lists_taken, place, takes,
};
use super::merge::{as_sources, first_found};
use super::run::{law_run_items, run_entries, run_intact, table_entries, RunView};
use super::sstable::ok_items;
use super::steps::{
    items_taken, named, selected, selections, selections_at, source_selections, SelectionView,
};

verus! {

/// The entries that selections name.
pub open spec fn selected_lists(
    levels: Seq<Seq<RunView>>,
    chosen: Seq<SelectionView>,
) -> Seq<Seq<EntryView>> {
    Seq::new(chosen.len(), |i: int| run_entries(selected(levels, chosen[i])))
}

/// What a job reads of levels that can be read.
pub proof fn lemma_items_taken(levels: Seq<Seq<RunView>>, job: CompactionJob)
    requires
        levels_intact(levels),
    ensures
        items_taken(levels, job) == as_sources(selected_lists(levels, selections(job))),
        forall|i: int|
            0 <= i < selected_lists(levels, selections(job)).len() ==> ascending(
                #[trigger] selected_lists(levels, selections(job))[i],
            ),
{
    let chosen = selections(job);
    let lists = selected_lists(levels, chosen);
    assert forall|i: int| 0 <= i < lists.len() implies ascending(#[trigger] lists[i])
        && items_taken(levels, job)[i] == ok_items(lists[i]) by {
        lemma_selected_intact(levels, chosen[i]);
        law_run_items(selected(levels, chosen[i]));
    }
    assert(items_taken(levels, job) =~= as_sources(lists)) by {
        assert forall|i: int| 0 <= i < lists.len() implies items_taken(levels, job)[i]
            == as_sources(lists)[i] by {
            assert(ascending(lists[i]));
        }
    }
}

/// What a selection names of levels that can be read can be read.
pub proof fn lemma_selected_intact(levels: Seq<Seq<RunView>>, selection: SelectionView)
    requires
        levels_intact(levels),
    ensures
        run_intact(selected(levels, selection)),
{
    let l = selection.level as int;
    let r = selection.run as int;
    if l < levels.len() && r < levels[l].len() {
        assert(run_intact(levels[l][r].tables));
        lemma_select(levels[l][r].tables, named(selection.files));
    } else {
        assert(run_entries(selected(levels, selection)) =~= Seq::<EntryView>::empty());
    }
}

/// A selection that names a file.
pub open spec fn selects(selection: SelectionView, l: int, r: int, f: int) -> bool {
    selection.level == l && selection.run == r && selection.files.contains(f as usize)
}

proof fn lemma_selects_at(level: nat, runs: Seq<RunFiles>, l: int, r: int, f: int)
    ensures
        (exists|p: int|
            0 <= p < selections_at(level, runs).len() && selects(
                #[trigger] selections_at(level, runs)[p],
                l,
                r,
                f,
            )) <==> l == level && picks(runs, r, f),
{
    let chosen = selections_at(level, runs);
    if l == level && picks(runs, r, f) {
        let i = choose|i: int|
            0 <= i < runs.len() && (#[trigger] runs[i]).run == r && runs[i].files@.contains(
                f as usize,
            );
        assert(selects(chosen[i], l, r, f));
    }
    if exists|p: int| 0 <= p < chosen.len() && selects(#[trigger] chosen[p], l, r, f) {
        let p = choose|p: int| 0 <= p < chosen.len() && selects(#[trigger] chosen[p], l, r, f);
        assert(runs[p].run == r);
    }
}

proof fn lemma_source_selects(sources: Seq<LevelFiles>, l: int, r: int, f: int)
    ensures
        (exists|p: int|
            0 <= p < source_selections(sources).len() && selects(
                #[trigger] source_selections(sources)[p],
                l,
                r,
                f,
            )) <==> sources_pick(sources, l, r, f),
    decreases sources.len(),
{
    let chosen = source_selections(sources);
    if sources.len() > 0 {
        let head = sources.drop_last();
        let last = sources.last();
        let before = source_selections(head);
        let added = selections_at(last.level as nat, last.runs@);
        lemma_source_selects(head, l, r, f);
        lemma_selects_at(last.level as nat, last.runs@, l, r, f);
        if sources_pick(sources, l, r, f) {
            let s = choose|s: int|
                0 <= s < sources.len() && (#[trigger] sources[s]).level == l && picks(
                    sources[s].runs@,
                    r,
                    f,
                );
            if s < head.len() {
                assert(head[s] == sources[s]);
                assert(sources_pick(head, l, r, f));
                let p = choose|p: int|
                    0 <= p < before.len() && selects(#[trigger] before[p], l, r, f);
                assert(chosen[p] == before[p]);
            } else {
                let p = choose|p: int|
                    0 <= p < added.len() && selects(#[trigger] added[p], l, r, f);
                assert(chosen[before.len() + p] == added[p]);
            }
        }
        if exists|p: int| 0 <= p < chosen.len() && selects(#[trigger] chosen[p], l, r, f) {
            let p = choose|p: int|
                0 <= p < chosen.len() && selects(#[trigger] chosen[p], l, r, f);
            if p < before.len() {
                assert(selects(before[p], l, r, f));
                let s = choose|s: int|
                    0 <= s < head.len() && (#[trigger] head[s]).level == l && picks(
                        head[s].runs@,
                        r,
                        f,
                    );
                assert(sources[s] == head[s]);
            } else {
                assert(selects(added[p - before.len()], l, r, f));
                assert(sources[sources.len() - 1].level == l);
            }
        }
    }
}

/// A job takes a file exactly if one of its selections names it.
proof fn lemma_selections_take(job: CompactionJob, l: int, r: int, f: int)
    ensures
        (exists|p: int|
            0 <= p < selections(job).len() && selects(#[trigger] selections(job)[p], l, r, f))
            <==> taken(job, l, r, f),
{
    let chosen = selections(job);
    let first = source_selections(job.sources@);
    let second = selections_at(job.target_level as nat, job.targets@);
    lemma_source_selects(job.sources@, l, r, f);
    lemma_selects_at(job.target_level as nat, job.targets@, l, r, f);
    if exists|p: int| 0 <= p < first.len() && selects(#[trigger] first[p], l, r, f) {
        let p = choose|p: int| 0 <= p < first.len() && selects(#[trigger] first[p], l, r, f);
        assert(chosen[p] == first[p]);
    }
    if exists|p: int| 0 <= p < second.len() && selects(#[trigger] second[p], l, r, f) {
        let p = choose|p: int| 0 <= p < second.len() && selects(#[trigger] second[p], l, r, f);
        assert(chosen[first.len() + p] == second[p]);
    }
    if exists|p: int| 0 <= p < chosen.len() && selects(#[trigger] chosen[p], l, r, f) {
        let p = choose|p: int| 0 <= p < chosen.len() && selects(#[trigger] chosen[p], l, r, f);
        if p < first.len() {
            assert(selects(first[p], l, r, f));
        } else {
            assert(selects(second[p - first.len()], l, r, f));
        }
    }
}

/// One selection comes before another in reading order.
spec fn comes_first(a: SelectionView, b: SelectionView) -> bool {
    newer(a.level as int, a.run as int, b.level as int, b.run as int)
}

/// Every selection of sources is of a level that is named, and comes before the
/// next.
proof fn lemma_source_order(sources: Seq<LevelFiles>)
    requires
        forall|i: int, j: int|
            #![trigger sources[i], sources[j]]
            0 <= i < j < sources.len() ==> sources[i].level < sources[j].level,
        forall|i: int| 0 <= i < sources.len() ==> in_order((#[trigger] sources[i]).runs@),
    ensures
        forall|p: int|
            0 <= p < source_selections(sources).len() ==> exists|s: int|
                0 <= s < sources.len() && (#[trigger] sources[s]).level == (
                #[trigger] source_selections(sources)[p]).level,
        forall|p: int, q: int|
            #![trigger source_selections(sources)[p], source_selections(sources)[q]]
            0 <= p < q < source_selections(sources).len() ==> comes_first(
                source_selections(sources)[p],
                source_selections(sources)[q],
            ),
    decreases sources.len(),
{
    if sources.len() > 0 {
        let chosen = source_selections(sources);
        let head = sources.drop_last();
        let n = sources.len() - 1;
        let last = sources[n];
        let before = source_selections(head);
        let added = selections_at(last.level as nat, last.runs@);
        assert forall|i: int| 0 <= i < head.len() implies in_order((#[trigger] head[i]).runs@) by {
            assert(head[i] == sources[i]);
        }
        lemma_source_order(head);
        assert forall|p: int| 0 <= p < chosen.len() implies exists|s: int|
            0 <= s < sources.len() && (#[trigger] sources[s]).level == (
            #[trigger] chosen[p]).level by {
            if p < before.len() {
                assert(chosen[p] == before[p]);
                let s = choose|s: int|
                    0 <= s < head.len() && (#[trigger] head[s]).level == before[p].level;
                assert(sources[s] == head[s]);
            } else {
                assert(chosen[p] == added[p - before.len()]);
                assert(sources[n].level == chosen[p].level);
            }
        }
        assert forall|p: int, q: int|
            #![trigger chosen[p], chosen[q]]
            0 <= p < q < chosen.len() implies comes_first(chosen[p], chosen[q]) by {
            let m = before.len() as int;
            if q < m {
                assert(chosen[p] == before[p] && chosen[q] == before[q]);
            } else if p < m {
                assert(chosen[p] == before[p] && chosen[q] == added[q - m]);
                let s = choose|s: int|
                    0 <= s < head.len() && (#[trigger] head[s]).level == before[p].level;
                assert(head[s] == sources[s]);
                assert(sources[s].level < sources[n].level);
            } else {
                assert(chosen[p] == added[p - m] && chosen[q] == added[q - m]);
                assert(in_order(sources[n].runs@));
                assert(last.runs@[p - m].run < last.runs@[q - m].run);
            }
        }
    }
}

/// A job that lists its inputs newest first selects them in reading order.
proof fn lemma_selections_order(job: CompactionJob, p: int, q: int)
    requires
        lists_in_order(job),
        0 <= p < q < selections(job).len(),
    ensures
        comes_first(selections(job)[p], selections(job)[q]),
{
    let chosen = selections(job);
    let first = source_selections(job.sources@);
    let second = selections_at(job.target_level as nat, job.targets@);
    let m = first.len() as int;
    lemma_source_order(job.sources@);
    if q < m {
        assert(chosen[p] == first[p] && chosen[q] == first[q]);
    } else if p < m {
        assert(chosen[p] == first[p] && chosen[q] == second[q - m]);
        let s = choose|s: int|
            0 <= s < job.sources@.len() && (#[trigger] job.sources@[s]).level == first[p].level;
        assert(job.targets@.len() > 0);
        assert(job.sources@[s].level <= job.target_level);
        assert(job.sources@[s].level != job.target_level);
    } else {
        assert(chosen[p] == second[p - m] && chosen[q] == second[q - m]);
        assert(job.targets@[p - m].run < job.targets@[q - m].run);
    }
}

/// The number of a run in reading order.
proof fn lemma_number_of(levels: Seq<Seq<RunView>>, l: int, r: int) -> (i: int)
    requires
        0 <= l < levels.len(),
        0 <= r < levels[l].len(),
    ensures
        0 <= i < all_runs(levels).len(),
        place(levels, i) == (l, r),
    decreases levels.len(),
{
    let head = levels.drop_last();
    if l < head.len() {
        assert(head[l] == levels[l]);
        lemma_number_of(head, l, r)
    } else {
        all_runs(head).len() + r
    }
}

/// What a selection names of a key is in what the job takes of its run.
proof fn lemma_selected_is_taken(
    levels: Seq<Seq<RunView>>,
    job: CompactionJob,
    p: int,
    key: Seq<u8>,
) -> (i: int)
    requires
        levels_intact(levels),
        0 <= p < selections(job).len(),
        has_key(selected_lists(levels, selections(job))[p], key),
    ensures
        0 <= i < lists_taken(levels, job).len(),
        has_key(lists_taken(levels, job)[i], key),
        place(levels, i) == (
            selections(job)[p].level as int,
            selections(job)[p].run as int,
        ),
        find(lists_taken(levels, job)[i], key) == find(
            selected_lists(levels, selections(job))[p],
            key,
        ),
{
    let selection = selections(job)[p];
    let l = selection.level as int;
    let r = selection.run as int;
    assert(l < levels.len() && r < levels[l].len()) by {
        if !(l < levels.len() && r < levels[l].len()) {
            assert(selected_lists(levels, selections(job))[p].len() == 0);
        }
    }
    let tables = levels[l][r].tables;
    assert(run_intact(levels[l][r].tables));
    lemma_select(tables, named(selection.files));
    lemma_select(tables, takes(job, l, r));
    let f = choose|f: int|
        0 <= f < tables.len() && named(selection.files)(f) && has_key(
            table_entries((#[trigger] tables[f]).table),
            key,
        );
    assert(selects(selections(job)[p], l, r, f));
    lemma_selections_take(job, l, r, f);
    assert(takes(job, l, r)(f));
    let i = lemma_number_of(levels, l, r);
    lemma_lists_len(levels, job);
    lemma_lists_by_place(levels, job, i);
    assert(tables[f] == tables[f]);
    i
}

/// A job that lists its inputs newest first finds of a key what it finds in reading
/// order.
pub proof fn lemma_job_order(levels: Seq<Seq<RunView>>, job: CompactionJob, key: Seq<u8>)
    requires
        levels_intact(levels),
        lists_in_order(job),
    ensures
        first_found(selected_lists(levels, selections(job)), key) == first_found(
            lists_taken(levels, job),
            key,
        ),
{
    let chosen = selections(job);
    let ours = selected_lists(levels, chosen);
    let lists = lists_taken(levels, job);
    if exists|p: int| 0 <= p < ours.len() && has_key(#[trigger] ours[p], key) {
        let p = lemma_first_with(ours, key);
        let i = lemma_selected_is_taken(levels, job, p, key);
        lemma_first_found_is(ours, key, p);
        lemma_lists_len(levels, job);
        assert forall|j: int| 0 <= j < i implies !has_key(#[trigger] lists[j], key) by {
            if has_key(lists[j], key) {
                let q = lemma_taken_is_selected(levels, job, j, key);
                lemma_place_order(levels, j, i);
                if p < q {
                    lemma_selections_order(job, p, q);
                }
                assert(q < p);
            }
        }
        lemma_first_found_is(lists, key, i);
    } else {
        lemma_nothing_found(ours, key);
        assert forall|j: int| 0 <= j < lists.len() implies !has_key(#[trigger] lists[j], key) by {
            if has_key(lists[j], key) {
                let q = lemma_taken_is_selected(levels, job, j, key);
                assert(has_key(ours[q], key));
            }
        }
        lemma_nothing_found(lists, key);
    }
}

/// The first of lists that has a key.
proof fn lemma_first_with(lists: Seq<Seq<EntryView>>, key: Seq<u8>) -> (p: int)
    requires
        exists|p: int| 0 <= p < lists.len() && has_key(#[trigger] lists[p], key),
    ensures
        0 <= p < lists.len(),
        has_key(lists[p], key),
        forall|q: int| 0 <= q < p ==> !has_key(#[trigger] lists[q], key),
    decreases lists.len(),
{
    let last = lists.len() - 1;
    let head = lists.drop_last();
    if exists|p: int| 0 <= p < head.len() && has_key(#[trigger] head[p], key) {
        let p = lemma_first_with(head, key);
        assert(has_key(lists[p], key));
        assert forall|q: int| 0 <= q < p implies !has_key(#[trigger] lists[q], key) by {
            assert(lists[q] == head[q]);
        }
        p
    } else {
        assert forall|q: int| 0 <= q < last implies !has_key(#[trigger] lists[q], key) by {
            assert(lists[q] == head[q]);
        }
        last
    }
}

/// What a job takes of a run is named by a selection.
proof fn lemma_taken_is_selected(
    levels: Seq<Seq<RunView>>,
    job: CompactionJob,
    j: int,
    key: Seq<u8>,
) -> (q: int)
    requires
        levels_intact(levels),
        0 <= j < lists_taken(levels, job).len(),
        has_key(lists_taken(levels, job)[j], key),
    ensures
        0 <= q < selections(job).len(),
        has_key(selected_lists(levels, selections(job))[q], key),
        place(levels, j) == (
            selections(job)[q].level as int,
            selections(job)[q].run as int,
        ),
{
    lemma_lists_len(levels, job);
    let (l, r) = place(levels, j);
    lemma_place(levels, j);
    lemma_lists_by_place(levels, job, j);
    let tables = levels[l][r].tables;
    assert(run_intact(levels[l][r].tables));
    lemma_select(tables, takes(job, l, r));
    let f = choose|f: int|
        0 <= f < tables.len() && takes(job, l, r)(f) && has_key(
            table_entries((#[trigger] tables[f]).table),
            key,
        );
    lemma_selections_take(job, l, r, f);
    let q = choose|q: int|
        0 <= q < selections(job).len() && selects(#[trigger] selections(job)[q], l, r, f);
    let selection = selections(job)[q];
    lemma_select(tables, named(selection.files));
    assert(named(selection.files)(f));
    assert(tables[f] == tables[f]);
    assert(has_key(run_entries(selected(levels, selection)), key));
    q
}

} // verus!
