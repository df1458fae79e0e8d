//! How much a tree holds, counted as a memtable counts it.
//!
//! A write adds at most its own charge, a flush moves what the memtable holds,
//! and a merge writes no more than it takes.

use vstd::prelude::*;

use super::coalesce::{all_tables, coalesced, inserted, sorted};
use super::compaction::CompactionJob;
use super::entries::{as_map, ascending, find, has_key, lemma_find_at, EntryView};
use super::levels::{
    kept_level, level_after, level_kept, level_taken, levels_after, lists_kept, lists_taken,
    select, takes, unless,
};
use super::lsm::charged_after;
use super::memtable::{charge, lemma_charge_concat, total_charge};
use super::merge::{first_found, lemma_first_found_same};
use super::order::lex_lt;
use super::run::{run_entries, table_entries, NamedView, RunView};
use super::steps::{folded, is_written, levels_flushed};
use super::tree::TreeView;

verus! {

/// What the entries of tables are charged together.
pub open spec fn tables_weight(tables: Seq<NamedView>) -> nat
    decreases tables.len(),
{
    if tables.len() == 0 {
        0
    } else {
        tables_weight(tables.drop_last()) + total_charge(table_entries(tables.last().table))
    }
}

/// What the entries of runs are charged together.
pub open spec fn runs_weight(runs: Seq<RunView>) -> nat
    decreases runs.len(),
{
    if runs.len() == 0 {
        0
    } else {
        runs_weight(runs.drop_last()) + tables_weight(runs.last().tables)
    }
}

/// What the entries of levels are charged together.
pub open spec fn levels_weight(levels: Seq<Seq<RunView>>) -> nat
    decreases levels.len(),
{
    if levels.len() == 0 {
        0
    } else {
        levels_weight(levels.drop_last()) + runs_weight(levels.last())
    }
}

/// What everything in a tree is charged together, what is overwritten or
/// deleted and not merged away yet with it.
pub open spec fn weight(tree: TreeView) -> nat {
    total_charge(tree.memtable) + levels_weight(tree.levels)
}

/// What lists are charged together.
pub open spec fn lists_weight(lists: Seq<Seq<EntryView>>) -> nat
    decreases lists.len(),
{
    if lists.len() == 0 {
        0
    } else {
        lists_weight(lists.drop_last()) + total_charge(lists.last())
    }
}

// ---------------------------------------------------------------------------
// Sums
// ---------------------------------------------------------------------------

/// A run is charged as its tables are.
pub proof fn lemma_run_weight(tables: Seq<NamedView>)
    ensures
        total_charge(run_entries(tables)) == tables_weight(tables),
    decreases tables.len(),
{
    if tables.len() > 0 {
        lemma_run_weight(tables.drop_last());
        lemma_charge_concat(
            run_entries(tables.drop_last()),
            table_entries(tables.last().table),
        );
    }
}

proof fn lemma_tables_concat(a: Seq<NamedView>, b: Seq<NamedView>)
    ensures
        tables_weight(a + b) == tables_weight(a) + tables_weight(b),
    decreases b.len(),
{
    if b.len() == 0 {
        assert(a + b =~= a);
    } else {
        assert((a + b).drop_last() =~= a + b.drop_last());
        lemma_tables_concat(a, b.drop_last());
    }
}

proof fn lemma_runs_concat(a: Seq<RunView>, b: Seq<RunView>)
    ensures
        runs_weight(a + b) == runs_weight(a) + runs_weight(b),
    decreases b.len(),
{
    if b.len() == 0 {
        assert(a + b =~= a);
    } else {
        assert((a + b).drop_last() =~= a + b.drop_last());
        lemma_runs_concat(a, b.drop_last());
    }
}

proof fn lemma_one_run(run: RunView)
    ensures
        runs_weight(seq![run]) == tables_weight(run.tables),
{
    assert(seq![run].drop_last() =~= Seq::<RunView>::empty());
    assert(runs_weight(seq![run].drop_last()) == 0);
}

proof fn lemma_lists_concat(a: Seq<Seq<EntryView>>, b: Seq<Seq<EntryView>>)
    ensures
        lists_weight(a + b) == lists_weight(a) + lists_weight(b),
    decreases b.len(),
{
    if b.len() == 0 {
        assert(a + b =~= a);
    } else {
        assert((a + b).drop_last() =~= a + b.drop_last());
        lemma_lists_concat(a, b.drop_last());
    }
}

/// One list in place of another.
proof fn lemma_lists_update(lists: Seq<Seq<EntryView>>, i: int, list: Seq<EntryView>)
    requires
        0 <= i < lists.len(),
    ensures
        lists_weight(lists.update(i, list)) + total_charge(lists[i]) == lists_weight(lists)
            + total_charge(list),
    decreases lists.len(),
{
    let after = lists.update(i, list);
    if i == lists.len() - 1 {
        assert(after.drop_last() =~= lists.drop_last());
    } else {
        assert(after.drop_last() =~= lists.drop_last().update(i, list));
        lemma_lists_update(lists.drop_last(), i, list);
    }
}

/// One level in place of another.
proof fn lemma_levels_update(levels: Seq<Seq<RunView>>, l: int, level: Seq<RunView>)
    requires
        0 <= l < levels.len(),
    ensures
        levels_weight(levels.update(l, level)) + runs_weight(levels[l]) == levels_weight(levels)
            + runs_weight(level),
    decreases levels.len(),
{
    let after = levels.update(l, level);
    if l == levels.len() - 1 {
        assert(after.drop_last() =~= levels.drop_last());
    } else {
        assert(after.drop_last() =~= levels.drop_last().update(l, level));
        lemma_levels_update(levels.drop_last(), l, level);
    }
}

// ---------------------------------------------------------------------------
// Merging
// ---------------------------------------------------------------------------

/// A list without one of its entries.
proof fn lemma_without(list: Seq<EntryView>, at: int)
    requires
        ascending(list),
        0 <= at < list.len(),
    ensures
        ascending(list.remove(at)),
        total_charge(list.remove(at)) + charge(list[at]) == total_charge(list),
        forall|key: Seq<u8>|
            key != list[at].0 ==> #[trigger] find(list.remove(at), key) == find(list, key),
{
    let less = list.remove(at);
    assert forall|i: int, j: int|
        #![trigger less[i], less[j]]
        0 <= i < j < less.len() implies lex_lt(less[i].0, less[j].0) by {
        let a = if i < at {
            i
        } else {
            i + 1
        };
        let b = if j < at {
            j
        } else {
            j + 1
        };
        assert(less[i] == list[a] && less[j] == list[b]);
    }
    let head = list.take(at);
    let tail = list.skip(at + 1);
    assert(list =~= head.push(list[at]) + tail);
    assert(less =~= head + tail);
    lemma_charge_concat(head.push(list[at]), tail);
    lemma_charge_concat(head, tail);
    assert(head.push(list[at]).drop_last() =~= head);
    assert forall|key: Seq<u8>| key != list[at].0 implies #[trigger] find(less, key) == find(
        list,
        key,
    ) by {
        if has_key(list, key) {
            let i = choose|i: int| 0 <= i < list.len() && (#[trigger] list[i]).0 == key;
            let p = if i < at {
                i
            } else {
                i - 1
            };
            assert(less[p] == list[i]);
            lemma_find_at(list, i);
            lemma_find_at(less, p);
        } else if has_key(less, key) {
            let p = choose|p: int| 0 <= p < less.len() && (#[trigger] less[p]).0 == key;
            let i = if p < at {
                p
            } else {
                p + 1
            };
            assert(list[i].0 == key);
        }
    }
}

/// Something that lists say is in one of them.
proof fn lemma_first_found_in(lists: Seq<Seq<EntryView>>, key: Seq<u8>) -> (i: int)
    requires
        first_found(lists, key) is Some,
    ensures
        0 <= i < lists.len(),
        find(lists[i], key) == first_found(lists, key),
    decreases lists.len(),
{
    if find(lists[0], key) is Some {
        0
    } else {
        lemma_first_found_in(lists.drop_first(), key) + 1
    }
}

/// Entries that lists say are charged no more than the lists.
pub proof fn lemma_said_weighs_less(said: Seq<EntryView>, lists: Seq<Seq<EntryView>>)
    requires
        ascending(said),
        forall|i: int| 0 <= i < lists.len() ==> ascending(#[trigger] lists[i]),
        forall|key: Seq<u8>|
            (#[trigger] find(said, key)) is Some ==> first_found(lists, key) == find(said, key),
    ensures
        total_charge(said) <= lists_weight(lists),
    decreases said.len(),
{
    if said.len() > 0 {
        let n = said.len() - 1;
        let entry = said[n];
        lemma_find_at(said, n);
        assert(find(said, entry.0) == Some(entry.1));
        let i = lemma_first_found_in(lists, entry.0);
        let list = lists[i];
        assert(has_key(list, entry.0));
        let at = choose|at: int| 0 <= at < list.len() && (#[trigger] list[at]).0 == entry.0;
        lemma_find_at(list, at);
        assert(list[at] == entry);
        lemma_without(list, at);
        lemma_without(said, n);
        assert(said.remove(n) =~= said.drop_last());
        let rest = said.drop_last();
        let fewer = lists.update(i, list.remove(at));
        assert forall|j: int| 0 <= j < fewer.len() implies ascending(#[trigger] fewer[j]) by {
            if j != i {
                assert(fewer[j] == lists[j]);
            }
        }
        assert forall|key: Seq<u8>|
            (#[trigger] find(rest, key)) is Some implies first_found(fewer, key) == find(
            rest,
            key,
        ) by {
            let p = choose|p: int| 0 <= p < rest.len() && (#[trigger] rest[p]).0 == key;
            assert(has_key(rest, key));
            assert(said[p] == rest[p]);
            assert(lex_lt(said[p].0, said[n].0));
            super::order::lemma_lex_irreflexive(said[n].0);
            assert(find(said, key) == find(rest, key));
            assert forall|j: int| 0 <= j < fewer.len() implies find(#[trigger] fewer[j], key)
                == find(lists[j], key) by {}
            lemma_first_found_same(fewer, lists, key);
        }
        lemma_said_weighs_less(rest, fewer);
        lemma_lists_update(lists, i, list.remove(at));
    }
}

// ---------------------------------------------------------------------------
// Jobs
// ---------------------------------------------------------------------------

/// What is selected and what is not make up the whole.
proof fn lemma_select_weight(tables: Seq<NamedView>, keep: spec_fn(int) -> bool)
    ensures
        tables_weight(select(tables, keep)) + tables_weight(select(tables, unless(keep)))
            == tables_weight(tables),
    decreases tables.len(),
{
    if tables.len() > 0 {
        lemma_select_weight(tables.drop_last(), keep);
        let a = select(tables.drop_last(), keep);
        let b = select(tables.drop_last(), unless(keep));
        assert(a.push(tables.last()).drop_last() =~= a);
        assert(b.push(tables.last()).drop_last() =~= b);
    }
}

/// What a job takes out of a level and what it leaves make up the level.
proof fn lemma_level_parts(level: Seq<RunView>, l: int, job: CompactionJob)
    ensures
        lists_weight(level_taken(level, l, job)) + lists_weight(level_kept(level, l, job))
            == runs_weight(level),
        runs_weight(kept_level(level, l, job)) == lists_weight(level_kept(level, l, job)),
    decreases level.len(),
{
    let took = level_taken(level, l, job);
    let kept = level_kept(level, l, job);
    if level.len() > 0 {
        let head = level.drop_last();
        let r = level.len() - 1;
        lemma_level_parts(head, l, job);
        assert(took.drop_last() =~= level_taken(head, l, job));
        assert(kept.drop_last() =~= level_kept(head, l, job));
        let tables = level[r].tables;
        lemma_select_weight(tables, takes(job, l, r));
        lemma_run_weight(select(tables, takes(job, l, r)));
        lemma_run_weight(select(tables, unless(takes(job, l, r))));
        let before = kept_level(head, l, job);
        let run = super::levels::kept_run(level.last(), l, r, job);
        assert(before.push(run).drop_last() =~= before);
    }
}

/// What a job takes and what it leaves make up the levels.
pub proof fn lemma_job_parts(levels: Seq<Seq<RunView>>, job: CompactionJob)
    ensures
        lists_weight(lists_taken(levels, job)) + lists_weight(lists_kept(levels, job))
            == levels_weight(levels),
    decreases levels.len(),
{
    if levels.len() > 0 {
        let head = levels.drop_last();
        let l = levels.len() - 1;
        lemma_job_parts(head, job);
        lemma_level_parts(levels.last(), l, job);
        lemma_lists_concat(lists_taken(head, job), level_taken(levels.last(), l, job));
        lemma_lists_concat(lists_kept(head, job), level_kept(levels.last(), l, job));
    }
}

/// What is written of a merge.
pub open spec fn run_weight(run: Option<RunView>) -> nat {
    match run {
        Some(run) => tables_weight(run.tables),
        None => 0,
    }
}

/// The first `m` levels after a job.
proof fn lemma_after_weight(
    levels: Seq<Seq<RunView>>,
    job: CompactionJob,
    run: Option<RunView>,
    m: int,
)
    requires
        0 <= m <= levels_after(levels, job, run).len(),
    ensures
        levels_weight(levels_after(levels, job, run).take(m)) == lists_weight(
            lists_kept(
                levels.take(
                    if m < levels.len() {
                        m
                    } else {
                        levels.len() as int
                    },
                ),
                job,
            ),
        ) + if m > job.target_level {
            run_weight(run)
        } else {
            0
        },
    decreases m,
{
    let after = levels_after(levels, job, run);
    if m == 0 {
        assert(levels.take(0) =~= Seq::<Seq<RunView>>::empty());
        assert(after.take(0) =~= Seq::<Seq<RunView>>::empty());
    } else {
        let l = m - 1;
        lemma_after_weight(levels, job, run, l);
        assert(after.take(m).drop_last() =~= after.take(l));
        assert(after.take(m).last() == level_after(levels, job, run, l));
        let kept = if l < levels.len() {
            kept_level(levels[l], l, job)
        } else {
            Seq::empty()
        };
        if l < levels.len() {
            assert(levels.take(m).drop_last() =~= levels.take(l));
            assert(levels.take(m).last() == levels[l]);
            lemma_level_parts(levels[l], l, job);
            lemma_lists_concat(lists_kept(levels.take(l), job), level_kept(levels[l], l, job));
        }
        match run {
            Some(run) => {
                lemma_runs_concat(seq![run], kept);
                lemma_one_run(run);
            },
            None => {},
        }
    }
}

/// A table put among others.
proof fn lemma_inserted_weight(among: Seq<NamedView>, table: NamedView)
    ensures
        tables_weight(inserted(among, table)) == tables_weight(among) + total_charge(
            table_entries(table.table),
        ),
    decreases among.len(),
{
    let more = inserted(among, table);
    if among.len() == 0 || !super::coalesce::table_before(table.table, among.last().table) {
        assert(more.drop_last() =~= among);
    } else {
        lemma_inserted_weight(among.drop_last(), table);
        assert(more.drop_last() =~= inserted(among.drop_last(), table));
    }
}

proof fn lemma_sorted_weight(tables: Seq<NamedView>)
    ensures
        tables_weight(sorted(tables)) == tables_weight(tables),
    decreases tables.len(),
{
    if tables.len() > 0 {
        lemma_sorted_weight(tables.drop_last());
        lemma_inserted_weight(sorted(tables.drop_last()), tables.last());
    }
}

proof fn lemma_all_tables_weight(level: Seq<RunView>)
    ensures
        tables_weight(all_tables(level)) == runs_weight(level),
    decreases level.len(),
{
    if level.len() > 0 {
        lemma_all_tables_weight(level.drop_last());
        lemma_tables_concat(all_tables(level.drop_last()), level.last().tables);
    }
}

/// Folding a level moves its tables.
pub proof fn lemma_folded_weight(levels: Seq<Seq<RunView>>, l: int, limit: nat)
    requires
        0 <= l < levels.len(),
    ensures
        levels_weight(folded(levels, l, limit)) == levels_weight(levels),
{
    if limit == 1 {
        let level = levels[l];
        let now = coalesced(level);
        if now != level {
            lemma_all_tables_weight(level);
            lemma_sorted_weight(all_tables(level));
            lemma_one_run(now[0]);
            assert(now =~= seq![now[0]]);
        }
        lemma_levels_update(levels, l, now);
    }
}

/// A job leaves what it did not take, and what it wrote.
pub proof fn lemma_job_weight(
    levels: Seq<Seq<RunView>>,
    job: CompactionJob,
    run: Option<RunView>,
    limit: nat,
)
    ensures
        levels_weight(folded(levels_after(levels, job, run), job.target_level as int, limit))
            == lists_weight(lists_kept(levels, job)) + run_weight(run),
{
    let after = levels_after(levels, job, run);
    lemma_after_weight(levels, job, run, after.len() as int);
    assert(after.take(after.len() as int) =~= after);
    assert(levels.take(levels.len() as int) =~= levels);
    lemma_folded_weight(after, job.target_level as int, limit);
}

// ---------------------------------------------------------------------------
// Flushing and writing
// ---------------------------------------------------------------------------

/// A run in front of the levels.
pub proof fn lemma_flushed_weight(levels: Seq<Seq<RunView>>, run: RunView)
    ensures
        levels_weight(levels_flushed(levels, run)) == levels_weight(levels) + tables_weight(
            run.tables,
        ),
{
    lemma_one_run(run);
    if levels.len() == 0 {
        let after = levels_flushed(levels, run);
        assert(after.drop_last() =~= levels);
    } else {
        lemma_runs_concat(seq![run], levels[0]);
        lemma_levels_update(levels, 0, seq![run] + levels[0]);
    }
}

/// A write adds no more than its charge, and takes that of what it replaces away.
pub proof fn lemma_written_weight(before: TreeView, after: TreeView, entry: EntryView)
    requires
        is_written(before, after, entry),
        ascending(before.memtable),
    ensures
        weight(after) <= weight(before) + charge(entry),
        total_charge(after.memtable) <= charged_after(before.memtable, entry),
{
    let was = before.memtable;
    if has_key(was, entry.0) {
        let at = choose|at: int| 0 <= at < was.len() && (#[trigger] was[at]).0 == entry.0;
        lemma_find_at(was, at);
        lemma_without(was, at);
        lemma_written_charge(before, after, entry, was.remove(at));
    } else {
        lemma_written_charge(before, after, entry, was);
    }
}

/// What is not replaced, `rest`, is charged as before.
proof fn lemma_written_charge(
    before: TreeView,
    after: TreeView,
    entry: EntryView,
    rest: Seq<EntryView>,
)
    requires
        is_written(before, after, entry),
        ascending(rest),
        forall|key: Seq<u8>|
            key != entry.0 ==> #[trigger] find(rest, key) == find(before.memtable, key),
    ensures
        total_charge(after.memtable) <= charge(entry) + total_charge(rest),
{
    let was = before.memtable;
    let is = after.memtable;
    let alone = seq![entry];
    let lists = seq![alone, rest];
    lemma_find_at(alone, 0);
    assert forall|key: Seq<u8>| (#[trigger] find(is, key)) is Some implies first_found(lists, key)
        == find(is, key) by {
        assert(as_map(is).contains_key(key) == as_map(was).insert(entry.0, entry.1).contains_key(
            key,
        ));
        assert(as_map(is)[key] == as_map(was).insert(entry.0, entry.1)[key]);
        assert(lists.drop_first() =~= seq![rest]);
        super::levels::lemma_first_found_one(rest, key);
        if key != entry.0 {
            assert(!has_key(alone, key));
        }
    }
    lemma_said_weighs_less(is, lists);
    assert(lists.drop_last() =~= seq![alone]);
    assert(seq![alone].drop_last() =~= Seq::<Seq<EntryView>>::empty());
    assert(lists_weight(seq![alone].drop_last()) == 0);
    assert(lists_weight(seq![alone]) == total_charge(seq![alone].last()));
    assert(seq![alone].last() == alone && lists.last() == rest);
    assert(alone.drop_last() =~= Seq::<EntryView>::empty());
    assert(total_charge(alone.drop_last()) == 0);
    assert(alone.last() == entry);
    assert(total_charge(alone) == charge(entry));
}

} // verus!
