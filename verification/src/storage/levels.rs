//! The levels of a tree: what they say of a key, and why moving entries between
//! them in a safe way changes no answer.
//!
//! Reads consult the levels from level 0 down, and the runs of a level newest
//! first. The first entry found wins, a tombstone included.

use vstd::prelude::*;

use super::compaction::{
    file_at, files_meet, has_file, newer, pair_safe, safe, taken, CompactionJob,
};
use super::entries::{find, has_key, lemma_find_at, lemma_find_concat, EntryView};
use super::merge::{
    first_found, lemma_first_found_concat, lemma_first_found_none, without_tombstone,
};
use super::order::{lemma_lex_irreflexive, lemma_lex_mixed, lex_le, lex_lt};
use super::run::{intact, run_entries, run_intact, table_entries, NamedView, RunView};
use super::shape::TreeShape;
use super::sstable::key_view;

verus! {

// ---------------------------------------------------------------------------
// Some of the tables of a run
// ---------------------------------------------------------------------------

/// The tables at the places that `keep` admits.
pub open spec fn select(tables: Seq<NamedView>, keep: spec_fn(int) -> bool) -> Seq<NamedView>
    decreases tables.len(),
{
    if tables.len() == 0 {
        Seq::empty()
    } else {
        let before = select(tables.drop_last(), keep);
        if keep(tables.len() - 1) {
            before.push(tables.last())
        } else {
            before
        }
    }
}

/// Everything else.
pub open spec fn unless(keep: spec_fn(int) -> bool) -> spec_fn(int) -> bool {
    |i: int| !keep(i)
}

/// A key of a run is the key of one of its tables.
pub proof fn lemma_key_of_table(tables: Seq<NamedView>, key: Seq<u8>) -> (f: int)
    requires
        has_key(run_entries(tables), key),
    ensures
        0 <= f < tables.len(),
        has_key(table_entries(tables[f].table), key),
    decreases tables.len(),
{
    let all = run_entries(tables);
    let head = run_entries(tables.drop_last());
    let i = choose|i: int| 0 <= i < all.len() && (#[trigger] all[i]).0 == key;
    if i < head.len() {
        assert(head[i].0 == key);
        let f = lemma_key_of_table(tables.drop_last(), key);
        assert(tables.drop_last()[f] == tables[f]);
        f
    } else {
        assert(table_entries(tables.last().table)[i - head.len()].0 == key);
        tables.len() - 1
    }
}

/// A table's entries are entries of its run.
pub proof fn lemma_table_in_run(tables: Seq<NamedView>, f: int, i: int) -> (at: int)
    requires
        0 <= f < tables.len(),
        0 <= i < table_entries(tables[f].table).len(),
    ensures
        0 <= at < run_entries(tables).len(),
        run_entries(tables)[at] == table_entries(tables[f].table)[i],
    decreases tables.len(),
{
    let head = run_entries(tables.drop_last());
    if f == tables.len() - 1 {
        head.len() + i
    } else {
        assert(tables.drop_last()[f] == tables[f]);
        lemma_table_in_run(tables.drop_last(), f, i)
    }
}

/// What a table says, its run says.
pub proof fn lemma_table_finds(tables: Seq<NamedView>, f: int, key: Seq<u8>)
    requires
        run_intact(tables),
        0 <= f < tables.len(),
        has_key(table_entries(tables[f].table), key),
    ensures
        find(run_entries(tables), key) == find(table_entries(tables[f].table), key),
        find(run_entries(tables), key) is Some,
{
    let entries = table_entries(tables[f].table);
    assert(intact(tables[f].table));
    let i = choose|i: int| 0 <= i < entries.len() && (#[trigger] entries[i]).0 == key;
    lemma_find_at(entries, i);
    let at = lemma_table_in_run(tables, f, i);
    lemma_find_at(run_entries(tables), at);
}

/// The head of an intact run is intact, and lies below its last table.
pub proof fn lemma_run_head(tables: Seq<NamedView>)
    requires
        run_intact(tables),
        tables.len() > 0,
    ensures
        run_intact(tables.drop_last()),
        forall|i: int, j: int|
            #![trigger run_entries(tables.drop_last())[i], table_entries(tables.last().table)[j]]
            0 <= i < run_entries(tables.drop_last()).len() && 0 <= j < table_entries(
                tables.last().table,
            ).len() ==> lex_lt(
                run_entries(tables.drop_last())[i].0,
                table_entries(tables.last().table)[j].0,
            ),
{
    let head = tables.drop_last();
    let all = run_entries(tables);
    let last = table_entries(tables.last().table);
    lemma_find_concat(run_entries(head), last, Seq::empty());
    assert forall|i: int| 0 <= i < head.len() implies intact((#[trigger] head[i]).table) by {
        assert(head[i] == tables[i]);
    }
    assert forall|i: int, j: int|
        #![trigger run_entries(head)[i], last[j]]
        0 <= i < run_entries(head).len() && 0 <= j < last.len() implies lex_lt(
        run_entries(head)[i].0,
        last[j].0,
    ) by {
        assert(all[i] == run_entries(head)[i]);
        assert(all[run_entries(head).len() + j] == last[j]);
    }
}

/// Some of the tables of an intact run make an intact run; and what the run says
/// of a key, one part says, and the other says nothing.
pub proof fn lemma_select(tables: Seq<NamedView>, keep: spec_fn(int) -> bool)
    requires
        run_intact(tables),
    ensures
        run_intact(select(tables, keep)),
        forall|key: Seq<u8>| #[trigger]
            has_key(run_entries(select(tables, keep)), key) ==> has_key(run_entries(tables), key)
                && exists|f: int|
                0 <= f < tables.len() && keep(f) && has_key(
                    table_entries((#[trigger] tables[f]).table),
                    key,
                ),
        forall|key: Seq<u8>, f: int|
            #![trigger has_key(run_entries(select(tables, keep)), key), tables[f]]
            0 <= f < tables.len() && keep(f) && has_key(table_entries(tables[f].table), key)
                ==> has_key(run_entries(select(tables, keep)), key),
        forall|key: Seq<u8>| #[trigger]
            has_key(run_entries(select(tables, keep)), key) ==> find(
                run_entries(select(tables, keep)),
                key,
            ) == find(run_entries(tables), key),
        forall|i: int|
            0 <= i < select(tables, keep).len() ==> tables.contains(
                #[trigger] select(tables, keep)[i],
            ),
    decreases tables.len(),
{
    let chosen = select(tables, keep);
    if tables.len() > 0 {
        let head = tables.drop_last();
        let last = tables.last();
        let n = tables.len() - 1;
        lemma_run_head(tables);
        lemma_select(head, keep);
        let before = select(head, keep);
        let last_entries = table_entries(last.table);
        assert(intact(tables[n].table));
        assert forall|i: int| 0 <= i < chosen.len() implies tables.contains(
            #[trigger] chosen[i],
        ) by {
            if i < before.len() {
                assert(before[i] == chosen[i]);
                let j = choose|j: int| 0 <= j < head.len() && head[j] == before[i];
                assert(tables[j] == chosen[i]);
            } else {
                assert(tables[n] == chosen[i]);
            }
        }
        if keep(n) {
            assert(chosen.drop_last() =~= before);
            // Ascending: everything before lies below the last table.
            let all = run_entries(chosen);
            assert forall|a: int, b: int|
                #![trigger all[a], all[b]]
                0 <= a < b < all.len() implies lex_lt(all[a].0, all[b].0) by {
                let m = run_entries(before).len() as int;
                if b < m {
                    assert(all[a] == run_entries(before)[a] && all[b] == run_entries(before)[b]);
                } else if a >= m {
                    assert(all[a] == last_entries[a - m] && all[b] == last_entries[b - m]);
                } else {
                    assert(all[a] == run_entries(before)[a] && all[b] == last_entries[b - m]);
                    let key = run_entries(before)[a].0;
                    assert(has_key(run_entries(before), key));
                    assert(has_key(run_entries(head), key));
                    let c = choose|c: int|
                        0 <= c < run_entries(head).len() && (#[trigger] run_entries(head)[c]).0
                            == key;
                    assert(lex_lt(run_entries(head)[c].0, last_entries[b - m].0));
                }
            }
            assert forall|i: int| 0 <= i < chosen.len() implies intact(
                (#[trigger] chosen[i]).table,
            ) by {
                if i < before.len() {
                    assert(chosen[i] == before[i]);
                }
            }
        }
        assert(run_intact(chosen));
        assert forall|key: Seq<u8>| #[trigger] has_key(run_entries(chosen), key) implies has_key(
            run_entries(tables),
            key,
        ) && (exists|f: int|
            0 <= f < tables.len() && keep(f) && has_key(
                table_entries((#[trigger] tables[f]).table),
                key,
            )) && find(run_entries(chosen), key) == find(run_entries(tables), key) by {
            lemma_find_concat(run_entries(head), last_entries, key);
            if keep(n) {
                lemma_find_concat(run_entries(before), last_entries, key);
            }
            if has_key(run_entries(before), key) {
                let f = choose|f: int|
                    0 <= f < head.len() && keep(f) && has_key(
                        table_entries((#[trigger] head[f]).table),
                        key,
                    );
                assert(tables[f] == head[f]);
            } else {
                assert(keep(n) && has_key(last_entries, key));
                assert(has_key(table_entries(tables[n].table), key));
                lemma_table_finds(tables, n, key);
            }
        }
        assert forall|key: Seq<u8>, f: int|
            #![trigger has_key(run_entries(chosen), key), tables[f]]
            0 <= f < tables.len() && keep(f) && has_key(
                table_entries(tables[f].table),
                key,
            ) implies has_key(run_entries(chosen), key) by {
            if keep(n) {
                lemma_find_concat(run_entries(before), last_entries, key);
            }
            if f < n {
                assert(head[f] == tables[f]);
                assert(has_key(run_entries(before), key));
            }
        }
    }
}

/// A key of an intact run is in one part of it or in the other, not in both.
pub proof fn lemma_select_parts(tables: Seq<NamedView>, keep: spec_fn(int) -> bool, key: Seq<u8>)
    requires
        run_intact(tables),
    ensures
        ({
            let chosen = run_entries(select(tables, keep));
            let others = run_entries(select(tables, unless(keep)));
            &&& !(has_key(chosen, key) && has_key(others, key))
            &&& find(run_entries(tables), key) == if has_key(chosen, key) {
                find(chosen, key)
            } else {
                find(others, key)
            }
        }),
{
    let chosen = run_entries(select(tables, keep));
    let others = run_entries(select(tables, unless(keep)));
    lemma_select(tables, keep);
    lemma_select(tables, unless(keep));
    if has_key(chosen, key) && has_key(others, key) {
        let f = choose|f: int|
            0 <= f < tables.len() && keep(f) && has_key(
                table_entries((#[trigger] tables[f]).table),
                key,
            );
        let g = choose|g: int|
            0 <= g < tables.len() && unless(keep)(g) && has_key(
                table_entries((#[trigger] tables[g]).table),
                key,
            );
        lemma_tables_disjoint(tables, f, g, key);
    }
    if has_key(run_entries(tables), key) {
        let f = lemma_key_of_table(tables, key);
        assert(tables[f] == tables[f]);
        if keep(f) {
            assert(has_key(chosen, key));
        } else {
            assert(unless(keep)(f));
            assert(has_key(others, key));
        }
    }
}

/// No two tables of an intact run share a key.
#[verifier::rlimit(40)]
pub proof fn lemma_tables_disjoint(tables: Seq<NamedView>, f: int, g: int, key: Seq<u8>)
    requires
        run_intact(tables),
        0 <= f < tables.len(),
        0 <= g < tables.len(),
        has_key(table_entries(tables[f].table), key),
        has_key(table_entries(tables[g].table), key),
    ensures
        f == g,
    decreases tables.len(),
{
    let n = tables.len() - 1;
    let head = tables.drop_last();
    let last = table_entries(tables.last().table);
    lemma_run_head(tables);
    if f < n && g < n {
        assert(head[f] == tables[f] && head[g] == tables[g]);
        lemma_tables_disjoint(head, f, g, key);
    } else if f != g {
        let low = if f < g {
            f
        } else {
            g
        };
        assert(head[low] == tables[low]);
        let entries = table_entries(head[low].table);
        let i = choose|i: int| 0 <= i < entries.len() && (#[trigger] entries[i]).0 == key;
        let at = lemma_table_in_run(head, low, i);
        let j = choose|j: int| 0 <= j < last.len() && (#[trigger] last[j]).0 == key;
        assert(lex_lt(run_entries(head)[at].0, last[j].0));
        lemma_lex_irreflexive(key);
    }
}

// ---------------------------------------------------------------------------
// Levels as one list of runs
// ---------------------------------------------------------------------------

/// All runs, in the order that reads consult them.
pub open spec fn all_runs(levels: Seq<Seq<RunView>>) -> Seq<RunView>
    decreases levels.len(),
{
    if levels.len() == 0 {
        Seq::empty()
    } else {
        all_runs(levels.drop_last()) + levels.last()
    }
}

/// The entries of each run.
pub open spec fn lists_of(runs: Seq<RunView>) -> Seq<Seq<EntryView>> {
    Seq::new(runs.len(), |i: int| run_entries(runs[i].tables))
}

/// What the levels say of a key.
pub open spec fn levels_find(levels: Seq<Seq<RunView>>, key: Seq<u8>) -> Option<Option<Seq<u8>>> {
    first_found(lists_of(all_runs(levels)), key)
}

/// Every run can be read whole.
pub open spec fn levels_intact(levels: Seq<Seq<RunView>>) -> bool {
    forall|l: int, r: int|
        0 <= l < levels.len() && 0 <= r < levels[l].len() ==> run_intact(
            (#[trigger] levels[l][r]).tables,
        )
}

/// The level and the run of the `i`-th of all runs.
pub open spec fn place(levels: Seq<Seq<RunView>>, i: int) -> (int, int)
    decreases levels.len(),
{
    if levels.len() == 0 {
        (0, 0)
    } else {
        let before = all_runs(levels.drop_last()).len();
        if i < before {
            place(levels.drop_last(), i)
        } else {
            (levels.len() - 1, i - before)
        }
    }
}

/// A place is a place.
pub proof fn lemma_place(levels: Seq<Seq<RunView>>, i: int)
    requires
        0 <= i < all_runs(levels).len(),
    ensures
        0 <= place(levels, i).0 < levels.len(),
        0 <= place(levels, i).1 < levels[place(levels, i).0].len(),
        levels[place(levels, i).0][place(levels, i).1] == all_runs(levels)[i],
    decreases levels.len(),
{
    if levels.len() > 0 {
        let head = levels.drop_last();
        if i < all_runs(head).len() {
            lemma_place(head, i);
            assert(head[place(head, i).0] == levels[place(head, i).0]);
        }
    }
}

/// Places are in reading order.
pub proof fn lemma_place_order(levels: Seq<Seq<RunView>>, i: int, j: int)
    requires
        0 <= i < j < all_runs(levels).len(),
    ensures
        newer(
            place(levels, i).0,
            place(levels, i).1,
            place(levels, j).0,
            place(levels, j).1,
        ),
    decreases levels.len(),
{
    if levels.len() > 0 {
        let head = levels.drop_last();
        if j < all_runs(head).len() {
            lemma_place_order(head, i, j);
        } else if i < all_runs(head).len() {
            lemma_place(head, i);
        }
    }
}

/// The number of runs above a level.
pub open spec fn runs_above(levels: Seq<Seq<RunView>>, level: int) -> nat {
    if level >= levels.len() {
        all_runs(levels).len()
    } else {
        all_runs(levels.take(level)).len()
    }
}

/// A run stands before the runs of a level exactly if its level is above.
pub proof fn lemma_above(levels: Seq<Seq<RunView>>, level: int, i: int)
    requires
        0 <= level,
        0 <= i < all_runs(levels).len(),
    ensures
        runs_above(levels, level) <= all_runs(levels).len(),
        i < runs_above(levels, level) <==> place(levels, i).0 < level,
    decreases levels.len(),
{
    if levels.len() > 0 {
        let head = levels.drop_last();
        lemma_place(levels, i);
        if level >= levels.len() {
        } else {
            assert(levels.take(level) =~= head.take(level));
            if level == levels.len() - 1 {
                assert(levels.take(level) =~= head);
                if i < all_runs(head).len() {
                    lemma_place(head, i);
                }
            } else if i < all_runs(head).len() {
                lemma_above(head, level, i);
            } else {
                lemma_above_bound(head, level);
            }
        }
    }
}

proof fn lemma_above_bound(levels: Seq<Seq<RunView>>, level: int)
    requires
        0 <= level,
    ensures
        runs_above(levels, level) <= all_runs(levels).len(),
    decreases levels.len(),
{
    if level < levels.len() {
        let head = levels.drop_last();
        assert(levels.take(level) =~= head.take(level));
        if level == levels.len() - 1 {
            assert(levels.take(level) =~= head);
        } else {
            lemma_above_bound(head, level);
        }
    }
}

// ---------------------------------------------------------------------------
// Replacing some entries by their merge
// ---------------------------------------------------------------------------

/// What is found first, by place.
proof fn lemma_first_index(lists: Seq<Seq<EntryView>>, key: Seq<u8>) -> (i: int)
    requires
        first_found(lists, key) is Some,
    ensures
        0 <= i < lists.len(),
        find(lists[i], key) == first_found(lists, key),
        has_key(lists[i], key),
        forall|j: int| 0 <= j < i ==> !has_key(#[trigger] lists[j], key),
    decreases lists.len(),
{
    if has_key(lists[0], key) {
        0
    } else {
        let rest = lists.drop_first();
        let i = lemma_first_index(rest, key);
        assert(rest[i] == lists[i + 1]);
        assert forall|j: int| 0 <= j < i + 1 implies !has_key(#[trigger] lists[j], key) by {
            if j > 0 {
                assert(rest[j - 1] == lists[j]);
            }
        }
        i + 1
    }
}

/// The first list that has the key decides.
pub proof fn lemma_first_found_is(lists: Seq<Seq<EntryView>>, key: Seq<u8>, i: int)
    requires
        0 <= i < lists.len(),
        has_key(lists[i], key),
        forall|j: int| 0 <= j < i ==> !has_key(#[trigger] lists[j], key),
    ensures
        first_found(lists, key) == find(lists[i], key),
        first_found(lists, key) is Some,
{
    if first_found(lists, key) is None {
        lemma_first_found_none(lists, key);
        assert(find(lists[i], key) is None);
    }
    let j = lemma_first_index(lists, key);
    if j < i {
        assert(!has_key(lists[j], key));
    }
    if i < j {
        assert(!has_key(lists[i], key));
    }
}

/// Nothing is found of a key that no list has.
pub proof fn lemma_nothing_found(lists: Seq<Seq<EntryView>>, key: Seq<u8>)
    requires
        forall|j: int| 0 <= j < lists.len() ==> !has_key(#[trigger] lists[j], key),
    ensures
        first_found(lists, key) is None,
{
    if first_found(lists, key) is Some {
        let i = lemma_first_index(lists, key);
    }
}

/// Each list in two parts: what is taken from it and what stays.
pub open spec fn divided(
    lists: Seq<Seq<EntryView>>,
    taken: Seq<Seq<EntryView>>,
    stays: Seq<Seq<EntryView>>,
    key: Seq<u8>,
) -> bool {
    &&& taken.len() == lists.len()
    &&& stays.len() == lists.len()
    &&& forall|i: int|
        0 <= i < lists.len() ==> {
            &&& !(has_key(taken[i], key) && has_key(stays[i], key))
            &&& find(#[trigger] lists[i], key) == if has_key(taken[i], key) {
                find(taken[i], key)
            } else {
                find(stays[i], key)
            }
        }
}

/// Taking entries out of lists and putting their merge in at place `p` changes
/// nothing that can be seen of a key, if nothing older stays above what moves,
/// nothing newer ends up below it, and no tombstone is dropped that still
/// shadows something.
pub proof fn lemma_replacing_is_invisible(
    lists: Seq<Seq<EntryView>>,
    taken: Seq<Seq<EntryView>>,
    stays: Seq<Seq<EntryView>>,
    p: int,
    merged: Seq<EntryView>,
    dropping: bool,
    key: Seq<u8>,
)
    requires
        divided(lists, taken, stays, key),
        0 <= p <= lists.len(),
        find(merged, key) == without_tombstone(first_found(taken, key), dropping),
        forall|i: int, j: int|
            #![trigger taken[i], stays[j]]
            0 <= i < j < p && has_key(taken[i], key) ==> !has_key(stays[j], key),
        forall|i: int, j: int|
            #![trigger stays[i], taken[j]]
            p <= i < j < lists.len() && has_key(taken[j], key) ==> !has_key(stays[i], key),
        dropping ==> forall|i: int, j: int|
            #![trigger taken[i], stays[j]]
            0 <= i < lists.len() && p <= j < lists.len() && has_key(taken[i], key) ==> !has_key(
                stays[j],
                key,
            ),
    ensures
        without_tombstone(
            first_found(stays.take(p) + seq![merged] + stays.skip(p), key),
            true,
        ) == without_tombstone(first_found(lists, key), true),
{
    let above = stays.take(p);
    let below = stays.skip(p);
    let after = above + seq![merged] + below;
    lemma_first_found_concat(above + seq![merged], below, key);
    lemma_first_found_concat(above, seq![merged], key);
    lemma_first_found_one(merged, key);
    if first_found(lists, key) is None {
        lemma_first_found_none(lists, key);
        assert forall|i: int| 0 <= i < lists.len() implies !has_key(#[trigger] taken[i], key)
            && !has_key(stays[i], key) by {
            assert(find(lists[i], key) is None);
        }
        lemma_nothing_found(taken, key);
        assert forall|i: int| 0 <= i < above.len() implies !has_key(#[trigger] above[i], key) by {
            assert(above[i] == stays[i]);
            assert(!has_key(taken[i], key) && !has_key(stays[i], key));
        }
        assert forall|i: int| 0 <= i < below.len() implies !has_key(#[trigger] below[i], key) by {
            assert(below[i] == stays[p + i]);
            assert(!has_key(taken[p + i], key) && !has_key(stays[p + i], key));
        }
        lemma_nothing_found(above, key);
        lemma_nothing_found(below, key);
    } else {
        let w = lemma_first_index(lists, key);
        assert(find(lists[w], key) is Some);
        assert forall|i: int| 0 <= i < w implies !has_key(#[trigger] taken[i], key) && !has_key(
            stays[i],
            key,
        ) by {
            assert(!has_key(lists[i], key));
            assert(find(lists[i], key) is None);
        }
        if has_key(taken[w], key) {
            lemma_first_found_is(taken, key, w);
            assert forall|j: int| 0 <= j < above.len() implies !has_key(
                #[trigger] above[j],
                key,
            ) by {
                assert(above[j] == stays[j]);
                if j < w {
                    assert(!has_key(taken[j], key) && !has_key(stays[j], key));
                } else if j > w {
                    assert(taken[w] == taken[w]);
                    assert(!has_key(stays[j], key));
                }
            }
            lemma_nothing_found(above, key);
            if find(merged, key) is None {
                // A tombstone was dropped.
                assert forall|j: int| 0 <= j < below.len() implies !has_key(
                    #[trigger] below[j],
                    key,
                ) by {
                    assert(below[j] == stays[p + j]);
                    assert(taken[w] == taken[w]);
                }
                lemma_nothing_found(below, key);
            }
        } else if w < p {
            assert(above[w] == stays[w]);
            assert forall|j: int| 0 <= j < w implies !has_key(#[trigger] above[j], key) by {
                assert(above[j] == stays[j]);
                assert(!has_key(taken[j], key) && !has_key(stays[j], key));
            }
            lemma_first_found_is(above, key, w);
        } else {
            // What stays decides, and nothing newer was taken, nor older.
            assert forall|j: int| 0 <= j < taken.len() implies !has_key(
                #[trigger] taken[j],
                key,
            ) by {
                if j < w {
                    assert(!has_key(taken[j], key) && !has_key(stays[j], key));
                } else if j > w {
                    assert(stays[w] == stays[w]);
                }
            }
            lemma_nothing_found(taken, key);
            assert forall|j: int| 0 <= j < above.len() implies !has_key(
                #[trigger] above[j],
                key,
            ) by {
                assert(above[j] == stays[j]);
                assert(!has_key(taken[j], key) && !has_key(stays[j], key));
            }
            lemma_nothing_found(above, key);
            assert(below[w - p] == stays[w]);
            assert forall|j: int| 0 <= j < w - p implies !has_key(#[trigger] below[j], key) by {
                assert(below[j] == stays[p + j]);
                assert(!has_key(taken[p + j], key) && !has_key(stays[p + j], key));
            }
            lemma_first_found_is(below, key, w - p);
        }
    }
}

/// What is found in one list.
pub proof fn lemma_first_found_one(list: Seq<EntryView>, key: Seq<u8>)
    ensures
        first_found(seq![list], key) == find(list, key),
{
    assert(seq![list].drop_first() =~= Seq::<Seq<EntryView>>::empty());
    assert(first_found(seq![list].drop_first(), key) is None);
}

// ---------------------------------------------------------------------------
// Performing a job
// ---------------------------------------------------------------------------

/// The files of run `r` of level `l` that a job consumes.
pub open spec fn takes(job: CompactionJob, l: int, r: int) -> spec_fn(int) -> bool {
    |f: int| taken(job, l, r, f)
}

/// What a job takes out of each run of a level.
pub open spec fn level_taken(level: Seq<RunView>, l: int, job: CompactionJob) -> Seq<
    Seq<EntryView>,
> {
    Seq::new(level.len(), |r: int| run_entries(select(level[r].tables, takes(job, l, r))))
}

/// What a job leaves in each run of a level.
pub open spec fn level_kept(level: Seq<RunView>, l: int, job: CompactionJob) -> Seq<
    Seq<EntryView>,
> {
    Seq::new(level.len(), |r: int| run_entries(select(level[r].tables, unless(takes(job, l, r)))))
}

/// What a job takes out of each run, in reading order.
pub open spec fn lists_taken(levels: Seq<Seq<RunView>>, job: CompactionJob) -> Seq<Seq<EntryView>>
    decreases levels.len(),
{
    if levels.len() == 0 {
        Seq::empty()
    } else {
        lists_taken(levels.drop_last(), job) + level_taken(
            levels.last(),
            levels.len() - 1,
            job,
        )
    }
}

/// What a job leaves in each run, in reading order.
pub open spec fn lists_kept(levels: Seq<Seq<RunView>>, job: CompactionJob) -> Seq<Seq<EntryView>>
    decreases levels.len(),
{
    if levels.len() == 0 {
        Seq::empty()
    } else {
        lists_kept(levels.drop_last(), job) + level_kept(levels.last(), levels.len() - 1, job)
    }
}

/// A run without the tables that a job consumes.
pub open spec fn kept_run(run: RunView, l: int, r: int, job: CompactionJob) -> RunView {
    RunView { tables: select(run.tables, unless(takes(job, l, r))), ..run }
}

/// A level without the tables that a job consumes, and without the runs that
/// are left empty.
pub open spec fn kept_level(level: Seq<RunView>, l: int, job: CompactionJob) -> Seq<RunView>
    decreases level.len(),
{
    if level.len() == 0 {
        Seq::empty()
    } else {
        let before = kept_level(level.drop_last(), l, job);
        let run = kept_run(level.last(), l, level.len() - 1, job);
        if run.tables.len() == 0 {
            before
        } else {
            before.push(run)
        }
    }
}

/// A level with a run put in front, if there is one.
pub open spec fn with_run(level: Seq<RunView>, run: Option<RunView>) -> Seq<RunView> {
    match run {
        Some(run) => seq![run] + level,
        None => level,
    }
}

/// What a level is after a job whose merge was written as `run`.
pub open spec fn level_after(
    levels: Seq<Seq<RunView>>,
    job: CompactionJob,
    run: Option<RunView>,
    l: int,
) -> Seq<RunView> {
    let kept = if l < levels.len() {
        kept_level(levels[l], l, job)
    } else {
        Seq::empty()
    };
    if l == job.target_level {
        with_run(kept, run)
    } else {
        kept
    }
}

/// The levels after a job whose merge was written as `run`.
pub open spec fn levels_after(
    levels: Seq<Seq<RunView>>,
    job: CompactionJob,
    run: Option<RunView>,
) -> Seq<Seq<RunView>> {
    let count = if levels.len() > job.target_level {
        levels.len()
    } else {
        (job.target_level + 1) as nat
    };
    Seq::new(count, |l: int| level_after(levels, job, run, l))
}

/// The shape tells the key ranges of the tables.
pub open spec fn shows(tree: TreeShape, levels: Seq<Seq<RunView>>) -> bool {
    &&& tree.levels@.len() == levels.len()
    &&& forall|l: int|
        0 <= l < levels.len() ==> (#[trigger] tree.levels@[l]).runs@.len() == levels[l].len()
    &&& forall|l: int, r: int|
        0 <= l < levels.len() && 0 <= r < levels[l].len() ==> (
        #[trigger] tree.levels@[l].runs@[r]).files@.len() == levels[l][r].tables.len()
    &&& forall|l: int, r: int, f: int|
        0 <= l < levels.len() && 0 <= r < levels[l].len() && 0 <= f < levels[l][r].tables.len()
            ==> {
            &&& key_view((#[trigger] file_at(tree, l, r, f)).min_key)
                == levels[l][r].tables[f].table.min_key()
            &&& key_view(file_at(tree, l, r, f).max_key) == levels[l][r].tables[f].table.max_key
        }
}

/// The lists by place.
pub proof fn lemma_lists_by_place(levels: Seq<Seq<RunView>>, job: CompactionJob, i: int)
    requires
        0 <= i < all_runs(levels).len(),
    ensures
        lists_taken(levels, job).len() == all_runs(levels).len(),
        lists_kept(levels, job).len() == all_runs(levels).len(),
        ({
            let (l, r) = place(levels, i);
            &&& lists_taken(levels, job)[i] == run_entries(
                select(levels[l][r].tables, takes(job, l, r)),
            )
            &&& lists_kept(levels, job)[i] == run_entries(
                select(levels[l][r].tables, unless(takes(job, l, r))),
            )
        }),
    decreases levels.len(),
{
    if levels.len() > 0 {
        let head = levels.drop_last();
        lemma_lists_len(head, job);
        if i < all_runs(head).len() {
            lemma_lists_by_place(head, job, i);
            lemma_place(head, i);
            assert(head[place(head, i).0] == levels[place(head, i).0]);
        }
    }
}

pub proof fn lemma_lists_len(levels: Seq<Seq<RunView>>, job: CompactionJob)
    ensures
        lists_taken(levels, job).len() == all_runs(levels).len(),
        lists_kept(levels, job).len() == all_runs(levels).len(),
    decreases levels.len(),
{
    if levels.len() > 0 {
        lemma_lists_len(levels.drop_last(), job);
    }
}

/// A key of an intact table lies within the table's range.
pub proof fn lemma_key_in_range(table: super::sstable::TableView, key: Seq<u8>)
    requires
        intact(table),
        has_key(table_entries(table), key),
    ensures
        table.min_key() matches Some(min) && lex_le(min, key),
        table.max_key matches Some(max) && lex_le(key, max),
{
    let entries = table_entries(table);
    let i = choose|i: int| 0 <= i < entries.len() && (#[trigger] entries[i]).0 == key;
    assert(entries.last() == entries[entries.len() - 1]);
    if i > 0 {
        assert(lex_lt(entries[0].0, entries[i].0));
    }
    if i < entries.len() - 1 {
        assert(lex_lt(entries[i].0, entries[entries.len() - 1].0));
    }
}

/// A key that is both in a table that a job takes and in one that it leaves,
/// of another run, is where the job's safety speaks of.
proof fn lemma_shared_key(
    levels: Seq<Seq<RunView>>,
    tree: TreeShape,
    job: CompactionJob,
    i: int,
    j: int,
    key: Seq<u8>,
)
    requires
        levels_intact(levels),
        shows(tree, levels),
        safe(tree, job),
        0 <= i < all_runs(levels).len(),
        0 <= j < all_runs(levels).len(),
        i != j,
        has_key(lists_taken(levels, job)[i], key),
        has_key(lists_kept(levels, job)[j], key),
    ensures
        ({
            let (l, r) = place(levels, i);
            let (l2, r2) = place(levels, j);
            &&& !(l2 < job.target_level && newer(l, r, l2, r2))
            &&& !(l == job.target_level && l2 == job.target_level && r2 < r)
            &&& !(job.drop_tombstones && l2 >= job.target_level)
            &&& l <= job.target_level
        }),
{
    let (l, r) = place(levels, i);
    let (l2, r2) = place(levels, j);
    lemma_place(levels, i);
    lemma_place(levels, j);
    lemma_lists_by_place(levels, job, i);
    lemma_lists_by_place(levels, job, j);
    if i < j {
        lemma_place_order(levels, i, j);
    } else {
        lemma_place_order(levels, j, i);
    }
    let tables = levels[l][r].tables;
    let tables2 = levels[l2][r2].tables;
    assert(run_intact(levels[l][r].tables) && run_intact(levels[l2][r2].tables));
    lemma_select(tables, takes(job, l, r));
    lemma_select(tables2, unless(takes(job, l2, r2)));
    let f = choose|f: int|
        0 <= f < tables.len() && takes(job, l, r)(f) && has_key(
            table_entries((#[trigger] tables[f]).table),
            key,
        );
    let f2 = choose|f2: int|
        0 <= f2 < tables2.len() && unless(takes(job, l2, r2))(f2) && has_key(
            table_entries((#[trigger] tables2[f2]).table),
            key,
        );
    assert(intact(tables[f].table) && intact(tables2[f2].table));
    lemma_key_in_range(tables[f].table, key);
    lemma_key_in_range(tables2[f2].table, key);
    assert(tree.levels@[l].runs@[r].files@.len() == tables.len());
    assert(tree.levels@[l2].runs@[r2].files@.len() == tables2.len());
    assert(has_file(tree, l, r, f) && has_file(tree, l2, r2, f2));
    let a = file_at(tree, l, r, f);
    let b = file_at(tree, l2, r2, f2);
    lemma_meet_at(
        key_view(a.min_key)->0,
        key_view(a.max_key)->0,
        key_view(b.min_key)->0,
        key_view(b.max_key)->0,
        key,
    );
    assert(files_meet(a, b));
    assert(pair_safe(tree, job, l, r, f, l2, r2, f2));
    assert(taken(job, l, r, f));
    assert(l <= job.target_level);
}

proof fn lemma_meet_at(a: Seq<u8>, b: Seq<u8>, c: Seq<u8>, d: Seq<u8>, key: Seq<u8>)
    requires
        lex_le(a, key),
        lex_le(key, b),
        lex_le(c, key),
        lex_le(key, d),
    ensures
        lex_le(a, d),
        lex_le(c, b),
{
    if a != key {
        lemma_lex_mixed(a, key, d);
    }
    if c != key {
        lemma_lex_mixed(c, key, b);
    }
}

/// Performing a safe job is invisible, list by list.
pub proof fn lemma_job_is_invisible(
    levels: Seq<Seq<RunView>>,
    tree: TreeShape,
    job: CompactionJob,
    merged: Seq<EntryView>,
    key: Seq<u8>,
)
    requires
        levels_intact(levels),
        shows(tree, levels),
        safe(tree, job),
        find(merged, key) == without_tombstone(
            first_found(lists_taken(levels, job), key),
            job.drop_tombstones,
        ),
    ensures
        ({
            let p = runs_above(levels, job.target_level as int) as int;
            let kept = lists_kept(levels, job);
            without_tombstone(
                first_found(kept.take(p) + seq![merged] + kept.skip(p), key),
                true,
            ) == without_tombstone(levels_find(levels, key), true)
        }),
{
    let lists = lists_of(all_runs(levels));
    let taken = lists_taken(levels, job);
    let kept = lists_kept(levels, job);
    let t = job.target_level as int;
    let p = runs_above(levels, t) as int;
    lemma_lists_len(levels, job);
    lemma_above_bound(levels, t);
    assert forall|i: int| 0 <= i < lists.len() implies {
        &&& !(has_key(taken[i], key) && has_key(kept[i], key))
        &&& find(#[trigger] lists[i], key) == if has_key(taken[i], key) {
            find(taken[i], key)
        } else {
            find(kept[i], key)
        }
    } by {
        let (l, r) = place(levels, i);
        lemma_place(levels, i);
        lemma_lists_by_place(levels, job, i);
        assert(run_intact(levels[l][r].tables));
        lemma_select_parts(levels[l][r].tables, takes(job, l, r), key);
    }
    assert(divided(lists, taken, kept, key));
    assert forall|i: int, j: int|
        #![trigger taken[i], kept[j]]
        0 <= i < j < p && has_key(taken[i], key) implies !has_key(kept[j], key) by {
        if has_key(kept[j], key) {
            lemma_shared_key(levels, tree, job, i, j, key);
            lemma_place_order(levels, i, j);
            lemma_above(levels, t, j);
        }
    }
    assert forall|i: int, j: int|
        #![trigger kept[i], taken[j]]
        p <= i < j < lists.len() && has_key(taken[j], key) implies !has_key(kept[i], key) by {
        if has_key(kept[i], key) {
            lemma_shared_key(levels, tree, job, j, i, key);
            lemma_place_order(levels, i, j);
            lemma_above(levels, t, i);
            lemma_above(levels, t, j);
        }
    }
    if job.drop_tombstones {
        assert forall|i: int, j: int|
            #![trigger taken[i], kept[j]]
            0 <= i < lists.len() && p <= j < lists.len() && has_key(
                taken[i],
                key,
            ) implies !has_key(kept[j], key) by {
            if has_key(kept[j], key) {
                if i == j {
                    assert(lists[i] == lists[i]);
                } else {
                    lemma_shared_key(levels, tree, job, i, j, key);
                    lemma_above(levels, t, j);
                }
            }
        }
    }
    lemma_replacing_is_invisible(lists, taken, kept, p, merged, job.drop_tombstones, key);
}

/// Leaving empty runs out changes nothing.
proof fn lemma_kept_level_finds(level: Seq<RunView>, l: int, job: CompactionJob, key: Seq<u8>)
    ensures
        first_found(lists_of(kept_level(level, l, job)), key) == first_found(
            level_kept(level, l, job),
            key,
        ),
    decreases level.len(),
{
    let pruned = kept_level(level, l, job);
    let lists = level_kept(level, l, job);
    if level.len() == 0 {
        assert(lists_of(pruned) =~= lists);
    } else {
        let head = level.drop_last();
        let run = kept_run(level.last(), l, level.len() - 1, job);
        lemma_kept_level_finds(head, l, job, key);
        assert(lists =~= level_kept(head, l, job) + seq![run_entries(run.tables)]);
        lemma_first_found_concat(level_kept(head, l, job), seq![run_entries(run.tables)], key);
        if run.tables.len() == 0 {
            assert(run_entries(run.tables) =~= Seq::<EntryView>::empty());
            lemma_first_found_one(run_entries(run.tables), key);
        } else {
            let before = kept_level(head, l, job);
            assert(lists_of(pruned) =~= lists_of(before) + seq![run_entries(run.tables)]);
            lemma_first_found_concat(lists_of(before), seq![run_entries(run.tables)], key);
        }
    }
}

/// What is found in levels one after the other.
pub proof fn lemma_levels_push(levels: Seq<Seq<RunView>>, key: Seq<u8>)
    requires
        levels.len() > 0,
    ensures
        levels_find(levels, key) == match levels_find(levels.drop_last(), key) {
            Some(value) => Some(value),
            None => first_found(lists_of(levels.last()), key),
        },
{
    let head = levels.drop_last();
    assert(lists_of(all_runs(levels)) =~= lists_of(all_runs(head)) + lists_of(levels.last()));
    lemma_first_found_concat(lists_of(all_runs(head)), lists_of(levels.last()), key);
}

/// The first levels.
spec fn upto(levels: Seq<Seq<RunView>>, m: int) -> Seq<Seq<RunView>> {
    if m < levels.len() {
        levels.take(m)
    } else {
        levels
    }
}

/// The lists of the first levels, with the merge put in before the target.
spec fn placed(
    levels: Seq<Seq<RunView>>,
    job: CompactionJob,
    merged: Seq<EntryView>,
    m: int,
) -> Seq<Seq<EntryView>> {
    let kept = lists_kept(upto(levels, m), job);
    if m <= job.target_level {
        kept
    } else {
        let p = lists_kept(upto(levels, job.target_level as int), job).len() as int;
        kept.take(p) + seq![merged] + kept.skip(p)
    }
}

/// The levels after a job say what its lists say, with the merge in its place.
proof fn lemma_after_is_placed(
    levels: Seq<Seq<RunView>>,
    job: CompactionJob,
    run: Option<RunView>,
    merged: Seq<EntryView>,
    m: int,
    key: Seq<u8>,
)
    requires
        0 <= m <= levels_after(levels, job, run).len(),
        match run {
            Some(run) => run_entries(run.tables) == merged,
            None => merged.len() == 0,
        },
    ensures
        levels_find(levels_after(levels, job, run).take(m), key) == first_found(
            placed(levels, job, merged, m),
            key,
        ),
    decreases m,
{
    let after = levels_after(levels, job, run);
    let t = job.target_level as int;
    if m == 0 {
        assert(upto(levels, 0) =~= Seq::<Seq<RunView>>::empty());
        assert(lists_of(all_runs(after.take(0))) =~= placed(levels, job, merged, 0));
    } else {
        let l = m - 1;
        lemma_after_is_placed(levels, job, run, merged, l, key);
        assert(after.take(m).drop_last() =~= after.take(l));
        assert(after.take(m).last() == level_after(levels, job, run, l));
        lemma_levels_push(after.take(m), key);
        let level = if l < levels.len() {
            levels[l]
        } else {
            Seq::empty()
        };
        let before = lists_kept(upto(levels, l), job);
        let kept = lists_kept(upto(levels, m), job);
        let added = level_kept(level, l, job);
        assert(kept =~= before + added) by {
            if l < levels.len() {
                assert(upto(levels, m) =~= levels.take(m));
                assert(levels.take(m).drop_last() =~= upto(levels, l));
                assert(levels.take(m).last() == levels[l]);
            }
        }
        let pruned = kept_level(level, l, job);
        lemma_kept_level_finds(level, l, job, key);
        let now = placed(levels, job, merged, m);
        let was = placed(levels, job, merged, l);
        if m <= t {
            assert(now =~= was + added);
            lemma_first_found_concat(was, added, key);
        } else if l == t {
            let p = before.len() as int;
            assert(now =~= was + seq![merged] + added) by {
                assert(kept.take(p) =~= before);
                assert(kept.skip(p) =~= added);
            }
            lemma_first_found_concat(was + seq![merged], added, key);
            lemma_first_found_concat(was, seq![merged], key);
            lemma_first_found_one(merged, key);
            match run {
                Some(run) => {
                    assert(lists_of(with_run(pruned, Some(run))) =~= seq![merged] + lists_of(
                        pruned,
                    ));
                    lemma_first_found_concat(seq![merged], lists_of(pruned), key);
                },
                None => {
                    assert(!has_key(merged, key));
                },
            }
        } else {
            let p = lists_kept(upto(levels, t), job).len() as int;
            lemma_kept_grows(levels, job, t, l);
            assert(now =~= was + added) by {
                assert(kept.take(p) =~= before.take(p));
                assert(kept.skip(p) =~= before.skip(p) + added);
            }
            lemma_first_found_concat(was, added, key);
        }
    }
}

proof fn lemma_kept_grows(levels: Seq<Seq<RunView>>, job: CompactionJob, a: int, b: int)
    requires
        0 <= a <= b,
    ensures
        lists_kept(upto(levels, a), job).len() <= lists_kept(upto(levels, b), job).len(),
    decreases b - a,
{
    if a < b {
        lemma_kept_grows(levels, job, a, b - 1);
        if b <= levels.len() {
            assert(upto(levels, b) =~= levels.take(b));
            assert(levels.take(b).drop_last() =~= upto(levels, b - 1));
        }
    }
}

/// Performing a safe job changes nothing that can be seen of any key: once the
/// merge of what the job takes is written as a run in front of the target
/// level, every lookup answers as before.
pub proof fn law_safe_jobs_are_invisible(
    levels: Seq<Seq<RunView>>,
    tree: TreeShape,
    job: CompactionJob,
    run: Option<RunView>,
    merged: Seq<EntryView>,
    key: Seq<u8>,
)
    requires
        levels_intact(levels),
        shows(tree, levels),
        safe(tree, job),
        find(merged, key) == without_tombstone(
            first_found(lists_taken(levels, job), key),
            job.drop_tombstones,
        ),
        match run {
            Some(run) => run_entries(run.tables) == merged,
            None => merged.len() == 0,
        },
    ensures
        without_tombstone(levels_find(levels_after(levels, job, run), key), true)
            == without_tombstone(levels_find(levels, key), true),
{
    let after = levels_after(levels, job, run);
    let t = job.target_level as int;
    let m = after.len() as int;
    lemma_job_is_invisible(levels, tree, job, merged, key);
    lemma_after_is_placed(levels, job, run, merged, m, key);
    assert(after.take(m) =~= after);
    assert(upto(levels, m) =~= levels);
    lemma_lists_len(upto(levels, t), job);
    assert(placed(levels, job, merged, m) =~= {
        let p = runs_above(levels, t) as int;
        let kept = lists_kept(levels, job);
        kept.take(p) + seq![merged] + kept.skip(p)
    });
}

} // verus!
