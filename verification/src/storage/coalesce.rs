//! Folding the runs of a level that do not overlap into one.
//!
//! A run is a list of tables with disjoint ranges, so runs that do not overlap
//! each other make one run together, and no table is read or rewritten for it.
//! That is what keeps one run per level where a compaction of a key range
//! leaves its output beside what is already there, or in a gap of it.

use vstd::prelude::*;

use super::entries::{find, has_key, lemma_find_concat, EntryView};
use super::levels::{
    lemma_first_found_is, lemma_first_found_one, lemma_key_of_table, lemma_nothing_found,
    lemma_table_finds, lemma_table_in_run, lemma_tables_disjoint, lists_of,
};
use super::merge::{first_found, lemma_first_found_concat, lemma_first_found_none};
use super::order::{
    key_before, lemma_lex_asymmetric, lemma_lex_total, lemma_lex_transitive, lex_le, lex_lt,
    same_bytes,
};
use super::reader::SSTable;
use super::run::{
    intact, run_entries, run_intact, run_max, run_min, table_entries, tables_of, NamedTable,
    NamedView, Run, RunView,
};
use super::shape::saturated_count;
use super::sstable::TableView;

verus! {

/// The content of a list of runs.
pub open spec fn runs_of(runs: Seq<Run>) -> Seq<RunView> {
    Seq::new(runs.len(), |i: int| runs[i]@)
}

/// Every table of every run is open.
pub open spec fn runs_wf(runs: Seq<Run>) -> bool {
    forall|i: int| 0 <= i < runs.len() ==> (#[trigger] runs[i]).wf()
}

/// A run says where it begins and where it ends.
pub open spec fn ranged(run: RunView) -> bool {
    run_min(run.tables) is Some && run_max(run.tables) is Some
}

/// The key ranges of two tables are known, and do not meet.
pub open spec fn clear_of(a: TableView, b: TableView) -> bool {
    match (a.min_key(), a.max_key, b.min_key(), b.max_key) {
        (Some(min), Some(max), Some(other_min), Some(other_max)) => lex_lt(max, other_min)
            || lex_lt(other_max, min),
        _ => false,
    }
}

/// No table of one run meets a table of the other.
pub open spec fn runs_clear(a: RunView, b: RunView) -> bool {
    forall|f: int, g: int|
        #![trigger a.tables[f], b.tables[g]]
        0 <= f < a.tables.len() && 0 <= g < b.tables.len() ==> clear_of(
            a.tables[f].table,
            b.tables[g].table,
        )
}

/// No table of a run meets a table of another run.
pub open spec fn tables_disjoint(level: Seq<RunView>) -> bool {
    forall|i: int, j: int|
        #![trigger level[i], level[j]]
        0 <= i < j < level.len() ==> runs_clear(level[i], level[j])
}

/// In the order of their first keys, run `i` comes before run `j`.
pub open spec fn starts_first(level: Seq<RunView>, i: int, j: int) -> bool {
    let a = run_min(level[i].tables)->0;
    let b = run_min(level[j].tables)->0;
    lex_lt(a, b) || (a == b && i < j)
}

/// In the order of their first keys, each run ends before the next begins.
pub open spec fn ranges_disjoint(level: Seq<RunView>) -> bool {
    forall|i: int, j: int|
        #![trigger level[i], level[j]]
        0 <= i < level.len() && 0 <= j < level.len() && i != j && starts_first(level, i, j)
            ==> lex_lt(run_max(level[i].tables)->0, run_min(level[j].tables)->0)
}

/// Every run says where it begins and where it ends, and no two of them overlap: by
/// their ranges, or by the ranges of their tables.
pub open spec fn disjoint(level: Seq<RunView>) -> bool {
    &&& forall|i: int| 0 <= i < level.len() ==> ranged(#[trigger] level[i])
    &&& ranges_disjoint(level) || tables_disjoint(level)
}

/// A table begins before another; one without a first key begins before all
/// that have one.
pub open spec fn table_before(a: TableView, b: TableView) -> bool {
    match (a.min_key(), b.min_key()) {
        (Some(a), Some(b)) => lex_lt(a, b),
        (None, Some(_)) => true,
        _ => false,
    }
}

/// A table put in its place among sorted tables, behind those that begin alike.
pub open spec fn inserted(sorted: Seq<NamedView>, table: NamedView) -> Seq<NamedView>
    decreases sorted.len(),
{
    if sorted.len() == 0 || !table_before(table.table, sorted.last().table) {
        sorted.push(table)
    } else {
        inserted(sorted.drop_last(), table).push(sorted.last())
    }
}

/// Tables by their first keys, those that begin alike as they came.
pub open spec fn sorted(tables: Seq<NamedView>) -> Seq<NamedView>
    decreases tables.len(),
{
    if tables.len() == 0 {
        Seq::empty()
    } else {
        inserted(sorted(tables.drop_last()), tables.last())
    }
}

/// All tables of runs.
pub open spec fn all_tables(level: Seq<RunView>) -> Seq<NamedView>
    decreases level.len(),
{
    if level.len() == 0 {
        Seq::empty()
    } else {
        all_tables(level.drop_last()) + level.last().tables
    }
}

/// The largest sequence number of runs.
pub open spec fn newest(level: Seq<RunView>) -> nat
    decreases level.len(),
{
    if level.len() == 0 {
        0
    } else if level.last().sequence > newest(level.drop_last()) {
        level.last().sequence
    } else {
        newest(level.drop_last())
    }
}

/// The units of runs together.
pub open spec fn all_units(level: Seq<RunView>) -> nat
    decreases level.len(),
{
    if level.len() == 0 {
        0
    } else {
        all_units(level.drop_last()) + level.last().units
    }
}

/// A count that is at least one.
pub open spec fn some(count: nat) -> nat {
    if count == 0 {
        1
    } else {
        count
    }
}

/// A level after its runs were folded, if they can be.
pub open spec fn coalesced(level: Seq<RunView>) -> Seq<RunView> {
    if level.len() <= 1 || !disjoint(level) {
        level
    } else {
        seq![RunView {
            sequence: newest(level),
            units: some(saturated_count(all_units(level)) as nat),
            tables: sorted(all_tables(level)),
        }]
    }
}

// ---------------------------------------------------------------------------
// Why folding changes no answer
// ---------------------------------------------------------------------------

/// A table ends before another begins.
pub open spec fn in_front(a: TableView, b: TableView) -> bool {
    lex_lt(table_entries(a).last().0, table_entries(b)[0].0)
}

/// Readable tables, each of which ends before the next begins.
pub open spec fn lined_up(tables: Seq<NamedView>) -> bool {
    &&& forall|i: int| 0 <= i < tables.len() ==> intact((#[trigger] tables[i]).table)
    &&& forall|i: int, j: int|
        #![trigger tables[i], tables[j]]
        0 <= i < j < tables.len() ==> in_front(tables[i].table, tables[j].table)
}

/// Readable tables, of any two of which one ends before the other begins.
pub open spec fn apart(tables: Seq<NamedView>) -> bool {
    &&& forall|i: int| 0 <= i < tables.len() ==> intact((#[trigger] tables[i]).table)
    &&& forall|i: int, j: int|
        #![trigger tables[i], tables[j]]
        0 <= i < j < tables.len() ==> in_front(tables[i].table, tables[j].table) || in_front(
            tables[j].table,
            tables[i].table,
        )
}

/// An intact run is lined up.
#[verifier::rlimit(40)]
pub proof fn lemma_intact_is_lined_up(tables: Seq<NamedView>)
    requires
        run_intact(tables),
    ensures
        lined_up(tables),
    decreases tables.len(),
{
    if tables.len() > 0 {
        let head = tables.drop_last();
        let last = table_entries(tables.last().table);
        let all = run_entries(tables);
        lemma_find_concat(run_entries(head), last, Seq::empty());
        assert forall|i: int| 0 <= i < head.len() implies intact((#[trigger] head[i]).table) by {
            assert(head[i] == tables[i]);
        }
        lemma_intact_is_lined_up(head);
        assert forall|i: int, j: int|
            #![trigger tables[i], tables[j]]
            0 <= i < j < tables.len() implies in_front(tables[i].table, tables[j].table) by {
            assert(head[i] == tables[i]);
            if j < head.len() {
                assert(head[j] == tables[j]);
            } else {
                let entries = table_entries(tables[i].table);
                assert(intact(tables[i].table) && intact(tables[j].table));
                let at = lemma_table_in_run(head, i, entries.len() - 1);
                assert(all[at] == run_entries(head)[at]);
                assert(all[run_entries(head).len() as int] == last[0]);
            }
        }
    }
}

/// What is lined up makes an intact run.
pub proof fn lemma_lined_up_is_intact(tables: Seq<NamedView>)
    requires
        lined_up(tables),
    ensures
        run_intact(tables),
    decreases tables.len(),
{
    if tables.len() > 0 {
        let head = tables.drop_last();
        let last = table_entries(tables.last().table);
        let all = run_entries(tables);
        assert(lined_up(head)) by {
            assert forall|i: int| 0 <= i < head.len() implies intact(
                (#[trigger] head[i]).table,
            ) by {
                assert(head[i] == tables[i]);
            }
            assert forall|i: int, j: int|
                #![trigger head[i], head[j]]
                0 <= i < j < head.len() implies in_front(head[i].table, head[j].table) by {
                assert(head[i] == tables[i] && head[j] == tables[j]);
            }
        }
        lemma_lined_up_is_intact(head);
        assert(intact(tables[tables.len() - 1].table));
        let m = run_entries(head).len() as int;
        assert forall|a: int, b: int|
            #![trigger all[a], all[b]]
            0 <= a < b < all.len() implies lex_lt(all[a].0, all[b].0) by {
            if b < m {
                assert(all[a] == run_entries(head)[a] && all[b] == run_entries(head)[b]);
            } else if a >= m {
                assert(all[a] == last[a - m] && all[b] == last[b - m]);
            } else {
                assert(all[a] == run_entries(head)[a] && all[b] == last[b - m]);
                let key = all[a].0;
                assert(has_key(run_entries(head), key)) by {
                    assert(run_entries(head)[a].0 == key);
                }
                let f = lemma_key_of_table(head, key);
                assert(head[f] == tables[f]);
                let entries = table_entries(tables[f].table);
                assert(intact(tables[f].table));
                assert(in_front(tables[f].table, tables[tables.len() - 1].table));
                let c = choose|c: int| 0 <= c < entries.len() && (#[trigger] entries[c]).0 == key;
                if c < entries.len() - 1 {
                    assert(lex_lt(entries[c].0, entries[entries.len() - 1].0));
                    lemma_lex_transitive(key, entries.last().0, last[0].0);
                }
                if b > m {
                    assert(lex_lt(last[0].0, last[b - m].0));
                    lemma_lex_transitive(key, last[0].0, last[b - m].0);
                }
            }
        }
        assert forall|i: int| 0 <= i < tables.len() implies intact(
            (#[trigger] tables[i]).table,
        ) by {}
    }
}

/// What is put in its place is there, and nothing is lost.
proof fn lemma_inserted_holds(list: Seq<NamedView>, table: NamedView)
    ensures
        inserted(list, table).len() == list.len() + 1,
        inserted(list, table).contains(table),
        forall|i: int| 0 <= i < list.len() ==> inserted(list, table).contains(#[trigger] list[i]),
        forall|j: int|
            0 <= j < inserted(list, table).len() ==> (#[trigger] inserted(list, table)[j])
                == table || list.contains(inserted(list, table)[j]),
    decreases list.len(),
{
    let out = inserted(list, table);
    if list.len() == 0 || !table_before(table.table, list.last().table) {
        assert(out[list.len() as int] == table);
        assert forall|i: int| 0 <= i < list.len() implies out.contains(#[trigger] list[i]) by {
            assert(out[i] == list[i]);
        }
    } else {
        let head = list.drop_last();
        let before = inserted(head, table);
        lemma_inserted_holds(head, table);
        let at = choose|at: int| 0 <= at < before.len() && before[at] == table;
        assert(out[at] == table);
        assert forall|i: int| 0 <= i < list.len() implies out.contains(#[trigger] list[i]) by {
            if i < head.len() {
                assert(before.contains(head[i]));
                let c = choose|c: int| 0 <= c < before.len() && before[c] == head[i];
                assert(out[c] == list[i]);
            } else {
                assert(out[before.len() as int] == list[i]);
            }
        }
        assert forall|j: int| 0 <= j < out.len() implies (#[trigger] out[j]) == table
            || list.contains(out[j]) by {
            if j < before.len() {
                assert(out[j] == before[j]);
                if before[j] != table {
                    assert(head.contains(before[j]));
                    let c = choose|c: int| 0 <= c < head.len() && head[c] == before[j];
                    assert(list[c] == out[j]);
                }
            } else {
                assert(list[list.len() - 1] == out[j]);
            }
        }
    }
}

/// Sorting keeps the tables.
pub proof fn lemma_sorted_holds(tables: Seq<NamedView>)
    ensures
        sorted(tables).len() == tables.len(),
        forall|i: int| 0 <= i < tables.len() ==> sorted(tables).contains(#[trigger] tables[i]),
        forall|j: int| 0 <= j < tables.len() ==> tables.contains(#[trigger] sorted(tables)[j]),
    decreases tables.len(),
{
    let out = sorted(tables);
    if tables.len() > 0 {
        let head = tables.drop_last();
        let before = sorted(head);
        lemma_sorted_holds(head);
        lemma_inserted_holds(before, tables.last());
        assert forall|i: int| 0 <= i < tables.len() implies out.contains(#[trigger] tables[i]) by {
            if i < head.len() {
                assert(before.contains(head[i]));
                let c = choose|c: int| 0 <= c < before.len() && before[c] == head[i];
                assert(out.contains(before[c]));
            }
        }
        assert forall|j: int| 0 <= j < tables.len() implies tables.contains(#[trigger] out[j]) by {
            if out[j] == tables.last() {
                assert(tables[tables.len() - 1] == out[j]);
            } else {
                assert(before.contains(out[j]));
                let c = choose|c: int| 0 <= c < before.len() && before[c] == out[j];
                assert(head.contains(before[c]));
                let d = choose|d: int| 0 <= d < head.len() && head[d] == before[c];
                assert(tables[d] == out[j]);
            }
        }
    }
}

/// Of two readable tables, the one that is in front begins before the other.
proof fn lemma_in_front_is_before(a: TableView, b: TableView)
    requires
        intact(a),
        intact(b),
        in_front(a, b),
    ensures
        table_before(a, b),
        !table_before(b, a),
{
    let x = table_entries(a);
    let y = table_entries(b);
    if x.len() > 1 {
        assert(lex_lt(x[0].0, x[x.len() - 1].0));
        lemma_lex_transitive(x[0].0, x.last().0, y[0].0);
    }
    lemma_lex_asymmetric(x[0].0, y[0].0);
}

/// A table that is apart from tables lined up lines up with them in its place.
proof fn lemma_inserted_lines_up(list: Seq<NamedView>, table: NamedView)
    requires
        lined_up(list),
        intact(table.table),
        forall|i: int|
            0 <= i < list.len() ==> in_front((#[trigger] list[i]).table, table.table) || in_front(
                table.table,
                list[i].table,
            ),
    ensures
        lined_up(inserted(list, table)),
    decreases list.len(),
{
    let out = inserted(list, table);
    if list.len() == 0 {
    } else {
        let head = list.drop_last();
        let n = list.len() - 1;
        assert(intact(list[n].table));
        if !table_before(table.table, list.last().table) {
            if in_front(table.table, list[n].table) {
                lemma_in_front_is_before(table.table, list[n].table);
            }
            assert forall|i: int, j: int|
                #![trigger out[i], out[j]]
                0 <= i < j < out.len() implies in_front(out[i].table, out[j].table) by {
                assert(out[i] == list[i]);
                if j < list.len() {
                    assert(out[j] == list[j]);
                } else if i < n {
                    assert(in_front(list[i].table, list[n].table));
                    let x = table_entries(list[n].table);
                    let first = x[0].0;
                    let last = table_entries(list[i].table).last().0;
                    if x.len() > 1 {
                        assert(lex_lt(x[0].0, x[x.len() - 1].0));
                        lemma_lex_transitive(last, first, x.last().0);
                    }
                    lemma_lex_transitive(last, x.last().0, table_entries(table.table)[0].0);
                }
            }
            assert forall|i: int| 0 <= i < out.len() implies intact((#[trigger] out[i]).table) by {
                if i < list.len() {
                    assert(out[i] == list[i]);
                }
            }
        } else {
            let before = inserted(head, table);
            if in_front(list[n].table, table.table) {
                lemma_in_front_is_before(list[n].table, table.table);
            }
            assert(lined_up(head)) by {
                assert forall|i: int| 0 <= i < head.len() implies intact(
                    (#[trigger] head[i]).table,
                ) by {
                    assert(head[i] == list[i]);
                }
                assert forall|i: int, j: int|
                    #![trigger head[i], head[j]]
                    0 <= i < j < head.len() implies in_front(head[i].table, head[j].table) by {
                    assert(head[i] == list[i] && head[j] == list[j]);
                }
            }
            assert forall|i: int| 0 <= i < head.len() implies in_front(
                (#[trigger] head[i]).table,
                table.table,
            ) || in_front(table.table, head[i].table) by {
                assert(head[i] == list[i]);
            }
            lemma_inserted_lines_up(head, table);
            lemma_inserted_holds(head, table);
            assert forall|i: int, j: int|
                #![trigger out[i], out[j]]
                0 <= i < j < out.len() implies in_front(out[i].table, out[j].table) by {
                assert(out[i] == before[i]);
                if j < before.len() {
                    assert(out[j] == before[j]);
                } else if before[i] != table {
                    assert(head.contains(before[i]));
                    let c = choose|c: int| 0 <= c < head.len() && head[c] == before[i];
                    assert(list[c] == out[i]);
                    assert(in_front(list[c].table, list[n].table));
                }
            }
            assert forall|i: int| 0 <= i < out.len() implies intact((#[trigger] out[i]).table) by {
                if i < before.len() {
                    assert(out[i] == before[i]);
                }
            }
        }
    }
}

/// Tables that are apart line up when they are sorted.
pub proof fn lemma_sorted_lines_up(tables: Seq<NamedView>)
    requires
        apart(tables),
    ensures
        lined_up(sorted(tables)),
    decreases tables.len(),
{
    if tables.len() > 0 {
        let head = tables.drop_last();
        let n = tables.len() - 1;
        assert(apart(head)) by {
            assert forall|i: int| 0 <= i < head.len() implies intact(
                (#[trigger] head[i]).table,
            ) by {
                assert(head[i] == tables[i]);
            }
            assert forall|i: int, j: int|
                #![trigger head[i], head[j]]
                0 <= i < j < head.len() implies in_front(head[i].table, head[j].table) || in_front(
                head[j].table,
                head[i].table,
            ) by {
                assert(head[i] == tables[i] && head[j] == tables[j]);
            }
        }
        lemma_sorted_lines_up(head);
        lemma_sorted_holds(head);
        let before = sorted(head);
        assert(intact(tables[n].table));
        assert forall|i: int| 0 <= i < before.len() implies in_front(
            (#[trigger] before[i]).table,
            tables[n].table,
        ) || in_front(tables[n].table, before[i].table) by {
            assert(head.contains(before[i]));
            let c = choose|c: int| 0 <= c < head.len() && head[c] == before[i];
            assert(tables[c] == before[i]);
        }
        lemma_inserted_lines_up(before, tables.last());
    }
}

/// Where a table of runs comes from.
proof fn lemma_table_of_run(level: Seq<RunView>, a: int) -> (place: (int, int))
    requires
        0 <= a < all_tables(level).len(),
    ensures
        0 <= place.0 < level.len(),
        0 <= place.1 < level[place.0].tables.len(),
        level[place.0].tables[place.1] == all_tables(level)[a],
    decreases level.len(),
{
    let head = level.drop_last();
    if a < all_tables(head).len() {
        let place = lemma_table_of_run(head, a);
        assert(head[place.0] == level[place.0]);
        place
    } else {
        (level.len() - 1, a - all_tables(head).len())
    }
}

/// A table of an intact run lies within the range of the run.
proof fn lemma_table_within_run(tables: Seq<NamedView>, f: int)
    requires
        run_intact(tables),
        0 <= f < tables.len(),
    ensures
        run_min(tables) matches Some(min) && lex_le(min, table_entries(tables[f].table)[0].0),
        run_max(tables) matches Some(max) && lex_le(
            table_entries(tables[f].table).last().0,
            max,
        ),
{
    lemma_intact_is_lined_up(tables);
    let n = tables.len() - 1;
    assert(intact(tables[0].table) && intact(tables[f].table) && intact(tables[n].table));
    if f > 0 {
        assert(in_front(tables[0].table, tables[f].table));
        let x = table_entries(tables[0].table);
        if x.len() > 1 {
            assert(lex_lt(x[0].0, x[x.len() - 1].0));
            lemma_lex_transitive(x[0].0, x.last().0, table_entries(tables[f].table)[0].0);
        }
    }
    if f < n {
        assert(in_front(tables[f].table, tables[n].table));
        let x = table_entries(tables[n].table);
        if x.len() > 1 {
            assert(lex_lt(x[0].0, x[x.len() - 1].0));
            lemma_lex_transitive(
                table_entries(tables[f].table).last().0,
                x[0].0,
                x.last().0,
            );
        }
    }
}

proof fn lemma_between(a: Seq<u8>, b: Seq<u8>, c: Seq<u8>, d: Seq<u8>)
    requires
        lex_le(a, b),
        lex_lt(b, c),
        lex_le(c, d),
    ensures
        lex_lt(a, d),
{
    if a != b {
        lemma_lex_transitive(a, b, c);
    }
    if c != d {
        lemma_lex_transitive(a, c, d);
    }
}

/// The tables of intact runs whose ranges do not overlap do not meet.
proof fn lemma_ranges_are_clear(level: Seq<RunView>)
    requires
        forall|r: int| 0 <= r < level.len() ==> run_intact((#[trigger] level[r]).tables),
        forall|r: int| 0 <= r < level.len() ==> ranged(#[trigger] level[r]),
        ranges_disjoint(level),
    ensures
        tables_disjoint(level),
{
    assert forall|i: int, j: int|
        #![trigger level[i], level[j]]
        0 <= i < j < level.len() implies runs_clear(level[i], level[j]) by {
        let a = level[i].tables;
        let b = level[j].tables;
        assert(ranged(level[i]) && ranged(level[j]));
        assert(run_intact(level[i].tables) && run_intact(level[j].tables));
        lemma_lex_total(run_min(a)->0, run_min(b)->0);
        assert forall|f: int, g: int|
            #![trigger a[f], b[g]]
            0 <= f < a.len() && 0 <= g < b.len() implies clear_of(a[f].table, b[g].table) by {
            lemma_table_within_run(a, f);
            lemma_table_within_run(b, g);
            assert(intact(a[f].table) && intact(b[g].table));
            if starts_first(level, i, j) {
                lemma_between(
                    table_entries(a[f].table).last().0,
                    run_max(a)->0,
                    run_min(b)->0,
                    table_entries(b[g].table)[0].0,
                );
            } else {
                assert(starts_first(level, j, i));
                lemma_between(
                    table_entries(b[g].table).last().0,
                    run_max(b)->0,
                    run_min(a)->0,
                    table_entries(a[f].table)[0].0,
                );
            }
        }
    }
}

/// The tables of intact runs that do not meet are apart.
proof fn lemma_clear_is_apart(level: Seq<RunView>)
    requires
        forall|r: int| 0 <= r < level.len() ==> run_intact((#[trigger] level[r]).tables),
        tables_disjoint(level),
    ensures
        apart(all_tables(level)),
    decreases level.len(),
{
    if level.len() > 0 {
        let head = level.drop_last();
        let n = level.len() - 1;
        assert forall|r: int| 0 <= r < head.len() implies run_intact(
            (#[trigger] head[r]).tables,
        ) by {
            assert(head[r] == level[r]);
        }
        assert forall|i: int, j: int|
            #![trigger head[i], head[j]]
            0 <= i < j < head.len() implies runs_clear(head[i], head[j]) by {
            assert(head[i] == level[i] && head[j] == level[j]);
        }
        lemma_clear_is_apart(head);
        let before = all_tables(head);
        let last = level[n].tables;
        assert(run_intact(level[n].tables));
        lemma_intact_is_lined_up(last);
        let all = all_tables(level);
        let m = before.len() as int;
        assert forall|i: int| 0 <= i < all.len() implies intact((#[trigger] all[i]).table) by {
            if i < m {
                assert(all[i] == before[i]);
            } else {
                assert(all[i] == last[i - m]);
            }
        }
        assert forall|i: int, j: int|
            #![trigger all[i], all[j]]
            0 <= i < j < all.len() implies in_front(all[i].table, all[j].table) || in_front(
            all[j].table,
            all[i].table,
        ) by {
            if j < m {
                assert(all[i] == before[i] && all[j] == before[j]);
            } else if i >= m {
                assert(all[i] == last[i - m] && all[j] == last[j - m]);
            } else {
                assert(all[i] == before[i] && all[j] == last[j - m]);
                let (r, f) = lemma_table_of_run(head, i);
                assert(head[r] == level[r]);
                assert(run_intact(level[r].tables));
                assert(runs_clear(level[r], level[n]));
                assert(clear_of(level[r].tables[f].table, level[n].tables[j - m].table));
                assert(intact(level[r].tables[f].table) && intact(last[j - m].table));
            }
        }
    }
}

/// The entries of each table.
spec fn table_lists(tables: Seq<NamedView>) -> Seq<Seq<EntryView>> {
    Seq::new(tables.len(), |i: int| table_entries(tables[i].table))
}

/// A run says of a key what the first of its tables that has it says.
proof fn lemma_run_by_tables(tables: Seq<NamedView>, key: Seq<u8>)
    requires
        run_intact(tables),
    ensures
        find(run_entries(tables), key) == first_found(table_lists(tables), key),
{
    let lists = table_lists(tables);
    if has_key(run_entries(tables), key) {
        let f = lemma_key_of_table(tables, key);
        lemma_table_finds(tables, f, key);
        assert forall|j: int| 0 <= j < f implies !has_key(#[trigger] lists[j], key) by {
            if has_key(lists[j], key) {
                lemma_tables_disjoint(tables, j, f, key);
            }
        }
        lemma_first_found_is(lists, key, f);
    } else {
        assert forall|j: int| 0 <= j < lists.len() implies !has_key(#[trigger] lists[j], key) by {
            if has_key(lists[j], key) {
                lemma_table_finds(tables, j, key);
            }
        }
        lemma_nothing_found(lists, key);
    }
}

/// Runs say of a key what the first of all their tables that has it says.
proof fn lemma_runs_by_tables(level: Seq<RunView>, key: Seq<u8>)
    requires
        forall|r: int| 0 <= r < level.len() ==> run_intact((#[trigger] level[r]).tables),
    ensures
        first_found(lists_of(level), key) == first_found(table_lists(all_tables(level)), key),
    decreases level.len(),
{
    if level.len() == 0 {
        assert(lists_of(level) =~= table_lists(all_tables(level)));
    } else {
        let head = level.drop_last();
        let n = level.len() - 1;
        assert forall|r: int| 0 <= r < head.len() implies run_intact(
            (#[trigger] head[r]).tables,
        ) by {
            assert(head[r] == level[r]);
        }
        lemma_runs_by_tables(head, key);
        assert(run_intact(level[n].tables));
        lemma_run_by_tables(level[n].tables, key);
        let last = seq![run_entries(level[n].tables)];
        assert(lists_of(level) =~= lists_of(head) + last);
        lemma_first_found_concat(lists_of(head), last, key);
        lemma_first_found_one(run_entries(level[n].tables), key);
        assert(table_lists(all_tables(level)) =~= table_lists(all_tables(head)) + table_lists(
            level[n].tables,
        ));
        lemma_first_found_concat(
            table_lists(all_tables(head)),
            table_lists(level[n].tables),
            key,
        );
    }
}

/// The same tables in another order, no two of which share a key, say the same.
proof fn lemma_order_is_irrelevant(a: Seq<NamedView>, b: Seq<NamedView>, key: Seq<u8>)
    requires
        run_intact(b),
        forall|i: int| 0 <= i < a.len() ==> b.contains(#[trigger] a[i]),
        forall|j: int| 0 <= j < b.len() ==> a.contains(#[trigger] b[j]),
    ensures
        first_found(table_lists(a), key) == first_found(table_lists(b), key),
{
    let x = table_lists(a);
    let y = table_lists(b);
    lemma_first_found_none(x, key);
    lemma_first_found_none(y, key);
    lemma_run_by_tables(b, key);
    if first_found(x, key) is Some {
        let i = first_holding(x, key);
        lemma_first_holding(x, key);
        assert(b.contains(a[i]));
        let j = choose|j: int| 0 <= j < b.len() && b[j] == a[i];
        assert(y[j] == x[i]);
        lemma_table_finds(b, j, key);
    } else if first_found(y, key) is Some {
        let j = first_holding(y, key);
        lemma_first_holding(y, key);
        assert(a.contains(b[j]));
        let i = choose|i: int| 0 <= i < a.len() && a[i] == b[j];
        assert(x[i] == y[j]);
        assert(find(x[i], key) is None);
    }
}

spec fn first_holding(lists: Seq<Seq<EntryView>>, key: Seq<u8>) -> int
    decreases lists.len(),
{
    if lists.len() == 0 || find(lists[0], key) is Some {
        0
    } else {
        1 + first_holding(lists.drop_first(), key)
    }
}

proof fn lemma_first_holding(lists: Seq<Seq<EntryView>>, key: Seq<u8>)
    requires
        first_found(lists, key) is Some,
    ensures
        0 <= first_holding(lists, key) < lists.len(),
        find(lists[first_holding(lists, key)], key) == first_found(lists, key),
        has_key(lists[first_holding(lists, key)], key),
    decreases lists.len(),
{
    if find(lists[0], key) is None {
        lemma_first_holding(lists.drop_first(), key);
    }
}

/// Folding the runs of a level changes nothing that the level says, and leaves
/// every run readable.
pub proof fn law_coalescing_is_invisible(level: Seq<RunView>, key: Seq<u8>)
    requires
        forall|r: int| 0 <= r < level.len() ==> run_intact((#[trigger] level[r]).tables),
    ensures
        first_found(lists_of(coalesced(level)), key) == first_found(lists_of(level), key),
        forall|r: int|
            0 <= r < coalesced(level).len() ==> run_intact((#[trigger] coalesced(level)[r]).tables),
{
    if level.len() > 1 && disjoint(level) {
        let tables = all_tables(level);
        let list = sorted(tables);
        if ranges_disjoint(level) {
            lemma_ranges_are_clear(level);
        }
        lemma_clear_is_apart(level);
        lemma_sorted_lines_up(tables);
        lemma_lined_up_is_intact(list);
        lemma_sorted_holds(tables);
        lemma_order_is_irrelevant(tables, list, key);
        lemma_runs_by_tables(level, key);
        lemma_run_by_tables(list, key);
        lemma_first_found_one(run_entries(list), key);
        assert(lists_of(coalesced(level)) =~= seq![run_entries(list)]);
    }
}

// ---------------------------------------------------------------------------
// Folding
// ---------------------------------------------------------------------------

/// Whether a table begins before another.
fn begins_before(a: &SSTable, b: &SSTable) -> (before: bool)
    ensures
        before == table_before(a@, b@),
{
    match (a.min_key(), b.min_key()) {
        (Some(a), Some(b)) => key_before(a.as_slice(), b.as_slice()),
        (None, Some(_)) => true,
        _ => false,
    }
}

/// Puts a table in its place.
fn insert_sorted(tables: &mut Vec<NamedTable>, table: NamedTable)
    ensures
        tables_of(final(tables)@) == inserted(tables_of(old(tables)@), table@),
        (forall|i: int| 0 <= i < old(tables)@.len() ==> (#[trigger] old(tables)@[i]).table.wf())
            && table.table.wf() ==> (forall|i: int|
            0 <= i < final(tables)@.len() ==> (#[trigger] final(tables)@[i]).table.wf()),
{
    let ghost before = tables_of(tables@);
    let mut at: usize = tables.len();
    proof {
        assert(before.take(at as int) =~= before);
        assert(before.skip(at as int) =~= Seq::<NamedView>::empty());
        assert(inserted(before, table@) =~= inserted(before.take(at as int), table@)
            + before.skip(at as int));
    }
    while at > 0 && begins_before(&table.table, &tables[at - 1].table)
        invariant
            at <= tables@.len(),
            before == tables_of(tables@),
            inserted(before, table@) == inserted(before.take(at as int), table@) + before.skip(
                at as int,
            ),
        decreases at,
    {
        proof {
            let was = before.take(at as int);
            assert(was.last() == before[at - 1]);
            assert(was.drop_last() =~= before.take(at - 1));
            assert(inserted(was, table@) + before.skip(at as int) =~= inserted(
                before.take(at - 1),
                table@,
            ) + before.skip(at - 1));
        }
        at = at - 1;
    }
    proof {
        if at > 0 {
            assert(before.take(at as int).last() == before[at - 1]);
        }
        assert(inserted(before.take(at as int), table@) == before.take(at as int).push(table@));
    }
    let ghost shown = table@;
    let ghost was = tables@;
    tables.insert(at, table);
    proof {
        assert(tables_of(tables@) =~= before.take(at as int).push(shown) + before.skip(at as int));
        assert forall|i: int|
            (forall|i: int| 0 <= i < was.len() ==> (#[trigger] was[i]).table.wf())
                && table.table.wf() && 0 <= i < tables@.len() implies (
        #[trigger] tables@[i]).table.wf() by {
            if i < at {
                assert(tables@[i] == was[i]);
            } else if i > at {
                assert(tables@[i] == was[i - 1]);
            }
        }
    }
}

/// Whether the key ranges of two tables are known, and do not meet.
fn is_clear_of(a: &SSTable, b: &SSTable) -> (clear: bool)
    ensures
        clear == clear_of(a@, b@),
{
    match (a.min_key(), a.max_key(), b.min_key(), b.max_key()) {
        (Some(min), Some(max), Some(other_min), Some(other_max)) => key_before(
            max.as_slice(),
            other_min.as_slice(),
        ) || key_before(other_max.as_slice(), min.as_slice()),
        _ => false,
    }
}

/// Whether no table of one run meets a table of the other.
fn are_clear(a: &Run, b: &Run) -> (clear: bool)
    ensures
        clear == runs_clear(a@, b@),
{
    let ghost left = a@.tables;
    let ghost right = b@.tables;
    let mut f: usize = 0;
    while f < a.tables.len()
        invariant
            f <= a.tables@.len(),
            left == a@.tables,
            right == b@.tables,
            forall|k: int, g: int|
                #![trigger left[k], right[g]]
                0 <= k < f && 0 <= g < right.len() ==> clear_of(left[k].table, right[g].table),
        decreases a.tables@.len() - f,
    {
        let mut g: usize = 0;
        while g < b.tables.len()
            invariant
                f < a.tables@.len(),
                g <= b.tables@.len(),
                left == a@.tables,
                right == b@.tables,
                forall|k: int|
                    #![trigger right[k]]
                    0 <= k < g ==> clear_of(left[f as int].table, right[k].table),
            decreases b.tables@.len() - g,
        {
            proof {
                assert(left[f as int] == a.tables@[f as int]@);
                assert(right[g as int] == b.tables@[g as int]@);
            }
            if !is_clear_of(&a.tables[f].table, &b.tables[g].table) {
                return false;
            }
            g = g + 1;
        }
        f = f + 1;
    }
    true
}

/// Whether run `i`, in the order of first keys, comes before run `j` without
/// ending before it begins; runs without a range count as such.
fn clash(level: &Vec<Run>, i: usize, j: usize) -> (clash: bool)
    requires
        i < level@.len(),
        j < level@.len(),
        i != j,
    ensures
        ranged(level@[i as int]@) && ranged(level@[j as int]@) ==> clash == (starts_first(
            runs_of(level@),
            i as int,
            j as int,
        ) && !lex_lt(run_max(level@[i as int]@.tables)->0, run_min(level@[j as int]@.tables)->0)),
{
    match (level[i].min_key(), level[i].max_key(), level[j].min_key()) {
        (Some(min), Some(max), Some(next)) => {
            let first: bool = key_before(min.as_slice(), next.as_slice()) || (same_bytes(
                min.as_slice(),
                next.as_slice(),
            ) && i < j);
            first && !key_before(max.as_slice(), next.as_slice())
        },
        _ => true,
    }
}

/// Whether each run, in the order of first keys, ends before the next begins.
fn are_ranges_disjoint(level: &Vec<Run>) -> (are: bool)
    requires
        forall|k: int| 0 <= k < level@.len() ==> ranged(#[trigger] runs_of(level@)[k]),
    ensures
        are == ranges_disjoint(runs_of(level@)),
{
    let ghost view = runs_of(level@);
    let mut i: usize = 0;
    while i < level.len()
        invariant
            i <= level@.len(),
            view == runs_of(level@),
            forall|k: int| 0 <= k < view.len() ==> ranged(#[trigger] view[k]),
            forall|k: int, j: int|
                #![trigger view[k], view[j]]
                0 <= k < i && 0 <= j < view.len() && k != j && starts_first(view, k, j) ==> lex_lt(
                    run_max(view[k].tables)->0,
                    run_min(view[j].tables)->0,
                ),
        decreases level@.len() - i,
    {
        let mut j: usize = 0;
        while j < level.len()
            invariant
                i < level@.len(),
                j <= level@.len(),
                view == runs_of(level@),
                forall|k: int| 0 <= k < view.len() ==> ranged(#[trigger] view[k]),
                forall|k: int|
                    #![trigger view[k]]
                    0 <= k < j && i != k && starts_first(view, i as int, k) ==> lex_lt(
                        run_max(view[i as int].tables)->0,
                        run_min(view[k].tables)->0,
                    ),
            decreases level@.len() - j,
        {
            proof {
                assert(view[i as int] == level@[i as int]@);
                assert(view[j as int] == level@[j as int]@);
                assert(ranged(view[i as int]) && ranged(view[j as int]));
            }
            if i != j && clash(level, i, j) {
                return false;
            }
            j = j + 1;
        }
        i = i + 1;
    }
    true
}

/// Whether no table of a run meets a table of another run.
fn are_tables_disjoint(level: &Vec<Run>) -> (are: bool)
    ensures
        are == tables_disjoint(runs_of(level@)),
{
    let ghost view = runs_of(level@);
    let mut j: usize = 0;
    while j < level.len()
        invariant
            j <= level@.len(),
            view == runs_of(level@),
            forall|k: int, l: int|
                #![trigger view[k], view[l]]
                0 <= k < l < j ==> runs_clear(view[k], view[l]),
        decreases level@.len() - j,
    {
        let mut i: usize = 0;
        while i < j
            invariant
                i <= j < level@.len(),
                view == runs_of(level@),
                forall|k: int|
                    #![trigger view[k]]
                    0 <= k < i ==> runs_clear(view[k], view[j as int]),
            decreases j - i,
        {
            proof {
                assert(view[i as int] == level@[i as int]@);
                assert(view[j as int] == level@[j as int]@);
            }
            if !are_clear(&level[i], &level[j]) {
                return false;
            }
            i = i + 1;
        }
        j = j + 1;
    }
    true
}

/// Whether the runs of a level do not overlap.
fn are_disjoint(level: &Vec<Run>) -> (are: bool)
    ensures
        are == disjoint(runs_of(level@)),
{
    let ghost view = runs_of(level@);
    let mut i: usize = 0;
    while i < level.len()
        invariant
            i <= level@.len(),
            view == runs_of(level@),
            forall|k: int| 0 <= k < i ==> ranged(#[trigger] view[k]),
        decreases level@.len() - i,
    {
        proof {
            assert(view[i as int] == level@[i as int]@);
        }
        if level[i].min_key().is_none() || level[i].max_key().is_none() {
            return false;
        }
        i = i + 1;
    }
    are_ranges_disjoint(level) || are_tables_disjoint(level)
}

/// Folds the runs of a level into one if they do not overlap, by their ranges or by
/// those of their tables, and leaves the level untouched otherwise: folding
/// overlapping runs would put two versions of a key into one run, with no way to tell
/// which is newer. A run that does not say where it begins and ends is left as well.
///
/// A run is a list of tables, so folding rewrites nothing. It is what keeps one run
/// per level when a merge leaves its output beside what was there, or in a gap of it.
pub fn coalesce_disjoint_runs(level: &mut Vec<Run>)
    requires
        runs_wf(old(level)@),
    ensures
        runs_of(final(level)@) == coalesced(runs_of(old(level)@)),
        runs_wf(final(level)@),
{
    let ghost view = runs_of(level@);
    if level.len() <= 1 {
        return;
    }
    if !are_disjoint(level) {
        return;
    }
    let mut sequence: u64 = 0;
    let mut units: usize = 0;
    let mut i: usize = 0;
    while i < level.len()
        invariant
            i <= level@.len(),
            view == runs_of(level@),
            sequence == newest(view.take(i as int)),
            units == saturated_count(all_units(view.take(i as int))),
        decreases level@.len() - i,
    {
        proof {
            assert(view.take(i + 1).drop_last() =~= view.take(i as int));
            assert(view.take(i + 1).last() == level@[i as int]@);
        }
        if level[i].sequence > sequence {
            sequence = level[i].sequence;
        }
        units = units.saturating_add(level[i].units);
        i = i + 1;
    }
    proof {
        assert(view.take(i as int) =~= view);
    }
    let mut tables: Vec<NamedTable> = Vec::new();
    let ghost count = view.len() as int;
    proof {
        assert(view.skip(0) =~= view);
        assert(tables_of(tables@) =~= sorted(all_tables(view.take(0))));
    }
    while level.len() > 0
        invariant
            level@.len() <= count == view.len(),
            runs_of(level@) == view.skip(count - level@.len()),
            runs_wf(level@),
            forall|k: int| 0 <= k < tables@.len() ==> (#[trigger] tables@[k]).table.wf(),
            tables_of(tables@) == sorted(all_tables(view.take(count - level@.len()))),
        decreases level@.len(),
    {
        let ghost done = count - level@.len();
        let ghost was = level@;
        let mut run: Run = level.remove(0);
        let ghost moved = tables_of(run.tables@);
        let ghost total = moved.len() as int;
        proof {
            assert(runs_of(was)[0] == view[done]);
            assert(run@ == view[done]);
            assert forall|k: int| 0 <= k < level@.len() implies runs_of(level@)[k] == view.skip(
                done + 1,
            )[k] by {
                assert(level@[k] == was[k + 1]);
                assert(runs_of(was)[k + 1] == view.skip(done)[k + 1]);
            }
            assert(runs_of(level@) =~= view.skip(done + 1));
            assert(was[0].wf());
            assert forall|k: int| 0 <= k < level@.len() implies (#[trigger] level@[k]).wf() by {
                assert(level@[k] == was[k + 1]);
            }
            assert(view.take(done + 1).drop_last() =~= view.take(done));
            assert(moved.skip(0) =~= moved);
            assert(all_tables(view.take(done)) + moved.take(0) =~= all_tables(view.take(done)));
        }
        while run.tables.len() > 0
            invariant
                run.tables@.len() <= total == moved.len(),
                tables_of(run.tables@) == moved.skip(total - run.tables@.len()),
                forall|k: int| 0 <= k < run.tables@.len() ==> (#[trigger] run.tables@[k]).table.wf(),
                forall|k: int| 0 <= k < tables@.len() ==> (#[trigger] tables@[k]).table.wf(),
                tables_of(tables@) == sorted(
                    all_tables(view.take(done)) + moved.take(total - run.tables@.len()),
                ),
            decreases run.tables@.len(),
        {
            let ghost gone = total - run.tables@.len();
            let ghost left = run.tables@;
            let table: NamedTable = run.tables.remove(0);
            proof {
                assert(tables_of(left)[0] == moved[gone]);
                assert forall|k: int| 0 <= k < run.tables@.len() implies tables_of(
                    run.tables@,
                )[k] == moved.skip(gone + 1)[k] by {
                    assert(run.tables@[k] == left[k + 1]);
                    assert(tables_of(left)[k + 1] == moved.skip(gone)[k + 1]);
                }
                assert(tables_of(run.tables@) =~= moved.skip(gone + 1));
                assert forall|k: int| 0 <= k < run.tables@.len() implies (
                #[trigger] run.tables@[k]).table.wf() by {
                    assert(run.tables@[k] == left[k + 1]);
                }
                assert(left[0].table.wf());
                let now = all_tables(view.take(done)) + moved.take(gone + 1);
                assert(now.drop_last() =~= all_tables(view.take(done)) + moved.take(gone));
                assert(now.last() == moved[gone]);
            }
            insert_sorted(&mut tables, table);
        }
        proof {
            assert(moved.take(total) =~= moved);
            assert(view.take(done + 1).last() == view[done]);
        }
    }
    proof {
        assert(view.take(count) =~= view);
    }
    if units == 0 {
        units = 1;
    }
    let ghost shown = tables_of(tables@);
    level.push(Run { sequence, tables, units });
    proof {
        assert(runs_of(level@) =~= coalesced(view));
    }
}

/// A run that others were folded into is as new as the newest of them, and stands for as
/// many units as they do together.
pub proof fn law_folded_runs_keep_age_and_units(level: Seq<RunView>)
    ensures
        level.len() > 0 ==> exists|r: int|
            0 <= r < level.len() && (#[trigger] level[r]).sequence == newest(level),
        forall|r: int| 0 <= r < level.len() ==> (#[trigger] level[r]).sequence <= newest(level),
        all_units(level) == level.fold_left(0int, |sum: int, run: RunView| sum + run.units),
        coalesced(level).len() == 1 || coalesced(level) == level,
        level.len() >= 2 && coalesced(level).len() == 1 && 1 <= all_units(level) <= usize::MAX
            ==> coalesced(level)[0].sequence == newest(level) && coalesced(level)[0].units
            == all_units(level),
    decreases level.len(),
{
    reveal_with_fuel(Seq::fold_left, 2);
    if level.len() > 0 {
        let head = level.drop_last();
        law_folded_runs_keep_age_and_units(head);
        if head.len() > 0 && newest(head) >= level.last().sequence {
            let r = choose|r: int| 0 <= r < head.len() && (#[trigger] head[r]).sequence == newest(head);
            assert(level[r].sequence == newest(level));
        } else if head.len() > 0 || level.last().sequence > 0 {
            assert(level[level.len() - 1].sequence == newest(level));
        } else {
            assert(newest(head) == 0);
            assert(level[level.len() - 1].sequence == newest(level));
        }
        assert forall|r: int| 0 <= r < level.len() implies (#[trigger] level[r]).sequence
            <= newest(level) by {
            if r < head.len() {
                assert(head[r] == level[r]);
            }
        }
    }
}

/// Runs that lie apart fold into one, however many there are: that is how a level keeps to
/// one run when a merge writes beside what is there.
pub proof fn law_runs_apart_fold_into_one(level: Seq<RunView>)
    requires
        level.len() >= 2,
        forall|i: int|
            0 <= i < level.len() ==> {
                let tables = (#[trigger] level[i]).tables;
                &&& tables.len() > 0
                &&& tables[0].table.index.len() > 0
                &&& tables.last().table.max_key is Some
                &&& lex_le(
                    tables[0].table.index[0].first_key,
                    tables.last().table.max_key->0,
                )
            },
        forall|i: int, j: int|
            #![trigger level[i], level[j]]
            0 <= i < level.len() && 0 <= j < level.len() && i != j ==> lex_lt(
                level[i].tables.last().table.max_key->0,
                level[j].tables[0].table.index[0].first_key,
            ) || lex_lt(
                level[j].tables.last().table.max_key->0,
                level[i].tables[0].table.index[0].first_key,
            ),
    ensures
        coalesced(level).len() == 1,
{
    assert forall|i: int| 0 <= i < level.len() implies ranged(#[trigger] level[i]) by {}
    assert forall|i: int, j: int|
        #![trigger level[i], level[j]]
        0 <= i < level.len() && 0 <= j < level.len() && i != j && starts_first(
            level,
            i,
            j,
        ) implies lex_lt(run_max(level[i].tables)->0, run_min(level[j].tables)->0) by {
        let low = run_min(level[i].tables)->0;
        let other_low = run_min(level[j].tables)->0;
        let other_high = run_max(level[j].tables)->0;
        if lex_lt(other_high, low) {
            super::order::lemma_lex_mixed(other_low, other_high, low);
            super::order::lemma_lex_irreflexive(low);
            if lex_lt(low, other_low) {
                lemma_lex_asymmetric(low, other_low);
            }
            if other_low != other_high {
                super::order::lemma_lex_transitive(other_low, other_high, low);
            }
        }
    }
}

} // verus!
