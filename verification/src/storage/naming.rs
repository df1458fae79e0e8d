//! How often a file name occurs in levels: at most once, whatever is done.

use vstd::prelude::*;

use super::coalesce::{all_tables, coalesced, disjoint, inserted, sorted};
use super::compaction::CompactionJob;
use super::levels::{kept_level, kept_run, level_after, levels_after, select, takes, unless};
use super::manifest::table_name;
use super::names::law_table_names_are_unique;
use super::run::{NamedView, RunView};
use super::steps::{folded, level_tables_taken, levels_flushed, tables_taken, tables_written};

verus! {

/// How many of these tables have this name.
pub open spec fn times_tables(tables: Seq<NamedView>, name: Seq<char>) -> nat
    decreases tables.len(),
{
    if tables.len() == 0 {
        0
    } else {
        times_tables(tables.drop_last(), name) + if tables.last().name == name {
            1nat
        } else {
            0
        }
    }
}

/// How many tables of these runs have this name.
pub open spec fn times_runs(runs: Seq<RunView>, name: Seq<char>) -> nat
    decreases runs.len(),
{
    if runs.len() == 0 {
        0
    } else {
        times_runs(runs.drop_last(), name) + times_tables(runs.last().tables, name)
    }
}

/// How many tables of these levels have this name.
pub open spec fn times(levels: Seq<Seq<RunView>>, name: Seq<char>) -> nat
    decreases levels.len(),
{
    if levels.len() == 0 {
        0
    } else {
        times(levels.drop_last(), name) + times_runs(levels.last(), name)
    }
}

proof fn lemma_times_tables_concat(a: Seq<NamedView>, b: Seq<NamedView>, name: Seq<char>)
    ensures
        times_tables(a + b, name) == times_tables(a, name) + times_tables(b, name),
    decreases b.len(),
{
    if b.len() == 0 {
        assert(a + b =~= a);
    } else {
        assert((a + b).drop_last() =~= a + b.drop_last());
        lemma_times_tables_concat(a, b.drop_last(), name);
    }
}

proof fn lemma_times_runs_concat(a: Seq<RunView>, b: Seq<RunView>, name: Seq<char>)
    ensures
        times_runs(a + b, name) == times_runs(a, name) + times_runs(b, name),
    decreases b.len(),
{
    if b.len() == 0 {
        assert(a + b =~= a);
    } else {
        assert((a + b).drop_last() =~= a + b.drop_last());
        lemma_times_runs_concat(a, b.drop_last(), name);
    }
}

proof fn lemma_times_one_run(run: RunView, name: Seq<char>)
    ensures
        times_runs(seq![run], name) == times_tables(run.tables, name),
{
    assert(seq![run].drop_last() =~= Seq::<RunView>::empty());
    assert(times_runs(seq![run].drop_last(), name) == 0);
}

/// A table counts for its own name.
pub proof fn lemma_times_tables_present(tables: Seq<NamedView>, f: int)
    requires
        0 <= f < tables.len(),
    ensures
        times_tables(tables, tables[f].name) >= 1,
    decreases tables.len(),
{
    if f < tables.len() - 1 {
        assert(tables.drop_last()[f] == tables[f]);
        lemma_times_tables_present(tables.drop_last(), f);
    }
}

/// A name that counts is that of a table.
pub proof fn lemma_times_tables_absent(tables: Seq<NamedView>, name: Seq<char>)
    requires
        forall|f: int| 0 <= f < tables.len() ==> (#[trigger] tables[f]).name != name,
    ensures
        times_tables(tables, name) == 0,
    decreases tables.len(),
{
    if tables.len() > 0 {
        let head = tables.drop_last();
        assert forall|f: int| 0 <= f < head.len() implies (#[trigger] head[f]).name != name by {
            assert(head[f] == tables[f]);
        }
        lemma_times_tables_absent(head, name);
        assert(tables[tables.len() - 1].name != name);
    }
}

proof fn lemma_times_runs_present(runs: Seq<RunView>, r: int, f: int)
    requires
        0 <= r < runs.len(),
        0 <= f < runs[r].tables.len(),
    ensures
        times_runs(runs, runs[r].tables[f].name) >= 1,
    decreases runs.len(),
{
    if r < runs.len() - 1 {
        assert(runs.drop_last()[r] == runs[r]);
        lemma_times_runs_present(runs.drop_last(), r, f);
    } else {
        lemma_times_tables_present(runs[r].tables, f);
    }
}

/// A table of the levels counts for its own name.
pub proof fn lemma_times_present(levels: Seq<Seq<RunView>>, l: int, r: int, f: int)
    requires
        0 <= l < levels.len(),
        0 <= r < levels[l].len(),
        0 <= f < levels[l][r].tables.len(),
    ensures
        times(levels, levels[l][r].tables[f].name) >= 1,
    decreases levels.len(),
{
    if l < levels.len() - 1 {
        assert(levels.drop_last()[l] == levels[l]);
        lemma_times_present(levels.drop_last(), l, r, f);
    } else {
        lemma_times_runs_present(levels[l], r, f);
    }
}

proof fn lemma_times_runs_absent(runs: Seq<RunView>, name: Seq<char>)
    requires
        forall|r: int, f: int|
            0 <= r < runs.len() && 0 <= f < runs[r].tables.len() ==> (
            #[trigger] runs[r].tables[f]).name != name,
    ensures
        times_runs(runs, name) == 0,
    decreases runs.len(),
{
    if runs.len() > 0 {
        let head = runs.drop_last();
        assert forall|r: int, f: int|
            0 <= r < head.len() && 0 <= f < head[r].tables.len() implies (
        #[trigger] head[r].tables[f]).name != name by {
            assert(head[r].tables[f] == runs[r].tables[f]);
        }
        lemma_times_runs_absent(head, name);
        let last = runs[runs.len() - 1].tables;
        assert forall|f: int| 0 <= f < last.len() implies (#[trigger] last[f]).name != name by {
            assert(runs[runs.len() - 1].tables[f].name != name);
        }
        lemma_times_tables_absent(last, name);
    }
}

/// A name that no table of the levels has counts for nothing.
pub proof fn lemma_times_absent(levels: Seq<Seq<RunView>>, name: Seq<char>)
    requires
        forall|l: int, r: int, f: int|
            0 <= l < levels.len() && 0 <= r < levels[l].len() && 0 <= f
                < levels[l][r].tables.len() ==> (#[trigger] levels[l][r].tables[f]).name != name,
    ensures
        times(levels, name) == 0,
    decreases levels.len(),
{
    if levels.len() > 0 {
        let head = levels.drop_last();
        assert forall|l: int, r: int, f: int|
            0 <= l < head.len() && 0 <= r < head[l].len() && 0 <= f
                < head[l][r].tables.len() implies (#[trigger] head[l][r].tables[f]).name
            != name by {
            assert(head[l][r].tables[f] == levels[l][r].tables[f]);
        }
        lemma_times_absent(head, name);
        let last = levels[levels.len() - 1];
        assert forall|r: int, f: int|
            0 <= r < last.len() && 0 <= f < last[r].tables.len() implies (
        #[trigger] last[r].tables[f]).name != name by {
            assert(levels[levels.len() - 1][r].tables[f].name != name);
        }
        lemma_times_runs_absent(last, name);
    }
}

// ---------------------------------------------------------------------------
// What is done keeps count
// ---------------------------------------------------------------------------

proof fn lemma_times_select(tables: Seq<NamedView>, keep: spec_fn(int) -> bool, name: Seq<char>)
    ensures
        times_tables(select(tables, keep), name) + times_tables(
            select(tables, unless(keep)),
            name,
        ) == times_tables(tables, name),
    decreases tables.len(),
{
    if tables.len() > 0 {
        let head = tables.drop_last();
        lemma_times_select(head, keep, name);
        let last = tables.last();
        if keep(tables.len() - 1) {
            assert(select(head, keep).push(last).drop_last() =~= select(head, keep));
        } else {
            assert(unless(keep)(tables.len() - 1));
            assert(select(head, unless(keep)).push(last).drop_last() =~= select(
                head,
                unless(keep),
            ));
        }
    }
}

proof fn lemma_times_kept(level: Seq<RunView>, l: int, job: CompactionJob, name: Seq<char>)
    ensures
        times_runs(kept_level(level, l, job), name) + times_tables(
            level_tables_taken(level, l, job),
            name,
        ) == times_runs(level, name),
    decreases level.len(),
{
    if level.len() > 0 {
        let head = level.drop_last();
        let n = level.len() - 1;
        let run = kept_run(level.last(), l, n, job);
        lemma_times_kept(head, l, job, name);
        lemma_times_select(level.last().tables, takes(job, l, n), name);
        lemma_times_tables_concat(
            level_tables_taken(head, l, job),
            select(level.last().tables, takes(job, l, n)),
            name,
        );
        let before = kept_level(head, l, job);
        if run.tables.len() == 0 {
            assert(times_tables(run.tables, name) == 0);
        } else {
            assert(before.push(run).drop_last() =~= before);
        }
    }
}

/// The levels of a job one after the other.
proof fn lemma_times_after_upto(
    levels: Seq<Seq<RunView>>,
    job: CompactionJob,
    run: Option<RunView>,
    m: int,
    name: Seq<char>,
)
    requires
        0 <= m <= levels_after(levels, job, run).len(),
    ensures
        ({
            let first = if m < levels.len() {
                levels.take(m)
            } else {
                levels
            };
            times(levels_after(levels, job, run).take(m), name) + times_tables(
                tables_taken(first, job),
                name,
            ) == times(first, name) + if m > job.target_level {
                times_tables(tables_written(run), name)
            } else {
                0
            }
        }),
    decreases m,
{
    let after = levels_after(levels, job, run);
    if m == 0 {
        if levels.len() > 0 {
            assert(levels.take(0) =~= Seq::<Seq<RunView>>::empty());
        }
        assert(after.take(0) =~= Seq::<Seq<RunView>>::empty());
    } else {
        let l = m - 1;
        lemma_times_after_upto(levels, job, run, l, name);
        assert(after.take(m).drop_last() =~= after.take(l));
        assert(after.take(m).last() == level_after(levels, job, run, l));
        let kept = if l < levels.len() {
            kept_level(levels[l], l, job)
        } else {
            Seq::empty()
        };
        if l < levels.len() {
            let first = if m < levels.len() {
                levels.take(m)
            } else {
                levels
            };
            assert(first =~= levels.take(m));
            assert(first.drop_last() =~= levels.take(l));
            assert(first.last() == levels[l]);
            lemma_times_kept(levels[l], l, job, name);
            lemma_times_tables_concat(
                tables_taken(levels.take(l), job),
                level_tables_taken(levels[l], l, job),
                name,
            );
        } else {
            assert(times_runs(kept, name) == 0);
        }
        if l == job.target_level {
            match run {
                Some(run) => {
                    lemma_times_runs_concat(seq![run], kept, name);
                    lemma_times_one_run(run, name);
                },
                None => {},
            }
        }
    }
}

/// A job takes out what it takes and puts in what it wrote.
pub proof fn lemma_times_after(
    levels: Seq<Seq<RunView>>,
    job: CompactionJob,
    run: Option<RunView>,
    name: Seq<char>,
)
    ensures
        times(levels_after(levels, job, run), name) + times_tables(
            tables_taken(levels, job),
            name,
        ) == times(levels, name) + times_tables(tables_written(run), name),
{
    let after = levels_after(levels, job, run);
    let m = after.len() as int;
    lemma_times_after_upto(levels, job, run, m, name);
    assert(after.take(m) =~= after);
    if m < levels.len() {
    } else if m == levels.len() {
        assert(levels.take(m) =~= levels);
    }
}

proof fn lemma_times_inserted(list: Seq<NamedView>, table: NamedView, name: Seq<char>)
    ensures
        times_tables(inserted(list, table), name) == times_tables(list, name) + if table.name
            == name {
            1nat
        } else {
            0
        },
    decreases list.len(),
{
    if list.len() == 0 || !super::coalesce::table_before(table.table, list.last().table) {
        assert(list.push(table).drop_last() =~= list);
    } else {
        let head = list.drop_last();
        lemma_times_inserted(head, table, name);
        assert(inserted(head, table).push(list.last()).drop_last() =~= inserted(head, table));
    }
}

proof fn lemma_times_sorted(tables: Seq<NamedView>, name: Seq<char>)
    ensures
        times_tables(sorted(tables), name) == times_tables(tables, name),
    decreases tables.len(),
{
    if tables.len() > 0 {
        lemma_times_sorted(tables.drop_last(), name);
        lemma_times_inserted(sorted(tables.drop_last()), tables.last(), name);
    }
}

proof fn lemma_times_all_tables(level: Seq<RunView>, name: Seq<char>)
    ensures
        times_tables(all_tables(level), name) == times_runs(level, name),
    decreases level.len(),
{
    if level.len() > 0 {
        lemma_times_all_tables(level.drop_last(), name);
        lemma_times_tables_concat(all_tables(level.drop_last()), level.last().tables, name);
    }
}

proof fn lemma_times_coalesced(level: Seq<RunView>, name: Seq<char>)
    ensures
        times_runs(coalesced(level), name) == times_runs(level, name),
{
    if level.len() > 1 && disjoint(level) {
        lemma_times_all_tables(level, name);
        lemma_times_sorted(all_tables(level), name);
        lemma_times_one_run(coalesced(level)[0], name);
        assert(coalesced(level) =~= seq![coalesced(level)[0]]);
    }
}

proof fn lemma_times_update(
    levels: Seq<Seq<RunView>>,
    l: int,
    level: Seq<RunView>,
    name: Seq<char>,
)
    requires
        0 <= l < levels.len(),
    ensures
        times(levels.update(l, level), name) + times_runs(levels[l], name) == times(levels, name)
            + times_runs(level, name),
    decreases levels.len(),
{
    let after = levels.update(l, level);
    if l == levels.len() - 1 {
        assert(after.drop_last() =~= levels.drop_last());
    } else {
        assert(after.drop_last() =~= levels.drop_last().update(l, level));
        lemma_times_update(levels.drop_last(), l, level, name);
    }
}

/// Folding a level keeps its tables.
pub proof fn lemma_times_folded(
    levels: Seq<Seq<RunView>>,
    l: int,
    limit: nat,
    name: Seq<char>,
)
    requires
        0 <= l < levels.len(),
    ensures
        times(folded(levels, l, limit), name) == times(levels, name),
{
    if limit == 1 {
        lemma_times_coalesced(levels[l], name);
        lemma_times_update(levels, l, coalesced(levels[l]), name);
    }
}

/// A flush adds the tables of its run.
pub proof fn lemma_times_flushed(levels: Seq<Seq<RunView>>, run: RunView, name: Seq<char>)
    ensures
        times(levels_flushed(levels, run), name) == times(levels, name) + times_tables(
            run.tables,
            name,
        ),
{
    lemma_times_one_run(run, name);
    if levels.len() == 0 {
        let after = seq![seq![run]];
        assert(after.drop_last() =~= Seq::<Seq<RunView>>::empty());
        assert(times(after.drop_last(), name) == 0);
    } else {
        lemma_times_runs_concat(seq![run], levels[0], name);
        lemma_times_update(levels, 0, seq![run] + levels[0], name);
    }
}

/// The parts of a run that was written have names of their own.
pub proof fn lemma_times_parts(
    tables: Seq<NamedView>,
    level: nat,
    sequence: nat,
    name: Seq<char>,
)
    requires
        forall|i: int|
            0 <= i < tables.len() ==> (#[trigger] tables[i]).name == table_name(
                level,
                sequence,
                i as nat,
            ),
    ensures
        times_tables(tables, name) <= 1,
    decreases tables.len(),
{
    if tables.len() > 0 {
        let head = tables.drop_last();
        let n = tables.len() - 1;
        assert forall|i: int| 0 <= i < head.len() implies (#[trigger] head[i]).name == table_name(
            level,
            sequence,
            i as nat,
        ) by {
            assert(head[i] == tables[i]);
        }
        lemma_times_parts(head, level, sequence, name);
        if tables.last().name == name {
            assert forall|f: int| 0 <= f < head.len() implies (#[trigger] head[f]).name != name by {
                assert(tables[n].name == table_name(level, sequence, n as nat));
                if head[f].name == name {
                    law_table_names_are_unique(
                        level,
                        sequence,
                        f as nat,
                        level,
                        sequence,
                        n as nat,
                    );
                }
            }
            lemma_times_tables_absent(head, name);
        }
    }
}

} // verus!
