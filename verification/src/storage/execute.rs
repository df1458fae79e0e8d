//! Taking a job apart: what it reads, what it leaves, and what it counts for.

use vstd::prelude::*;

use super::coalesce::{coalesce_disjoint_runs, coalesced, runs_of, runs_wf};
use super::compaction::{picks, sources_pick, taken, CompactionJob, LevelFiles, RunFiles};
use super::disk::{actions_of, DiskAction};
use super::levels::{kept_level, kept_run, level_after, levels_after, select, takes, unless};
use super::manifest::{names_of, Manifest, RunEntry};
use super::merge::{sources_of, Source};
use super::order::copy_bytes;
use super::reader::SSTable;
use super::run::{run_items, tables_of, NamedTable, Run, RunView};
use super::shape::{saturated_count, FileShape, LevelShape, RunShape, TreeShape};
use super::sstable::{items_of, key_view};
use super::steps::{
    entries_for, is_file_shape, is_run_shape, is_shape_of, items_taken, level_entries,
    level_tables_taken, levels_flushed, merged_units, named, run_entry,
    selected_items, selected_units, selections_at, source_selections, source_units, table_names,
    table_removals, table_writes, tables_taken,
};
use super::Key;

verus! {

/// The content of levels.
pub open spec fn levels_of(levels: Seq<Vec<Run>>) -> Seq<Seq<RunView>> {
    Seq::new(levels.len(), |l: int| runs_of(levels[l]@))
}

/// Every table of every run is open.
pub open spec fn levels_wf(levels: Seq<Vec<Run>>) -> bool {
    forall|l: int| 0 <= l < levels.len() ==> runs_wf((#[trigger] levels[l])@)
}

// ---------------------------------------------------------------------------
// Which files a job takes
// ---------------------------------------------------------------------------

fn contains(files: &Vec<usize>, file: usize) -> (found: bool)
    ensures
        found == files@.contains(file),
{
    let mut i: usize = 0;
    while i < files.len()
        invariant
            i <= files@.len(),
            forall|j: int| 0 <= j < i ==> files@[j] != file,
        decreases files@.len() - i,
    {
        if files[i] == file {
            return true;
        }
        i = i + 1;
    }
    false
}

fn names_file(runs: &Vec<RunFiles>, run: usize, file: usize) -> (named: bool)
    ensures
        named == picks(runs@, run as int, file as int),
{
    let mut i: usize = 0;
    while i < runs.len()
        invariant
            i <= runs@.len(),
            forall|j: int|
                0 <= j < i ==> !((#[trigger] runs@[j]).run == run && runs@[j].files@.contains(file)),
        decreases runs@.len() - i,
    {
        if runs[i].run == run && contains(&runs[i].files, file) {
            return true;
        }
        i = i + 1;
    }
    false
}

/// Whether a job takes a file.
fn is_taken(job: &CompactionJob, level: usize, run: usize, file: usize) -> (is: bool)
    ensures
        is == taken(*job, level as int, run as int, file as int),
{
    if level == job.target_level && names_file(&job.targets, run, file) {
        return true;
    }
    let mut i: usize = 0;
    while i < job.sources.len()
        invariant
            i <= job.sources@.len(),
            forall|j: int|
                0 <= j < i ==> !((#[trigger] job.sources@[j]).level == level && picks(
                    job.sources@[j].runs@,
                    run as int,
                    file as int,
                )),
        decreases job.sources@.len() - i,
    {
        if job.sources[i].level == level && names_file(&job.sources[i].runs, run, file) {
            proof {
                assert(sources_pick(job.sources@, level as int, run as int, file as int));
            }
            return true;
        }
        i = i + 1;
    }
    false
}

/// What a selection names of a run, as it is read.
fn selected_source(tables: &Vec<NamedTable>, files: &Vec<usize>) -> (source: Source)
    requires
        forall|i: int| 0 <= i < tables@.len() ==> (#[trigger] tables@[i]).table.wf(),
    ensures
        items_of(source@) == run_items(select(tables_of(tables@), named(files@))),
{
    let ghost view = tables_of(tables@);
    let ghost keep = named(files@);
    let mut source: Source = Vec::new();
    let mut i: usize = 0;
    proof {
        assert(items_of(source@) =~= run_items(select(view.take(0), keep)));
    }
    while i < tables.len()
        invariant
            i <= tables@.len(),
            forall|i: int| 0 <= i < tables@.len() ==> (#[trigger] tables@[i]).table.wf(),
            view == tables_of(tables@),
            keep == named(files@),
            items_of(source@) == run_items(select(view.take(i as int), keep)),
        decreases tables@.len() - i,
    {
        proof {
            assert(view.take(i + 1).drop_last() =~= view.take(i as int));
            assert(view.take(i + 1).last() == tables@[i as int]@);
        }
        if contains(files, i) {
            let ghost before = source@;
            let mut more: Source = tables[i].table.entries();
            let ghost added = more@;
            source.append(&mut more);
            proof {
                let chosen = select(view.take(i + 1), keep);
                assert(chosen.drop_last() =~= select(view.take(i as int), keep));
                assert(items_of(source@) =~= items_of(before) + items_of(added));
            }
        }
        i = i + 1;
    }
    proof {
        assert(view.take(i as int) =~= view);
    }
    source
}

/// Adds what the selections of one level name.
fn gather_level(
    sources: &mut Vec<Source>,
    levels: &Vec<Vec<Run>>,
    level: usize,
    runs: &Vec<RunFiles>,
)
    requires
        levels_wf(levels@),
    ensures
        sources_of(final(sources)@) == sources_of(old(sources)@) + selected_items(
            levels_of(levels@),
            selections_at(level as nat, runs@),
        ),
{
    let ghost view = levels_of(levels@);
    let ghost before = sources_of(sources@);
    let ghost items = selected_items(view, selections_at(level as nat, runs@));
    let mut i: usize = 0;
    proof {
        assert(before + items.take(0) =~= before);
    }
    while i < runs.len()
        invariant
            i <= runs@.len(),
            levels_wf(levels@),
            view == levels_of(levels@),
            items == selected_items(view, selections_at(level as nat, runs@)),
            items.len() == runs@.len(),
            sources_of(sources@) == before + items.take(i as int),
        decreases runs@.len() - i,
    {
        let ghost had = sources_of(sources@);
        let r: usize = runs[i].run;
        let source: Source = if level < levels.len() && r < levels[level].len() {
            proof {
                assert(runs_wf(levels@[level as int]@));
                assert(levels@[level as int]@[r as int].wf());
                assert(view[level as int][r as int] == levels@[level as int]@[r as int]@);
            }
            selected_source(&levels[level][r].tables, &runs[i].files)
        } else {
            Vec::new()
        };
        let ghost shown = items_of(source@);
        proof {
            assert(shown =~= items[i as int]);
        }
        sources.push(source);
        proof {
            assert(sources_of(sources@) =~= had.push(shown));
            assert(before + items.take(i + 1) =~= (before + items.take(i as int)).push(shown));
        }
        i = i + 1;
    }
    proof {
        assert(items.take(i as int) =~= items);
    }
}

/// What a job merges, in the order in which it lists its inputs.
pub fn gather(levels: &Vec<Vec<Run>>, job: &CompactionJob) -> (sources: Vec<Source>)
    requires
        levels_wf(levels@),
    ensures
        sources_of(sources@) == items_taken(levels_of(levels@), *job),
{
    let ghost view = levels_of(levels@);
    let mut sources: Vec<Source> = Vec::new();
    let mut s: usize = 0;
    proof {
        assert(sources_of(sources@) =~= selected_items(
            view,
            source_selections(job.sources@.take(0)),
        ));
    }
    while s < job.sources.len()
        invariant
            s <= job.sources@.len(),
            levels_wf(levels@),
            view == levels_of(levels@),
            sources_of(sources@) == selected_items(
                view,
                source_selections(job.sources@.take(s as int)),
            ),
        decreases job.sources@.len() - s,
    {
        let ghost chosen = source_selections(job.sources@.take(s as int));
        let ghost more = selections_at(
            job.sources@[s as int].level as nat,
            job.sources@[s as int].runs@,
        );
        gather_level(&mut sources, levels, job.sources[s].level, &job.sources[s].runs);
        proof {
            assert(job.sources@.take(s + 1).drop_last() =~= job.sources@.take(s as int));
            assert(selected_items(view, chosen) + selected_items(view, more) =~= selected_items(
                view,
                chosen + more,
            ));
        }
        s = s + 1;
    }
    gather_level(&mut sources, levels, job.target_level, &job.targets);
    proof {
        assert(job.sources@.take(s as int) =~= job.sources@);
        let chosen = source_selections(job.sources@);
        let more = selections_at(job.target_level as nat, job.targets@);
        assert(selected_items(view, chosen) + selected_items(view, more) =~= selected_items(
            view,
            chosen + more,
        ));
    }
    sources
}

/// The names of the files that a job takes.
pub fn names_taken(levels: &Vec<Vec<Run>>, job: &CompactionJob) -> (names: Vec<String>)
    ensures
        names_of(names@) == table_names(tables_taken(levels_of(levels@), *job)),
{
    let ghost view = levels_of(levels@);
    let mut names: Vec<String> = Vec::new();
    let mut l: usize = 0;
    proof {
        assert(names_of(names@) =~= table_names(tables_taken(view.take(0), *job)));
    }
    while l < levels.len()
        invariant
            l <= levels@.len(),
            view == levels_of(levels@),
            names_of(names@) == table_names(tables_taken(view.take(l as int), *job)),
        decreases levels@.len() - l,
    {
        let runs: &Vec<Run> = &levels[l];
        let ghost level = runs_of(runs@);
        let ghost before = tables_taken(view.take(l as int), *job);
        let mut r: usize = 0;
        proof {
            assert(before + level_tables_taken(level.take(0), l as int, *job) =~= before);
        }
        while r < runs.len()
            invariant
                r <= runs@.len(),
                level == runs_of(runs@),
                names_of(names@) == table_names(
                    before + level_tables_taken(level.take(r as int), l as int, *job),
                ),
            decreases runs@.len() - r,
        {
            let tables: &Vec<NamedTable> = &runs[r].tables;
            let ghost shown = tables_of(tables@);
            let ghost keep = takes(*job, l as int, r as int);
            let ghost had = before + level_tables_taken(level.take(r as int), l as int, *job);
            let mut f: usize = 0;
            proof {
                assert(had + select(shown.take(0), keep) =~= had);
            }
            while f < tables.len()
                invariant
                    f <= tables@.len(),
                    shown == tables_of(tables@),
                    keep == takes(*job, l as int, r as int),
                    names_of(names@) == table_names(had + select(shown.take(f as int), keep)),
                decreases tables@.len() - f,
            {
                proof {
                    assert(shown.take(f + 1).drop_last() =~= shown.take(f as int));
                    assert(shown.take(f + 1).last() == tables@[f as int]@);
                }
                if is_taken(job, l, r, f) {
                    let ghost old_names = names_of(names@);
                    let name: String = tables[f].name.clone();
                    names.push(name);
                    proof {
                        assert(names_of(names@) =~= old_names.push(tables@[f as int]@.name));
                        assert(names_of(names@) =~= table_names(
                            had + select(shown.take(f + 1), keep),
                        ));
                    }
                }
                f = f + 1;
            }
            proof {
                assert(shown.take(f as int) =~= shown);
                assert(level.take(r + 1).drop_last() =~= level.take(r as int));
                assert(level.take(r + 1).last() == runs@[r as int]@);
                assert(had + select(shown, keep) =~= before + level_tables_taken(
                    level.take(r + 1),
                    l as int,
                    *job,
                ));
            }
            r = r + 1;
        }
        proof {
            assert(level.take(r as int) =~= level);
            assert(view.take(l + 1).drop_last() =~= view.take(l as int));
            assert(view.take(l + 1).last() == level);
        }
        l = l + 1;
    }
    proof {
        assert(view.take(l as int) =~= view);
    }
    names
}

// ---------------------------------------------------------------------------
// What a job leaves
// ---------------------------------------------------------------------------

/// The tables of a run that a job leaves.
fn keep_tables(tables: Vec<NamedTable>, job: &CompactionJob, level: usize, run: usize) -> (kept: Vec<
    NamedTable,
>)
    requires
        forall|i: int| 0 <= i < tables@.len() ==> (#[trigger] tables@[i]).table.wf(),
    ensures
        forall|i: int| 0 <= i < kept@.len() ==> (#[trigger] kept@[i]).table.wf(),
        tables_of(kept@) == select(
            tables_of(tables@),
            unless(takes(*job, level as int, run as int)),
        ),
{
    let ghost all = tables@;
    let ghost view = tables_of(all);
    let ghost keep = unless(takes(*job, level as int, run as int));
    let total: usize = tables.len();
    let mut left: Vec<NamedTable> = tables;
    let mut kept: Vec<NamedTable> = Vec::new();
    let mut f: usize = 0;
    proof {
        assert(tables_of(kept@) =~= select(view.take(0), keep));
        assert(all.skip(0) =~= all);
    }
    while left.len() > 0
        invariant
            f + left@.len() == all.len(),
            total == all.len(),
            left@ == all.skip(f as int),
            view == tables_of(all),
            keep == unless(takes(*job, level as int, run as int)),
            forall|i: int| 0 <= i < all.len() ==> (#[trigger] all[i]).table.wf(),
            forall|i: int| 0 <= i < kept@.len() ==> (#[trigger] kept@[i]).table.wf(),
            tables_of(kept@) == select(view.take(f as int), keep),
        decreases left@.len(),
    {
        let ghost before = tables_of(kept@);
        let table: NamedTable = left.remove(0);
        proof {
            assert(table == all[f as int]);
            assert(left@ =~= all.skip(f + 1));
            assert(view.take(f + 1).drop_last() =~= view.take(f as int));
            assert(view.take(f + 1).last() == table@);
        }
        if !is_taken(job, level, run, f) {
            let ghost shown = table@;
            kept.push(table);
            proof {
                assert(tables_of(kept@) =~= before.push(shown));
            }
        }
        f = f + 1;
    }
    proof {
        assert(view.take(f as int) =~= view);
    }
    kept
}

/// The runs of a level that a job leaves, each without what the job takes.
pub fn keep_runs(runs: Vec<Run>, job: &CompactionJob, level: usize) -> (kept: Vec<Run>)
    requires
        runs_wf(runs@),
    ensures
        runs_wf(kept@),
        runs_of(kept@) == kept_level(runs_of(runs@), level as int, *job),
{
    let ghost all = runs@;
    let ghost view = runs_of(all);
    let total: usize = runs.len();
    let mut left: Vec<Run> = runs;
    let mut kept: Vec<Run> = Vec::new();
    let mut r: usize = 0;
    proof {
        assert(runs_of(kept@) =~= kept_level(view.take(0), level as int, *job));
        assert(all.skip(0) =~= all);
    }
    while left.len() > 0
        invariant
            r + left@.len() == all.len(),
            total == all.len(),
            left@ == all.skip(r as int),
            view == runs_of(all),
            runs_wf(all),
            runs_wf(kept@),
            runs_of(kept@) == kept_level(view.take(r as int), level as int, *job),
        decreases left@.len(),
    {
        let ghost before = runs_of(kept@);
        let run: Run = left.remove(0);
        proof {
            assert(run == all[r as int]);
            assert(left@ =~= all.skip(r + 1));
            assert(view.take(r + 1).drop_last() =~= view.take(r as int));
            assert(view.take(r + 1).last() == run@);
            assert(all[r as int].wf());
        }
        let tables: Vec<NamedTable> = keep_tables(run.tables, job, level, r);
        if tables.len() > 0 {
            let rest = Run { sequence: run.sequence, tables, units: run.units };
            let ghost shown = rest@;
            kept.push(rest);
            proof {
                assert(shown == kept_run(run@, level as int, r as int, *job));
                assert(runs_of(kept@) =~= before.push(shown));
            }
        }
        r = r + 1;
    }
    proof {
        assert(view.take(r as int) =~= view);
    }
    kept
}

/// Adds the units of the runs that selections name to a count.
fn add_units(
    levels: &Vec<Vec<Run>>,
    level: usize,
    runs: &Vec<RunFiles>,
    counted: usize,
    so_far: Ghost<nat>,
) -> (units: usize)
    requires
        counted == saturated_count(so_far@),
    ensures
        units == saturated_count(
            so_far@ + selected_units(levels_of(levels@), level as nat, runs@),
        ),
{
    let ghost view = levels_of(levels@);
    let mut units: usize = counted;
    let mut i: usize = 0;
    while i < runs.len()
        invariant
            i <= runs@.len(),
            view == levels_of(levels@),
            units == saturated_count(
                so_far@ + selected_units(view, level as nat, runs@.take(i as int)),
            ),
        decreases runs@.len() - i,
    {
        proof {
            assert(runs@.take(i + 1).drop_last() =~= runs@.take(i as int));
        }
        let r: usize = runs[i].run;
        if level < levels.len() && r < levels[level].len() {
            units = units.saturating_add(levels[level][r].units);
            proof {
                assert(view[level as int][r as int] == levels@[level as int]@[r as int]@);
            }
        }
        i = i + 1;
    }
    proof {
        assert(runs@.take(i as int) =~= runs@);
    }
    units
}

/// The units of what a job writes.
pub fn count_units(levels: &Vec<Vec<Run>>, job: &CompactionJob) -> (units: usize)
    ensures
        units == merged_units(levels_of(levels@), *job),
{
    let ghost view = levels_of(levels@);
    let mut units: usize = 0;
    let mut s: usize = 0;
    while s < job.sources.len()
        invariant
            s <= job.sources@.len(),
            view == levels_of(levels@),
            units == saturated_count(source_units(view, job.sources@.take(s as int))),
        decreases job.sources@.len() - s,
    {
        let source: &LevelFiles = &job.sources[s];
        let ghost so_far = source_units(view, job.sources@.take(s as int));
        units = add_units(levels, source.level, &source.runs, units, Ghost(so_far));
        proof {
            assert(job.sources@.take(s + 1).drop_last() =~= job.sources@.take(s as int));
        }
        s = s + 1;
    }
    proof {
        assert(job.sources@.take(s as int) =~= job.sources@);
    }
    let ghost so_far = source_units(view, job.sources@);
    units = add_units(levels, job.target_level, &job.targets, units, Ghost(so_far));
    if units == 0 {
        1
    } else {
        units
    }
}

// ---------------------------------------------------------------------------
// What levels tell others
// ---------------------------------------------------------------------------

fn copy_key(key: Option<&Key>) -> (copy: Option<Key>)
    ensures
        key_view(copy) == match key {
            Some(key) => Some(key@),
            None => None,
        },
{
    match key {
        Some(key) => Some(copy_bytes(key.as_slice())),
        None => None,
    }
}

fn file_shape(table: &SSTable, index: usize) -> (shape: FileShape)
    ensures
        is_file_shape(shape, table@, index as int),
{
    FileShape {
        index,
        bytes: table.file_size_bytes(),
        min_key: copy_key(table.min_key()),
        max_key: copy_key(table.max_key()),
    }
}

fn run_shape(run: &Run, index: usize) -> (shape: RunShape)
    ensures
        is_run_shape(shape, run@, index as int),
{
    let mut files: Vec<FileShape> = Vec::new();
    let mut f: usize = 0;
    while f < run.tables.len()
        invariant
            f <= run.tables@.len(),
            files@.len() == f,
            forall|i: int|
                0 <= i < f ==> is_file_shape(#[trigger] files@[i], run.tables@[i].table@, i),
        decreases run.tables@.len() - f,
    {
        files.push(file_shape(&run.tables[f].table, f));
        f = f + 1;
    }
    RunShape { index, files, units: run.units }
}

fn level_shape(runs: &Vec<Run>) -> (shape: LevelShape)
    ensures
        shape.runs@.len() == runs@.len(),
        forall|r: int|
            0 <= r < runs@.len() ==> is_run_shape(#[trigger] shape.runs@[r], runs@[r]@, r),
{
    let mut shapes: Vec<RunShape> = Vec::new();
    let mut r: usize = 0;
    while r < runs.len()
        invariant
            r <= runs@.len(),
            shapes@.len() == r,
            forall|i: int| 0 <= i < r ==> is_run_shape(#[trigger] shapes@[i], runs@[i]@, i),
        decreases runs@.len() - r,
    {
        shapes.push(run_shape(&runs[r], r));
        r = r + 1;
    }
    LevelShape { runs: shapes }
}

/// The tree as growth schemes and merge policies see it.
pub fn shape_levels(levels: &Vec<Vec<Run>>) -> (shape: TreeShape)
    ensures
        is_shape_of(shape, levels_of(levels@)),
{
    let ghost view = levels_of(levels@);
    let mut shapes: Vec<LevelShape> = Vec::new();
    let mut l: usize = 0;
    while l < levels.len()
        invariant
            l <= levels@.len(),
            view == levels_of(levels@),
            shapes@.len() == l,
            forall|i: int| 0 <= i < l ==> (#[trigger] shapes@[i]).runs@.len() == view[i].len(),
            forall|i: int, r: int|
                0 <= i < l && 0 <= r < view[i].len() ==> is_run_shape(
                    #[trigger] shapes@[i].runs@[r],
                    view[i][r],
                    r,
                ),
        decreases levels@.len() - l,
    {
        shapes.push(level_shape(&levels[l]));
        l = l + 1;
    }
    proof {
        reveal(is_shape_of);
    }
    TreeShape { levels: shapes }
}

fn manifest_entry(run: &Run, level: usize) -> (entry: RunEntry)
    ensures
        entry@ == run_entry(run@, level as nat),
{
    let mut files: Vec<String> = Vec::new();
    let mut f: usize = 0;
    while f < run.tables.len()
        invariant
            f <= run.tables@.len(),
            files@.len() == f,
            forall|i: int| 0 <= i < f ==> (#[trigger] files@[i])@ == run.tables@[i].name@,
        decreases run.tables@.len() - f,
    {
        let name: String = run.tables[f].name.clone();
        files.push(name);
        f = f + 1;
    }
    proof {
        assert(names_of(files@) =~= table_names(run@.tables));
    }
    RunEntry { level, sequence: run.sequence, files, units: run.units }
}

/// The manifest of levels.
pub fn list_levels(levels: &Vec<Vec<Run>>, next_sequence: u64) -> (manifest: Manifest)
    ensures
        manifest@.runs == entries_for(levels_of(levels@)),
        manifest@.next_sequence == next_sequence,
{
    let ghost view = levels_of(levels@);
    let mut runs: Vec<RunEntry> = Vec::new();
    let mut l: usize = 0;
    proof {
        assert(super::manifest::runs_of(runs@) =~= entries_for(view.take(0)));
    }
    while l < levels.len()
        invariant
            l <= levels@.len(),
            view == levels_of(levels@),
            super::manifest::runs_of(runs@) == entries_for(view.take(l as int)),
        decreases levels@.len() - l,
    {
        let level: &Vec<Run> = &levels[l];
        let ghost before = entries_for(view.take(l as int));
        let ghost added = level_entries(runs_of(level@), l as nat);
        let mut r: usize = 0;
        proof {
            assert(before + added.take(0) =~= before);
        }
        while r < level.len()
            invariant
                r <= level@.len(),
                added == level_entries(runs_of(level@), l as nat),
                super::manifest::runs_of(runs@) == before + added.take(r as int),
            decreases level@.len() - r,
        {
            let ghost had = super::manifest::runs_of(runs@);
            let entry: RunEntry = manifest_entry(&level[r], l);
            let ghost shown = entry@;
            runs.push(entry);
            proof {
                assert(shown == added[r as int]);
                assert(super::manifest::runs_of(runs@) =~= had.push(shown));
                assert(before + added.take(r + 1) =~= (before + added.take(r as int)).push(shown));
            }
            r = r + 1;
        }
        proof {
            assert(added.take(r as int) =~= added);
            assert(view.take(l + 1).drop_last() =~= view.take(l as int));
            assert(view.take(l + 1).last() == runs_of(level@));
        }
        l = l + 1;
    }
    proof {
        assert(view.take(l as int) =~= view);
    }
    Manifest { runs, next_sequence }
}

// ---------------------------------------------------------------------------
// Putting levels together again
// ---------------------------------------------------------------------------

/// The content of a run, if there is one.
pub open spec fn run_view(run: Option<Run>) -> Option<RunView> {
    match run {
        Some(run) => Some(run@),
        None => None,
    }
}

/// The levels after a job whose merge was written as `run`.
pub fn rebuild(levels: Vec<Vec<Run>>, job: &CompactionJob, run: Option<Run>) -> (rebuilt: Vec<
    Vec<Run>,
>)
    requires
        levels_wf(levels@),
        run matches Some(run) ==> run.wf(),
    ensures
        levels_wf(rebuilt@),
        levels_of(rebuilt@) == levels_after(levels_of(levels@), *job, run_view(run)),
{
    let ghost all = levels@;
    let ghost view = levels_of(all);
    let ghost shown = run_view(run);
    let ghost after = levels_after(view, *job, shown);
    let total: usize = levels.len();
    let mut left: Vec<Vec<Run>> = levels;
    let mut rebuilt: Vec<Vec<Run>> = Vec::new();
    let mut pending: Option<Run> = run;
    proof {
        assert(all.skip(0) =~= all);
        assert(levels_of(rebuilt@) =~= after.take(0));
    }
    while left.len() > 0 || rebuilt.len() <= job.target_level
        invariant
            rebuilt@.len() <= after.len(),
            left@.len() == if rebuilt@.len() <= total {
                total - rebuilt@.len()
            } else {
                0
            },
            total == all.len(),
            left@ == all.skip(if rebuilt@.len() <= total {
                rebuilt@.len() as int
            } else {
                total as int
            }),
            view == levels_of(all),
            after == levels_after(view, *job, shown),
            levels_wf(all),
            levels_wf(rebuilt@),
            levels_of(rebuilt@) == after.take(rebuilt@.len() as int),
            rebuilt@.len() <= job.target_level ==> run_view(pending) == shown,
            rebuilt@.len() > job.target_level ==> pending is None,
            pending matches Some(run) ==> run.wf(),
        decreases after.len() - rebuilt@.len(),
    {
        let l: usize = rebuilt.len();
        let ghost had = levels_of(rebuilt@);
        let mut level: Vec<Run> = Vec::new();
        if left.len() > 0 {
            let ghost before = left@;
            let runs: Vec<Run> = left.remove(0);
            proof {
                assert(before[0] == all[l as int]);
                assert(left@ =~= all.skip(l + 1));
                assert(runs_wf(all[l as int]@));
                assert(view[l as int] == runs_of(runs@));
            }
            level = keep_runs(runs, job, l);
        } else {
            proof {
                assert(runs_of(level@) =~= Seq::<RunView>::empty());
            }
        }
        if l == job.target_level {
            let ghost kept = runs_of(level@);
            let ghost was = level@;
            let mut next: Option<Run> = None;
            std::mem::swap(&mut pending, &mut next);
            if let Some(run) = next {
                let ghost front = run@;
                level.insert(0, run);
                proof {
                    assert(runs_of(level@) =~= seq![front] + kept);
                    assert forall|i: int| 0 <= i < level@.len() implies (
                    #[trigger] level@[i]).wf() by {
                        if i > 0 {
                            assert(level@[i] == was[i - 1]);
                        }
                    }
                }
            }
        }
        let ghost now = runs_of(level@);
        let ghost content = level@;
        let ghost before = rebuilt@;
        rebuilt.push(level);
        proof {
            assert(now == level_after(view, *job, shown, l as int));
            assert(levels_of(rebuilt@) =~= had.push(now));
            assert(after.take(l + 1) =~= after.take(l as int).push(after[l as int]));
            assert forall|i: int| 0 <= i < rebuilt@.len() implies runs_wf(
                (#[trigger] rebuilt@[i])@,
            ) by {
                if i < l {
                    assert(rebuilt@[i] == before[i]);
                }
            }
        }
    }
    proof {
        assert(after.take(rebuilt@.len() as int) =~= after);
    }
    rebuilt
}

/// Puts a run in front of level 0.
pub fn push_front(levels: &mut Vec<Vec<Run>>, run: Run)
    requires
        levels_wf(old(levels)@),
        run.wf(),
    ensures
        levels_wf(final(levels)@),
        levels_of(final(levels)@) == levels_flushed(levels_of(old(levels)@), run@),
{
    let ghost view = levels_of(levels@);
    let ghost shown = run@;
    if levels.len() == 0 {
        let mut level: Vec<Run> = Vec::new();
        level.push(run);
        proof {
            assert(runs_of(level@) =~= seq![shown]);
        }
        levels.push(level);
        proof {
            assert(levels_of(levels@) =~= seq![seq![shown]]);
        }
    } else {
        let ghost was = levels@;
        let mut level: Vec<Run> = Vec::new();
        std::mem::swap(&mut level, &mut levels[0]);
        let ghost runs = level@;
        proof {
            assert(runs_wf(was[0]@));
        }
        level.insert(0, run);
        let ghost now = level@;
        proof {
            assert(runs_of(now) =~= seq![shown] + runs_of(runs));
            assert forall|i: int| 0 <= i < now.len() implies (#[trigger] now[i]).wf() by {
                if i > 0 {
                    assert(now[i] == runs[i - 1]);
                }
            }
        }
        std::mem::swap(&mut level, &mut levels[0]);
        proof {
            assert(levels_of(levels@) =~= view.update(0, seq![shown] + view[0]));
            assert forall|i: int| 0 <= i < levels@.len() implies runs_wf(
                (#[trigger] levels@[i])@,
            ) by {
                if i != 0 {
                    assert(levels@[i] == was[i]);
                }
            }
        }
    }
}

/// Folds the runs of one level, where they can be.
pub fn fold_level(levels: &mut Vec<Vec<Run>>, l: usize)
    requires
        l < old(levels)@.len(),
        levels_wf(old(levels)@),
    ensures
        levels_wf(final(levels)@),
        levels_of(final(levels)@) == levels_of(old(levels)@).update(
            l as int,
            coalesced(levels_of(old(levels)@)[l as int]),
        ),
{
    let ghost was = levels@;
    let mut level: Vec<Run> = Vec::new();
    std::mem::swap(&mut level, &mut levels[l]);
    proof {
        assert(runs_wf(was[l as int]@));
    }
    coalesce_disjoint_runs(&mut level);
    let ghost now = runs_of(level@);
    std::mem::swap(&mut level, &mut levels[l]);
    proof {
        assert(levels_of(levels@) =~= levels_of(was).update(l as int, now));
        assert forall|i: int| 0 <= i < levels@.len() implies runs_wf((#[trigger] levels@[i])@) by {
            if i != l {
                assert(levels@[i] == was[i]);
            }
        }
    }
}

/// Adds the writing of tables to what has to be done.
pub fn push_writes(actions: &mut Vec<DiskAction>, tables: &Vec<NamedTable>)
    ensures
        actions_of(final(actions)@) == actions_of(old(actions)@) + table_writes(
            tables_of(tables@),
        ),
{
    let ghost first = actions_of(actions@);
    let ghost writes = table_writes(tables_of(tables@));
    let mut i: usize = 0;
    proof {
        assert(first + writes.take(0) =~= first);
    }
    while i < tables.len()
        invariant
            i <= tables@.len(),
            writes == table_writes(tables_of(tables@)),
            actions_of(actions@) == first + writes.take(i as int),
        decreases tables@.len() - i,
    {
        let ghost had = actions_of(actions@);
        let name: String = tables[i].name.clone();
        let bytes: Vec<u8> = copy_bytes(tables[i].table.bytes());
        actions.push(DiskAction::WriteTable { name, bytes });
        proof {
            assert(actions_of(actions@) =~= had.push(writes[i as int]));
            assert(first + writes.take(i + 1) =~= (first + writes.take(i as int)).push(
                writes[i as int],
            ));
        }
        i = i + 1;
    }
    proof {
        assert(writes.take(i as int) =~= writes);
    }
}

/// Adds the removal of files to what has to be done.
pub fn push_removals(actions: &mut Vec<DiskAction>, names: Vec<String>)
    ensures
        actions_of(final(actions)@) == actions_of(old(actions)@) + table_removals(
            names_of(names@),
        ),
{
    let ghost first = actions_of(actions@);
    let ghost removals = table_removals(names_of(names@));
    let mut i: usize = 0;
    proof {
        assert(first + removals.take(0) =~= first);
    }
    while i < names.len()
        invariant
            i <= names@.len(),
            removals == table_removals(names_of(names@)),
            actions_of(actions@) == first + removals.take(i as int),
        decreases names@.len() - i,
    {
        let ghost had = actions_of(actions@);
        let name: String = names[i].clone();
        actions.push(DiskAction::RemoveTable { name });
        proof {
            assert(actions_of(actions@) =~= had.push(removals[i as int]));
            assert(first + removals.take(i + 1) =~= (first + removals.take(i as int)).push(
                removals[i as int],
            ));
        }
        i = i + 1;
    }
    proof {
        assert(removals.take(i as int) =~= removals);
    }
}

} // verus!
