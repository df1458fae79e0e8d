//! How a compaction merges.
//!
//! The growth scheme decides when, and hands over a request; the merge policy
//! turns it into a concrete job. [`Leveling`] merges the sources into the files
//! that they meet at the target level, keeping one run per level: cheap reads,
//! expensive writes. [`Tiering`] appends the sources as a new run, touching
//! nothing already there: cheap writes, expensive reads. [`Fluid`] sets the
//! number of runs level by level, and has both as its end points.

use vstd::prelude::*;

use super::growth::{orderly, CompactionRequest};
use super::shape::{
    deepest, indices_of, ranges_meet, FileShape, LevelShape, RunShape, TreeShape,
};
use super::sstable::key_view;

pub mod ecotune;
pub mod fluid;
pub mod laws;
pub mod lerp;
pub mod leveling;
pub mod models;
pub mod propagation;
pub mod tiering;
pub mod wide;

pub use ecotune::{Decision, EcoTuneConfig, EcoTunePolicy, ScheduledMerge};
pub use fluid::Fluid;
pub use lerp::{Lerp, LerpConfig, Mission};
pub use leveling::Leveling;
pub use propagation::{propagate_monkey, propagate_uniform, Policy};
pub use tiering::Tiering;

verus! {

/// Files selected from one run.
#[derive(Debug, Clone, PartialEq, Eq)]
pub struct RunFiles {
    /// Index into the level's runs.
    pub run: usize,
    /// Indices into that run's files, ascending by key.
    pub files: Vec<usize>,
}

/// Files selected from one level.
#[derive(Debug, Clone, PartialEq, Eq)]
pub struct LevelFiles {
    pub level: usize,
    /// Runs within that level, newest first.
    pub runs: Vec<RunFiles>,
}

/// The number of files in selections.
pub open spec fn selected_count(runs: Seq<RunFiles>) -> nat
    decreases runs.len(),
{
    if runs.len() == 0 {
        0
    } else {
        selected_count(runs.drop_last()) + runs.last().files@.len()
    }
}

fn count_selected(runs: &Vec<RunFiles>) -> (count: usize)
    ensures
        count == super::shape::saturated_count(selected_count(runs@)),
{
    let mut count: usize = 0;
    let mut i: usize = 0;
    while i < runs.len()
        invariant
            i <= runs@.len(),
            count == super::shape::saturated_count(selected_count(runs@.take(i as int))),
        decreases runs@.len() - i,
    {
        proof {
            assert(runs@.take(i + 1).drop_last() =~= runs@.take(i as int));
        }
        count = count.saturating_add(runs[i].files.len());
        i = i + 1;
    }
    proof {
        assert(runs@.take(i as int) =~= runs@);
    }
    count
}

impl LevelFiles {
    /// The number of files selected.
    pub fn file_count(&self) -> (count: usize)
        ensures
            count == super::shape::saturated_count(selected_count(self.runs@)),
    {
        count_selected(&self.runs)
    }
}

/// A unit of compaction work.
#[derive(Debug, Clone, PartialEq, Eq)]
pub struct CompactionJob {
    /// Levels to merge, shallowest first: shallower levels hold newer data.
    pub sources: Vec<LevelFiles>,
    pub target_level: usize,
    /// Files at the target level to rewrite.
    pub targets: Vec<RunFiles>,
    /// Whether tombstones may be dropped: true only when nothing that could
    /// hold an older version of these keys survives the merge.
    pub drop_tombstones: bool,
}

/// The runs in selected levels.
pub open spec fn level_runs(levels: Seq<LevelFiles>) -> nat
    decreases levels.len(),
{
    if levels.len() == 0 {
        0
    } else {
        level_runs(levels.drop_last()) + levels.last().runs@.len()
    }
}

/// The files in selected levels.
pub open spec fn level_files(levels: Seq<LevelFiles>) -> nat
    decreases levels.len(),
{
    if levels.len() == 0 {
        0
    } else {
        level_files(levels.drop_last()) + selected_count(levels.last().runs@)
    }
}

impl CompactionJob {
    /// The number of runs that the merge reads from.
    pub fn input_run_count(&self) -> (count: usize)
        ensures
            count == super::shape::saturated_count(
                level_runs(self.sources@) + self.targets@.len(),
            ),
    {
        let mut count: usize = 0;
        let mut i: usize = 0;
        while i < self.sources.len()
            invariant
                i <= self.sources@.len(),
                count == super::shape::saturated_count(level_runs(self.sources@.take(i as int))),
            decreases self.sources@.len() - i,
        {
            proof {
                assert(self.sources@.take(i + 1).drop_last() =~= self.sources@.take(i as int));
            }
            count = count.saturating_add(self.sources[i].runs.len());
            i = i + 1;
        }
        proof {
            assert(self.sources@.take(i as int) =~= self.sources@);
        }
        count.saturating_add(self.targets.len())
    }

    /// The number of files that the merge rewrites.
    pub fn input_file_count(&self) -> (count: usize)
        ensures
            count == super::shape::saturated_count(
                level_files(self.sources@) + selected_count(self.targets@),
            ),
    {
        let mut count: usize = 0;
        let mut i: usize = 0;
        while i < self.sources.len()
            invariant
                i <= self.sources@.len(),
                count == super::shape::saturated_count(level_files(self.sources@.take(i as int))),
            decreases self.sources@.len() - i,
        {
            proof {
                assert(self.sources@.take(i + 1).drop_last() =~= self.sources@.take(i as int));
            }
            count = count.saturating_add(self.sources[i].file_count());
            i = i + 1;
        }
        proof {
            assert(self.sources@.take(i as int) =~= self.sources@);
        }
        count.saturating_add(count_selected(&self.targets))
    }
}

// ---------------------------------------------------------------------------
// What makes a job safe
// ---------------------------------------------------------------------------

/// Runs and files say where they are.
pub open spec fn well_indexed(tree: TreeShape) -> bool {
    forall|l: int, r: int|
        0 <= l < tree.levels@.len() && 0 <= r < tree.levels@[l].runs@.len() ==> run_indexed(
            #[trigger] tree.levels@[l].runs@[r],
            r,
        )
}

/// A run and its files say where they are.
pub open spec fn run_indexed(run: RunShape, r: int) -> bool {
    &&& run.index == r
    &&& forall|f: int| 0 <= f < run.files@.len() ==> (#[trigger] run.files@[f]).index == f
}

/// There is such a file.
pub open spec fn has_file(tree: TreeShape, l: int, r: int, f: int) -> bool {
    &&& 0 <= l < tree.levels@.len()
    &&& 0 <= r < tree.levels@[l].runs@.len()
    &&& 0 <= f < tree.levels@[l].runs@[r].files@.len()
}

/// A file by its place.
pub open spec fn file_at(tree: TreeShape, l: int, r: int, f: int) -> FileShape {
    tree.levels@[l].runs@[r].files@[f]
}

/// The selections name file `f` of run `r`.
pub open spec fn picks(runs: Seq<RunFiles>, r: int, f: int) -> bool {
    exists|i: int|
        0 <= i < runs.len() && (#[trigger] runs[i]).run == r && runs[i].files@.contains(f as usize)
}

/// The sources name file `f` of run `r` of level `l`.
pub open spec fn sources_pick(sources: Seq<LevelFiles>, l: int, r: int, f: int) -> bool {
    exists|s: int|
        0 <= s < sources.len() && (#[trigger] sources[s]).level == l && picks(
            sources[s].runs@,
            r,
            f,
        )
}

/// The job consumes a file.
pub open spec fn taken(job: CompactionJob, l: int, r: int, f: int) -> bool {
    ||| sources_pick(job.sources@, l, r, f)
    ||| l == job.target_level && picks(job.targets@, r, f)
}

/// The key ranges of two files meet.
pub open spec fn files_meet(a: FileShape, b: FileShape) -> bool {
    ranges_meet(
        key_view(a.min_key),
        key_view(a.max_key),
        key_view(b.min_key),
        key_view(b.max_key),
    )
}

/// Run `r` of level `l` is read before run `r2` of level `l2`.
pub open spec fn newer(l: int, r: int, l2: int, r2: int) -> bool {
    l < l2 || l == l2 && r < r2
}

/// Selections name runs newest first, each once.
pub open spec fn in_order(runs: Seq<RunFiles>) -> bool {
    forall|i: int, j: int|
        #![trigger runs[i], runs[j]]
        0 <= i < j < runs.len() ==> runs[i].run < runs[j].run
}

/// The job lists its inputs newest first, each once, none of them below the
/// target.
pub open spec fn lists_in_order(job: CompactionJob) -> bool {
    &&& forall|i: int, j: int|
        #![trigger job.sources@[i], job.sources@[j]]
        0 <= i < j < job.sources@.len() ==> job.sources@[i].level < job.sources@[j].level
    &&& forall|i: int|
        0 <= i < job.sources@.len() ==> in_order((#[trigger] job.sources@[i]).runs@)
            && job.sources@[i].level <= job.target_level
    &&& in_order(job.targets@)
    &&& forall|i: int|
        0 <= i < job.sources@.len() && (#[trigger] job.sources@[i]).level == job.target_level
            ==> job.targets@.len() == 0
}

/// A file that is consumed may share keys with one that is not only where the
/// reads still find the newer first.
pub open spec fn pair_safe(
    tree: TreeShape,
    job: CompactionJob,
    l: int,
    r: int,
    f: int,
    l2: int,
    r2: int,
    f2: int,
) -> bool {
    has_file(tree, l, r, f) && has_file(tree, l2, r2, f2) && taken(job, l, r, f) && !taken(
        job,
        l2,
        r2,
        f2,
    ) && !(l == l2 && r == r2) && files_meet(
        file_at(tree, l, r, f),
        file_at(tree, l2, r2, f2),
    ) ==> {
        // Nothing older stays above what moves down,
        &&& !(l2 < job.target_level && newer(l, r, l2, r2))
        // nothing newer at the target ends up below what is rewritten,
        &&& !(l == job.target_level && l2 == job.target_level && r2 < r)
        // and nothing older survives a tombstone that is dropped.
        &&& !(job.drop_tombstones && l2 >= job.target_level)
    }
}

/// Performing the job changes no answer that the tree gives.
pub open spec fn safe(tree: TreeShape, job: CompactionJob) -> bool {
    &&& lists_in_order(job)
    &&& forall|l: int, r: int, f: int, l2: int, r2: int, f2: int| #[trigger]
        pair_safe(tree, job, l, r, f, l2, r2, f2)
}

/// Turns a scheduled compaction into a concrete merge.
pub trait MergePolicy {
    /// The policy can plan.
    spec fn ready(&self) -> bool;

    /// A short name.
    fn name(&self) -> (name: &'static str)
        ensures
            name@.len() > 0,
    ;

    /// Plans the compaction that was requested, or nothing if the levels named
    /// hold nothing to move.
    fn plan(&self, tree: &TreeShape, request: CompactionRequest) -> (job: Option<CompactionJob>)
        requires
            self.ready(),
        ensures
            job matches Some(job) ==> job.target_level == request.target_level,
            well_indexed(*tree) && orderly(request) ==> (job matches Some(job) ==> safe(*tree, job)),
    ;

    /// How many runs a level may hold.
    fn runs_per_level(&self) -> usize
        requires
            self.ready(),
    ;
}

// ---------------------------------------------------------------------------
// Selecting files
// ---------------------------------------------------------------------------

/// The runs that hold files.
pub open spec fn occupied_runs(runs: Seq<RunShape>) -> Seq<RunShape> {
    runs.filter(|run: RunShape| run.files@.len() > 0)
}

/// A selection is all of a run.
pub open spec fn is_whole(selection: RunFiles, run: RunShape) -> bool {
    selection.run == run.index && selection.files@ == indices_of(run.files@)
}

/// Selections are all of these runs, in order.
pub open spec fn are_whole(selections: Seq<RunFiles>, runs: Seq<RunShape>) -> bool {
    &&& selections.len() == runs.len()
    &&& forall|i: int| 0 <= i < runs.len() ==> is_whole(#[trigger] selections[i], runs[i])
}

/// The newest runs whose units fit the budget, up to the one that meets it.
pub open spec fn within_units(runs: Seq<RunShape>, budget: nat) -> Seq<RunShape>
    decreases runs.len(),
{
    if runs.len() == 0 {
        Seq::empty()
    } else if runs[0].files@.len() == 0 {
        within_units(runs.drop_first(), budget)
    } else if runs[0].units > budget {
        Seq::empty()
    } else if runs[0].units == budget {
        seq![runs[0]]
    } else {
        seq![runs[0]] + within_units(runs.drop_first(), (budget - runs[0].units) as nat)
    }
}

/// The runs of a level that a request takes.
pub open spec fn requested_runs(tree: TreeShape, level: int, merge_units: Option<usize>) -> Seq<
    RunShape,
> {
    match merge_units {
        None => occupied_runs(tree.runs_at(level)),
        Some(units) => {
            let runs = within_units(tree.runs_at(level), units as nat);
            if runs.len() < 2 {
                Seq::empty()
            } else {
                runs
            }
        },
    }
}

/// A fresh selection of every file of a run.
pub fn whole_run(run: &RunShape) -> (selection: RunFiles)
    ensures
        is_whole(selection, *run),
{
    let mut files: Vec<usize> = Vec::new();
    let mut i: usize = 0;
    while i < run.files.len()
        invariant
            i <= run.files@.len(),
            files@ == indices_of(run.files@.take(i as int)),
        decreases run.files@.len() - i,
    {
        files.push(run.files[i].index);
        i = i + 1;
        proof {
            assert(files@ =~= indices_of(run.files@.take(i as int)));
        }
    }
    proof {
        assert(run.files@.take(i as int) =~= run.files@);
    }
    RunFiles { run: run.index, files }
}

/// Every file of every run of a level, newest run first.
pub fn all_files(tree: &TreeShape, level: usize) -> (selections: Vec<RunFiles>)
    ensures
        are_whole(selections@, occupied_runs(tree.runs_at(level as int))),
{
    let mut selections: Vec<RunFiles> = Vec::new();
    proof {
        reveal(Seq::filter);
    }
    if level >= tree.levels.len() {
        return selections;
    }
    let shape: &LevelShape = &tree.levels[level];
    let ghost keep = |run: RunShape| run.files@.len() > 0;
    let mut i: usize = 0;
    proof {
        assert(shape.runs@.take(0).filter(keep).len() == 0);
    }
    while i < shape.runs.len()
        invariant
            i <= shape.runs@.len(),
            keep == (|run: RunShape| run.files@.len() > 0),
            are_whole(selections@, shape.runs@.take(i as int).filter(keep)),
        decreases shape.runs@.len() - i,
    {
        let ghost done = shape.runs@.take(i as int);
        proof {
            assert(shape.runs@.take(i + 1) =~= done.push(shape.runs@[i as int]));
            super::reader::lemma_filter_push(done, shape.runs@[i as int], keep);
        }
        if !shape.runs[i].is_empty() {
            selections.push(whole_run(&shape.runs[i]));
        }
        i = i + 1;
    }
    proof {
        assert(shape.runs@.take(i as int) =~= shape.runs@);
    }
    selections
}

/// The newest runs of a level whose units together reach `units`.
///
/// Stops short rather than overshooting, and selects nothing if fewer than two
/// runs would be merged.
pub fn newest_runs_by_units(tree: &TreeShape, level: usize, units: usize) -> (selections: Vec<
    RunFiles,
>)
    ensures
        are_whole(selections@, requested_runs(*tree, level as int, Some(units))),
{
    let mut selections: Vec<RunFiles> = Vec::new();
    if level >= tree.levels.len() {
        return selections;
    }
    let shape: &LevelShape = &tree.levels[level];
    let ghost all = within_units(shape.runs@, units as nat);
    let mut budget: usize = units;
    let mut i: usize = 0;
    proof {
        assert(shape.runs@.skip(0) =~= shape.runs@);
        assert(all.skip(0) =~= all);
    }
    while i < shape.runs.len()
        invariant_except_break
            i <= shape.runs@.len(),
            shape == tree.levels@[level as int],
            level < tree.levels@.len(),
            all == within_units(shape.runs@, units as nat),
            selections@.len() <= all.len(),
            are_whole(selections@, all.take(selections@.len() as int)),
            all.skip(selections@.len() as int) == within_units(
                shape.runs@.skip(i as int),
                budget as nat,
            ),
        ensures
            are_whole(selections@, all),
        decreases shape.runs@.len() - i,
    {
        let ghost rest = shape.runs@.skip(i as int);
        let ghost n = selections@.len() as int;
        proof {
            assert(rest[0] == shape.runs@[i as int]);
            assert(rest.drop_first() =~= shape.runs@.skip(i + 1));
        }
        if shape.runs[i].is_empty() {
            i = i + 1;
            continue;
        }
        if shape.runs[i].units > budget {
            proof {
                assert(all.skip(n).len() == 0);
                assert(all.take(n) =~= all);
            }
            break;
        }
        selections.push(whole_run(&shape.runs[i]));
        proof {
            assert(all.skip(n).len() >= 1);
            assert(all.skip(n)[0] == shape.runs@[i as int]);
            assert(all.take(n + 1) =~= all.take(n).push(shape.runs@[i as int]));
            assert(all.skip(n).drop_first() =~= all.skip(n + 1));
        }
        if shape.runs[i].units == budget {
            proof {
                assert(all.skip(n).len() == 1);
                assert(all.take(n + 1) =~= all);
            }
            break;
        }
        proof {
            assert((seq![rest[0]] + within_units(
                rest.drop_first(),
                (budget - rest[0].units) as nat,
            )).drop_first() =~= within_units(
                rest.drop_first(),
                (budget - rest[0].units) as nat,
            ));
        }
        budget = budget - shape.runs[i].units;
        i = i + 1;
        if i >= shape.runs.len() {
            proof {
                assert(shape.runs@.skip(i as int).len() == 0);
                assert(all.take(n + 1) =~= all);
            }
            break;
        }
    }
    if selections.len() < 2 {
        return Vec::new();
    }
    selections
}

/// The runs of a level that a request takes.
pub fn requested_files(tree: &TreeShape, level: usize, merge_units: Option<usize>) -> (selections:
    Vec<RunFiles>)
    ensures
        are_whole(selections@, requested_runs(*tree, level as int, merge_units)),
{
    match merge_units {
        Some(units) => newest_runs_by_units(tree, level, units),
        None => all_files(tree, level),
    }
}

/// The levels from `from` up to before `upto` that a request takes anything of.
pub open spec fn requested_levels(
    tree: TreeShape,
    from: int,
    upto: int,
    merge_units: Option<usize>,
) -> Seq<int>
    decreases upto - from,
{
    if upto <= from {
        Seq::empty()
    } else {
        let before = requested_levels(tree, from, upto - 1, merge_units);
        if requested_runs(tree, upto - 1, merge_units).len() == 0 {
            before
        } else {
            before.push(upto - 1)
        }
    }
}

/// Selections are everything that a request takes of these levels.
pub open spec fn takes_levels(
    sources: Seq<LevelFiles>,
    tree: TreeShape,
    levels: Seq<int>,
    merge_units: Option<usize>,
) -> bool {
    &&& sources.len() == levels.len()
    &&& forall|i: int|
        0 <= i < levels.len() ==> (#[trigger] sources[i]).level == levels[i] && are_whole(
            sources[i].runs@,
            requested_runs(tree, levels[i], merge_units),
        )
}

/// Selections are everything that a request takes.
pub open spec fn takes_request(
    sources: Seq<LevelFiles>,
    tree: TreeShape,
    request: CompactionRequest,
) -> bool {
    takes_levels(
        sources,
        tree,
        requested_levels(
            tree,
            request.first_level as int,
            request.last_level + 1,
            request.merge_units,
        ),
        request.merge_units,
    )
}

/// Levels beyond the deepest have nothing to take.
proof fn lemma_levels_beyond(tree: TreeShape, from: int, upto: int, merge_units: Option<usize>)
    requires
        tree.levels@.len() <= upto,
    ensures
        requested_levels(tree, from, upto, merge_units) == requested_levels(
            tree,
            from,
            tree.levels@.len() as int,
            merge_units,
        ),
    decreases upto,
{
    if upto > tree.levels@.len() {
        reveal(Seq::filter);
        assert(tree.runs_at(upto - 1).len() == 0);
        assert(requested_runs(tree, upto - 1, merge_units).len() == 0);
        lemma_levels_beyond(tree, from, upto - 1, merge_units);
        if upto <= from {
            assert(requested_levels(tree, from, upto, merge_units) =~= Seq::<int>::empty());
        }
    }
}

/// Every file that a request takes, shallowest level first.
pub fn all_source_levels(tree: &TreeShape, request: CompactionRequest) -> (sources: Vec<LevelFiles>)
    ensures
        takes_request(sources@, *tree, request),
{
    let mut sources: Vec<LevelFiles> = Vec::new();
    let mut level: usize = request.first_level;
    while level < tree.levels.len() && level <= request.last_level
        invariant
            request.first_level <= level,
            level <= request.last_level + 1 || level == request.first_level,
            level <= tree.levels@.len() || level == request.first_level,
            takes_levels(
                sources@,
                *tree,
                requested_levels(
                    *tree,
                    request.first_level as int,
                    level as int,
                    request.merge_units,
                ),
                request.merge_units,
            ),
        decreases tree.levels@.len() - level,
    {
        let runs: Vec<RunFiles> = requested_files(tree, level, request.merge_units);
        if runs.len() > 0 {
            sources.push(LevelFiles { level, runs });
        }
        level = level + 1;
    }
    proof {
        if level > request.last_level {
            if level == request.last_level + 1 {
            } else {
                assert(requested_levels(
                    *tree,
                    request.first_level as int,
                    request.last_level + 1,
                    request.merge_units,
                ) =~= Seq::<int>::empty());
            }
        } else {
            lemma_levels_beyond(
                *tree,
                request.first_level as int,
                request.last_level + 1,
                request.merge_units,
            );
            lemma_levels_beyond(
                *tree,
                request.first_level as int,
                level as int,
                request.merge_units,
            );
        }
    }
    sources
}

// ---------------------------------------------------------------------------
// Why whole levels are safe to take
// ---------------------------------------------------------------------------

/// The runs that hold files, by their places.
pub proof fn lemma_occupied(runs: Seq<RunShape>)
    requires
        forall|r: int| 0 <= r < runs.len() ==> (#[trigger] runs[r]).index == r,
    ensures
        forall|i: int|
            0 <= i < occupied_runs(runs).len() ==> {
                let run = #[trigger] occupied_runs(runs)[i];
                run.files@.len() > 0 && run.index < runs.len() && runs[run.index as int] == run
            },
        forall|i: int, j: int|
            #![trigger occupied_runs(runs)[i], occupied_runs(runs)[j]]
            0 <= i < j < occupied_runs(runs).len() ==> occupied_runs(runs)[i].index
                < occupied_runs(runs)[j].index,
        forall|r: int|
            0 <= r < runs.len() && (#[trigger] runs[r]).files@.len() > 0 ==> occupied_runs(
                runs,
            ).contains(runs[r]),
    decreases runs.len(),
{
    let keep = |run: RunShape| run.files@.len() > 0;
    reveal(Seq::filter);
    if runs.len() > 0 {
        let head = runs.drop_last();
        let last = runs.last();
        assert forall|r: int| 0 <= r < head.len() implies (#[trigger] head[r]).index == r by {
            assert(head[r] == runs[r]);
        }
        lemma_occupied(head);
        assert(runs =~= head.push(last));
        super::reader::lemma_filter_push(head, last, keep);
        let before = occupied_runs(head);
        let after = occupied_runs(runs);
        assert(runs[runs.len() - 1].index == runs.len() - 1);
        assert forall|i: int| 0 <= i < after.len() implies {
            let run = #[trigger] after[i];
            run.files@.len() > 0 && run.index < runs.len() && runs[run.index as int] == run
        } by {
            if i < before.len() {
                assert(after[i] == before[i]);
                assert(head[before[i].index as int] == runs[before[i].index as int]);
            }
        }
        assert forall|i: int, j: int|
            #![trigger after[i], after[j]]
            0 <= i < j < after.len() implies after[i].index < after[j].index by {
            assert(after[i] == before[i]);
            if j < before.len() {
                assert(after[j] == before[j]);
            }
        }
        assert forall|r: int|
            0 <= r < runs.len() && (#[trigger] runs[r]).files@.len() > 0 implies after.contains(
            runs[r],
        ) by {
            if r < head.len() {
                assert(head[r] == runs[r]);
                let i = choose|i: int| 0 <= i < before.len() && before[i] == head[r];
                assert(after[i] == runs[r]);
            } else {
                assert(after[after.len() - 1] == runs[r]);
            }
        }
    }
}

/// What fits a budget of units is the newest of the runs that hold files.
pub proof fn lemma_within_units_prefix(runs: Seq<RunShape>, budget: nat)
    ensures
        within_units(runs, budget).len() <= occupied_runs(runs).len(),
        within_units(runs, budget) == occupied_runs(runs).take(
            within_units(runs, budget).len() as int,
        ),
    decreases runs.len(),
{
    let keep = |run: RunShape| run.files@.len() > 0;
    let chosen = within_units(runs, budget);
    if runs.len() == 0 {
        assert(chosen =~= occupied_runs(runs).take(0));
    } else {
        let rest = runs.drop_first();
        lemma_filter_first(runs, keep);
        if runs[0].files@.len() == 0 {
            lemma_within_units_prefix(rest, budget);
        } else if runs[0].units > budget {
            assert(chosen =~= occupied_runs(runs).take(0));
        } else if runs[0].units == budget {
            assert(chosen =~= occupied_runs(runs).take(1));
        } else {
            let left = (budget - runs[0].units) as nat;
            lemma_within_units_prefix(rest, left);
            assert(chosen =~= occupied_runs(runs).take(chosen.len() as int));
        }
    }
}

/// Filtering a list from its front.
pub proof fn lemma_filter_first<T>(list: Seq<T>, keep: spec_fn(T) -> bool)
    requires
        list.len() > 0,
    ensures
        list.filter(keep) == if keep(list[0]) {
            seq![list[0]] + list.drop_first().filter(keep)
        } else {
            list.drop_first().filter(keep)
        },
    decreases list.len(),
{
    reveal(Seq::filter);
    if list.len() == 1 {
        assert(list.drop_last() =~= Seq::<T>::empty());
        assert(list.drop_first() =~= Seq::<T>::empty());
        assert(list.drop_last().filter(keep) =~= Seq::<T>::empty());
        assert(list.drop_first().filter(keep) =~= Seq::<T>::empty());
        assert(list.filter(keep) =~= if keep(list[0]) {
            seq![list[0]] + list.drop_first().filter(keep)
        } else {
            list.drop_first().filter(keep)
        });
    } else {
        lemma_filter_first(list.drop_last(), keep);
        assert(list.drop_last().drop_first() =~= list.drop_first().drop_last());
        assert(list.filter(keep) =~= if keep(list[0]) {
            seq![list[0]] + list.drop_first().filter(keep)
        } else {
            list.drop_first().filter(keep)
        });
    }
}

/// What a request takes of a level is the newest of the runs that hold files.
pub proof fn lemma_requested_prefix(tree: TreeShape, level: int, merge_units: Option<usize>)
    ensures
        requested_runs(tree, level, merge_units).len() <= occupied_runs(tree.runs_at(level)).len(),
        requested_runs(tree, level, merge_units) == occupied_runs(tree.runs_at(level)).take(
            requested_runs(tree, level, merge_units).len() as int,
        ),
{
    let all = occupied_runs(tree.runs_at(level));
    match merge_units {
        None => {
            assert(all =~= all.take(all.len() as int));
        },
        Some(units) => {
            lemma_within_units_prefix(tree.runs_at(level), units as nat);
            assert(all.take(0) =~= Seq::<RunShape>::empty());
        },
    }
}

pub proof fn lemma_runs_indexed(tree: TreeShape, level: int)
    requires
        well_indexed(tree),
    ensures
        forall|r: int|
            0 <= r < tree.runs_at(level).len() ==> (#[trigger] tree.runs_at(level)[r]).index == r,
{
    assert forall|r: int| 0 <= r < tree.runs_at(level).len() implies (#[trigger] tree.runs_at(
        level,
    )[r]).index == r by {
        assert(run_indexed(tree.levels@[level].runs@[r], r));
    }
}

/// A run that holds files is among the runs that do.
pub proof fn lemma_occupied_contains(tree: TreeShape, level: int, r: int)
    requires
        well_indexed(tree),
        0 <= r < tree.runs_at(level).len(),
        tree.runs_at(level)[r].files@.len() > 0,
    ensures
        occupied_runs(tree.runs_at(level)).contains(tree.runs_at(level)[r]),
{
    lemma_runs_indexed(tree, level);
    lemma_occupied(tree.runs_at(level));
}

/// Selections of the newest runs of a level are in order; they name every file
/// of each of these runs; and a run named leaves no newer one out.
pub proof fn lemma_prefix_picks(
    tree: TreeShape,
    level: int,
    selections: Seq<RunFiles>,
    runs: Seq<RunShape>,
)
    requires
        well_indexed(tree),
        are_whole(selections, runs),
        runs.len() <= occupied_runs(tree.runs_at(level)).len(),
        runs == occupied_runs(tree.runs_at(level)).take(runs.len() as int),
    ensures
        in_order(selections),
        // Whatever is named leaves nothing newer out.
        forall|r: int, f: int, r2: int, f2: int|
            #![trigger picks(selections, r, f), has_file(tree, level, r2, f2)]
            picks(selections, r, f) && r2 <= r && has_file(tree, level, r2, f2) ==> picks(
                selections,
                r2,
                f2,
            ),
        // All runs that hold files: all files are named.
        runs.len() == occupied_runs(tree.runs_at(level)).len() ==> forall|r2: int, f2: int| #[trigger]
            has_file(tree, level, r2, f2) ==> picks(selections, r2, f2),
{
    let all = tree.runs_at(level);
    let held = occupied_runs(all);
    lemma_runs_indexed(tree, level);
    lemma_occupied(all);
    assert forall|i: int| 0 <= i < runs.len() implies #[trigger] runs[i] == held[i] by {}
    assert forall|i: int, j: int|
        #![trigger selections[i], selections[j]]
        0 <= i < j < selections.len() implies selections[i].run < selections[j].run by {
        assert(is_whole(selections[i], runs[i]));
        assert(is_whole(selections[j], runs[j]));
        assert(held[i].index < held[j].index);
    }
    assert forall|r2: int, f2: int, j: int|
        has_file(tree, level, r2, f2) && 0 <= j < runs.len() && held[j] == all[r2] implies picks(
        selections,
        r2,
        f2,
    ) by {
        lemma_whole_names(tree, level, selections, runs, j, r2, f2);
    }
    assert forall|r: int, f: int, r2: int, f2: int|
        #![trigger picks(selections, r, f), has_file(tree, level, r2, f2)]
        picks(selections, r, f) && r2 <= r && has_file(tree, level, r2, f2) implies picks(
        selections,
        r2,
        f2,
    ) by {
        let i = choose|i: int|
            0 <= i < selections.len() && (#[trigger] selections[i]).run == r
                && selections[i].files@.contains(f as usize);
        assert(is_whole(selections[i], runs[i]));
        assert(held[i].index == r);
        assert(all[r2].files@.len() > 0);
        assert(held.contains(all[r2]));
        let j = choose|j: int| 0 <= j < held.len() && held[j] == all[r2];
        assert(held[j].index == r2);
        if i < j {
            assert(held[i].index < held[j].index);
        }
        lemma_whole_names(tree, level, selections, runs, j, r2, f2);
    }
    if runs.len() == held.len() {
        assert forall|r2: int, f2: int| #[trigger] has_file(tree, level, r2, f2) implies picks(
            selections,
            r2,
            f2,
        ) by {
            assert(all[r2].files@.len() > 0);
            assert(held.contains(all[r2]));
            let j = choose|j: int| 0 <= j < held.len() && held[j] == all[r2];
            lemma_whole_names(tree, level, selections, runs, j, r2, f2);
        }
    }
}

proof fn lemma_whole_names(
    tree: TreeShape,
    level: int,
    selections: Seq<RunFiles>,
    runs: Seq<RunShape>,
    j: int,
    r: int,
    f: int,
)
    requires
        well_indexed(tree),
        are_whole(selections, runs),
        0 <= j < runs.len(),
        has_file(tree, level, r, f),
        runs[j] == tree.runs_at(level)[r],
    ensures
        picks(selections, r, f),
{
    let run = tree.levels@[level].runs@[r];
    assert(run_indexed(run, r));
    assert(is_whole(selections[j], runs[j]));
    assert(run.files@[f].index == f);
    assert(selections[j].files@[f] == f);
    assert(selections[j].files@.contains(f as usize));
}

/// The levels that a request takes of are those of its span that hold files.
pub proof fn lemma_requested_levels(tree: TreeShape, from: int, upto: int, merge_units: Option<usize>)
    ensures
        forall|i: int|
            0 <= i < requested_levels(tree, from, upto, merge_units).len() ==> {
                let level = #[trigger] requested_levels(tree, from, upto, merge_units)[i];
                from <= level < upto && requested_runs(tree, level, merge_units).len() > 0
            },
        forall|i: int, j: int|
            #![trigger requested_levels(tree, from, upto, merge_units)[i], requested_levels(tree, from, upto, merge_units)[j]]
            0 <= i < j < requested_levels(tree, from, upto, merge_units).len()
                ==> requested_levels(tree, from, upto, merge_units)[i] < requested_levels(
                tree,
                from,
                upto,
                merge_units,
            )[j],
        forall|level: int|
            from <= level < upto && #[trigger] requested_runs(tree, level, merge_units).len() > 0
                ==> requested_levels(tree, from, upto, merge_units).contains(level),
    decreases upto - from,
{
    let levels = requested_levels(tree, from, upto, merge_units);
    if from < upto {
        lemma_requested_levels(tree, from, upto - 1, merge_units);
        let before = requested_levels(tree, from, upto - 1, merge_units);
        assert forall|i: int| 0 <= i < levels.len() implies {
            let level = #[trigger] levels[i];
            from <= level < upto && requested_runs(tree, level, merge_units).len() > 0
        } by {
            if i < before.len() {
                assert(levels[i] == before[i]);
            }
        }
        assert forall|i: int, j: int|
            #![trigger levels[i], levels[j]]
            0 <= i < j < levels.len() implies levels[i] < levels[j] by {
            assert(levels[i] == before[i]);
            if j < before.len() {
                assert(levels[j] == before[j]);
            }
        }
        assert forall|level: int|
            from <= level < upto && #[trigger] requested_runs(tree, level, merge_units).len()
                > 0 implies levels.contains(level) by {
            if level < upto - 1 {
                let i = choose|i: int| 0 <= i < before.len() && before[i] == level;
                assert(levels[i] == level);
            } else {
                assert(levels[levels.len() - 1] == level);
            }
        }
    }
}

/// What the sources of a request name: levels in order; nothing outside its
/// span; of each level nothing newer left out; and, unless they go by units,
/// every file of the span.
pub proof fn lemma_sources_pick(
    tree: TreeShape,
    request: CompactionRequest,
    sources: Seq<LevelFiles>,
)
    requires
        well_indexed(tree),
        takes_request(sources, tree, request),
    ensures
        forall|i: int, j: int|
            #![trigger sources[i], sources[j]]
            0 <= i < j < sources.len() ==> sources[i].level < sources[j].level,
        forall|i: int|
            0 <= i < sources.len() ==> in_order((#[trigger] sources[i]).runs@)
                && request.first_level <= sources[i].level <= request.last_level,
        forall|l: int, r: int, f: int| #[trigger]
            sources_pick(sources, l, r, f) ==> request.first_level <= l <= request.last_level,
        forall|l: int, r: int, f: int, r2: int, f2: int|
            #![trigger sources_pick(sources, l, r, f), has_file(tree, l, r2, f2)]
            sources_pick(sources, l, r, f) && r2 <= r && has_file(tree, l, r2, f2)
                ==> sources_pick(sources, l, r2, f2),
        forall|l: int, r: int, f: int|
            #![trigger has_file(tree, l, r, f)]
            request.first_level <= l <= request.last_level && has_file(tree, l, r, f)
                && requested_runs(tree, l, request.merge_units).len() == occupied_runs(
                tree.runs_at(l),
            ).len() ==> sources_pick(sources, l, r, f),
{
    let levels = requested_levels(
        tree,
        request.first_level as int,
        request.last_level + 1,
        request.merge_units,
    );
    lemma_requested_levels(
        tree,
        request.first_level as int,
        request.last_level + 1,
        request.merge_units,
    );
    assert forall|i: int, j: int|
        #![trigger sources[i], sources[j]]
        0 <= i < j < sources.len() implies sources[i].level < sources[j].level by {
        assert(levels[i] < levels[j]);
    }
    assert forall|i: int| 0 <= i < sources.len() implies in_order((#[trigger] sources[i]).runs@)
        && request.first_level <= sources[i].level <= request.last_level by {
        assert(request.first_level <= levels[i]);
        let runs = requested_runs(tree, levels[i], request.merge_units);
        lemma_requested_prefix(tree, levels[i], request.merge_units);
        lemma_prefix_picks(tree, levels[i], sources[i].runs@, runs);
    }
    assert forall|l: int, r: int, f: int, r2: int, f2: int|
        #![trigger sources_pick(sources, l, r, f), has_file(tree, l, r2, f2)]
        sources_pick(sources, l, r, f) && r2 <= r && has_file(tree, l, r2, f2)
        implies sources_pick(sources, l, r2, f2) by {
        let s = choose|s: int|
            0 <= s < sources.len() && (#[trigger] sources[s]).level == l && picks(
                sources[s].runs@,
                r,
                f,
            );
        let runs = requested_runs(tree, levels[s], request.merge_units);
        lemma_requested_prefix(tree, levels[s], request.merge_units);
        lemma_prefix_picks(tree, levels[s], sources[s].runs@, runs);
        assert(picks(sources[s].runs@, r2, f2));
    }
    assert forall|l: int, r: int, f: int|
        #![trigger has_file(tree, l, r, f)]
        request.first_level <= l <= request.last_level && has_file(tree, l, r, f)
            && requested_runs(tree, l, request.merge_units).len() == occupied_runs(
            tree.runs_at(l),
        ).len() implies sources_pick(sources, l, r, f) by {
        let runs = requested_runs(tree, l, request.merge_units);
        lemma_requested_prefix(tree, l, request.merge_units);
        lemma_runs_indexed(tree, l);
        lemma_occupied(tree.runs_at(l));
        assert(tree.runs_at(l)[r].files@.len() > 0);
        assert(occupied_runs(tree.runs_at(l)).contains(tree.runs_at(l)[r]));
        assert(levels.contains(l));
        let s = choose|s: int| 0 <= s < levels.len() && levels[s] == l;
        assert(sources[s].level == l);
        lemma_prefix_picks(tree, l, sources[s].runs@, runs);
        assert(picks(sources[s].runs@, r, f));
    }
}

/// Nothing that holds files is left at the target by a request, nor below it.
pub open spec fn clears_below(tree: TreeShape, request: CompactionRequest) -> bool {
    let target = request.target_level as int;
    &&& deepest(tree, target)
    &&& if request.first_level <= target <= request.last_level {
        requested_runs(tree, target, request.merge_units).len() == occupied_runs(
            tree.runs_at(target),
        ).len()
    } else {
        !tree.occupied(target)
    }
}

/// Whether nothing that holds files is left at the target, nor below it.
pub fn leaves_nothing_older(tree: &TreeShape, request: CompactionRequest) -> (cleared: bool)
    ensures
        cleared == clears_below(*tree, request),
{
    if !super::shape::is_deepest_level(tree, request.target_level) {
        return false;
    }
    if request.first_level <= request.target_level && request.target_level <= request.last_level {
        let requested: Vec<RunFiles> = requested_files(
            tree,
            request.target_level,
            request.merge_units,
        );
        let held: Vec<RunFiles> = all_files(tree, request.target_level);
        requested.len() == held.len()
    } else {
        match tree.level(request.target_level) {
            Some(level) => level.is_empty(),
            None => true,
        }
    }
}

/// Where everything that a request names is taken, and nothing at the target is
/// rewritten, the job is safe.
pub proof fn lemma_whole_levels_are_safe(
    tree: TreeShape,
    request: CompactionRequest,
    job: CompactionJob,
)
    requires
        well_indexed(tree),
        orderly(request),
        takes_request(job.sources@, tree, request),
        job.targets@.len() == 0,
        job.target_level == request.target_level,
        job.drop_tombstones ==> clears_below(tree, request),
    ensures
        safe(tree, job),
{
    lemma_sources_pick(tree, request, job.sources@);
    assert forall|l: int, r: int, f: int, l2: int, r2: int, f2: int| #[trigger]
        pair_safe(tree, job, l, r, f, l2, r2, f2) by {
        if has_file(tree, l, r, f) && has_file(tree, l2, r2, f2) && taken(job, l, r, f) && !taken(
            job,
            l2,
            r2,
            f2,
        ) {
            assert(sources_pick(job.sources@, l, r, f));
            assert(!sources_pick(job.sources@, l2, r2, f2));
            if request.merge_units is None {
                assert(requested_runs(tree, l2, request.merge_units) == occupied_runs(
                    tree.runs_at(l2),
                ));
            }
            if job.drop_tombstones && l2 >= job.target_level {
                assert(!tree.levels@[l2].holds_nothing()) by {
                    assert(tree.levels@[l2].runs@[r2].files@.len() > 0);
                }
                assert(tree.occupied(l2));
            }
        }
    }
}

} // verus!
