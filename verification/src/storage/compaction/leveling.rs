//! Leveling: one run per level, merged eagerly.
//!
//! Every level from 1 down holds one run, so that a lookup probes at most one
//! run per level. Whenever data arrives at a level it is merged into the files
//! that it meets there. Level 0 is special: its runs come straight from memtable
//! flushes and meet each other anywhere, so it may hold several and is always
//! merged whole.
//!
//! Below level 0 a compaction may be partial: one file of the run, and the files
//! that it meets below. A level that holds more than one run cannot be sliced by
//! key range, and is merged whole.
//!
//! Every file at the target that the merged keys could be in is consumed, so
//! that at the deepest level tombstones have nothing left to shadow.

use vstd::prelude::*;

use super::{
    all_files, all_source_levels, are_whole, clears_below, file_at, files_meet, has_file, in_order,
    leaves_nothing_older, lemma_prefix_picks, lemma_sources_pick, lists_in_order, occupied_runs,
    orderly, pair_safe, picks, requested_runs, run_indexed, safe, sources_pick, taken,
    takes_request, well_indexed, CompactionJob, LevelFiles, MergePolicy, RunFiles,
};
use super::tiering::nothing_to_move;
use crate::storage::growth::vertical::Vertical;
use crate::storage::growth::{CompactionRequest, Granularity};
use crate::storage::order::{
    copy_bytes, key_before, lemma_lex_mixed, lemma_lex_total, lex_le, lex_lt,
};
use crate::storage::shape::{
    deepest, files_bytes, indices_of, is_deepest_level, saturated, FileShape, RunShape, TreeShape,
};
use crate::storage::sstable::key_view;
use crate::storage::Key;

verus! {

/// Runs that level 0 may gather unless told otherwise.
pub const DEFAULT_LEVEL0_RUN_TRIGGER: usize = 4;

/// The smallest of the keys that are known.
pub open spec fn least_key(keys: Seq<Option<Seq<u8>>>) -> Option<Seq<u8>>
    decreases keys.len(),
{
    if keys.len() == 0 {
        None
    } else {
        match (least_key(keys.drop_last()), keys.last()) {
            (None, last) => last,
            (Some(least), None) => Some(least),
            (Some(least), Some(key)) => if lex_lt(key, least) {
                Some(key)
            } else {
                Some(least)
            },
        }
    }
}

/// The largest of the keys that are known.
pub open spec fn greatest_key(keys: Seq<Option<Seq<u8>>>) -> Option<Seq<u8>>
    decreases keys.len(),
{
    if keys.len() == 0 {
        None
    } else {
        match (greatest_key(keys.drop_last()), keys.last()) {
            (None, last) => last,
            (Some(greatest), None) => Some(greatest),
            (Some(greatest), Some(key)) => if lex_lt(greatest, key) {
                Some(key)
            } else {
                Some(greatest)
            },
        }
    }
}

pub proof fn lemma_least_key(keys: Seq<Option<Seq<u8>>>, i: int)
    requires
        0 <= i < keys.len(),
        keys[i] is Some,
    ensures
        least_key(keys) is Some,
        lex_le(least_key(keys)->0, keys[i]->0),
    decreases keys.len(),
{
    let rest = keys.drop_last();
    if i < rest.len() {
        assert(rest[i] == keys[i]);
        lemma_least_key(rest, i);
        if keys.last() is Some && lex_lt(keys.last()->0, least_key(rest)->0) {
            lemma_lex_mixed(keys.last()->0, least_key(rest)->0, keys[i]->0);
        }
    } else if least_key(rest) is Some {
        lemma_lex_total(least_key(rest)->0, keys[i]->0);
    }
}

pub proof fn lemma_greatest_key(keys: Seq<Option<Seq<u8>>>, i: int)
    requires
        0 <= i < keys.len(),
        keys[i] is Some,
    ensures
        greatest_key(keys) is Some,
        lex_le(keys[i]->0, greatest_key(keys)->0),
    decreases keys.len(),
{
    let rest = keys.drop_last();
    if i < rest.len() {
        assert(rest[i] == keys[i]);
        lemma_greatest_key(rest, i);
        if keys.last() is Some && lex_lt(greatest_key(rest)->0, keys.last()->0) {
            lemma_lex_mixed(keys[i]->0, greatest_key(rest)->0, keys.last()->0);
        }
    } else if greatest_key(rest) is Some {
        lemma_lex_total(greatest_key(rest)->0, keys[i]->0);
    }
}

/// The smaller of two keys, where unknown keys do not count.
fn smaller(least: Option<Key>, key: Option<&Key>) -> (smaller: Option<Key>)
    ensures
        key_view(smaller) == match (key_view(least), key) {
            (None, None) => None,
            (None, Some(key)) => Some(key@),
            (Some(least), None) => Some(least),
            (Some(least), Some(key)) => if lex_lt(key@, least) {
                Some(key@)
            } else {
                Some(least)
            },
        },
{
    match (least, key) {
        (None, None) => None,
        (None, Some(key)) => Some(copy_bytes(key.as_slice())),
        (Some(least), None) => Some(least),
        (Some(least), Some(key)) => if key_before(key.as_slice(), least.as_slice()) {
            Some(copy_bytes(key.as_slice()))
        } else {
            Some(least)
        },
    }
}

/// The larger of two keys, where unknown keys do not count.
fn larger(greatest: Option<Key>, key: Option<&Key>) -> (larger: Option<Key>)
    ensures
        key_view(larger) == match (key_view(greatest), key) {
            (None, None) => None,
            (None, Some(key)) => Some(key@),
            (Some(greatest), None) => Some(greatest),
            (Some(greatest), Some(key)) => if lex_lt(greatest, key@) {
                Some(key@)
            } else {
                Some(greatest)
            },
        },
{
    match (greatest, key) {
        (None, None) => None,
        (None, Some(key)) => Some(copy_bytes(key.as_slice())),
        (Some(greatest), None) => Some(greatest),
        (Some(greatest), Some(key)) => if key_before(greatest.as_slice(), key.as_slice()) {
            Some(copy_bytes(key.as_slice()))
        } else {
            Some(greatest)
        },
    }
}

// ---------------------------------------------------------------------------
// The files that a selection names
// ---------------------------------------------------------------------------

/// The files of a run that indices name.
pub open spec fn files_of_run(tree: TreeShape, l: int, r: int, files: Seq<usize>) -> Seq<FileShape>
    decreases files.len(),
{
    if files.len() == 0 {
        Seq::empty()
    } else {
        let before = files_of_run(tree, l, r, files.drop_last());
        if has_file(tree, l, r, files.last() as int) {
            before.push(file_at(tree, l, r, files.last() as int))
        } else {
            before
        }
    }
}

/// The files of a level that selections name.
pub open spec fn files_of_level(tree: TreeShape, l: int, runs: Seq<RunFiles>) -> Seq<FileShape>
    decreases runs.len(),
{
    if runs.len() == 0 {
        Seq::empty()
    } else {
        files_of_level(tree, l, runs.drop_last()) + files_of_run(
            tree,
            l,
            runs.last().run as int,
            runs.last().files@,
        )
    }
}

/// The files that selections name.
pub open spec fn files_of(tree: TreeShape, sources: Seq<LevelFiles>) -> Seq<FileShape>
    decreases sources.len(),
{
    if sources.len() == 0 {
        Seq::empty()
    } else {
        files_of(tree, sources.drop_last()) + files_of_level(
            tree,
            sources.last().level as int,
            sources.last().runs@,
        )
    }
}

/// The smallest keys of files.
pub open spec fn first_keys(files: Seq<FileShape>) -> Seq<Option<Seq<u8>>> {
    Seq::new(files.len(), |i: int| key_view(files[i].min_key))
}

/// The largest keys of files.
pub open spec fn last_keys(files: Seq<FileShape>) -> Seq<Option<Seq<u8>>> {
    Seq::new(files.len(), |i: int| key_view(files[i].max_key))
}

proof fn lemma_run_names(tree: TreeShape, l: int, r: int, files: Seq<usize>, f: int)
    requires
        files.contains(f as usize),
        has_file(tree, l, r, f),
        f <= usize::MAX,
    ensures
        files_of_run(tree, l, r, files).contains(file_at(tree, l, r, f)),
    decreases files.len(),
{
    let all = files_of_run(tree, l, r, files);
    let before = files_of_run(tree, l, r, files.drop_last());
    let i = choose|i: int| 0 <= i < files.len() && files[i] == f as usize;
    if i == files.len() - 1 {
        assert(all[all.len() - 1] == file_at(tree, l, r, f));
    } else {
        assert(files.drop_last()[i] == f as usize);
        lemma_run_names(tree, l, r, files.drop_last(), f);
        let j = choose|j: int| 0 <= j < before.len() && before[j] == file_at(tree, l, r, f);
        assert(all[j] == file_at(tree, l, r, f));
    }
}

proof fn lemma_level_names(tree: TreeShape, l: int, runs: Seq<RunFiles>, r: int, f: int)
    requires
        picks(runs, r, f),
        has_file(tree, l, r, f),
        f <= usize::MAX,
    ensures
        files_of_level(tree, l, runs).contains(file_at(tree, l, r, f)),
    decreases runs.len(),
{
    let all = files_of_level(tree, l, runs);
    let before = files_of_level(tree, l, runs.drop_last());
    let tail = files_of_run(tree, l, runs.last().run as int, runs.last().files@);
    let i = choose|i: int|
        0 <= i < runs.len() && (#[trigger] runs[i]).run == r && runs[i].files@.contains(f as usize);
    if i == runs.len() - 1 {
        lemma_run_names(tree, l, r, runs.last().files@, f);
        let j = choose|j: int| 0 <= j < tail.len() && tail[j] == file_at(tree, l, r, f);
        assert(all[before.len() + j] == file_at(tree, l, r, f));
    } else {
        assert(runs.drop_last()[i] == runs[i]);
        assert(picks(runs.drop_last(), r, f));
        lemma_level_names(tree, l, runs.drop_last(), r, f);
        let j = choose|j: int| 0 <= j < before.len() && before[j] == file_at(tree, l, r, f);
        assert(all[j] == file_at(tree, l, r, f));
    }
}

/// Every file that is named is among the files named.
proof fn lemma_names(tree: TreeShape, sources: Seq<LevelFiles>, l: int, r: int, f: int)
    requires
        sources_pick(sources, l, r, f),
        has_file(tree, l, r, f),
        f <= usize::MAX,
    ensures
        files_of(tree, sources).contains(file_at(tree, l, r, f)),
    decreases sources.len(),
{
    let all = files_of(tree, sources);
    let before = files_of(tree, sources.drop_last());
    let tail = files_of_level(tree, sources.last().level as int, sources.last().runs@);
    let s = choose|s: int|
        0 <= s < sources.len() && (#[trigger] sources[s]).level == l && picks(
            sources[s].runs@,
            r,
            f,
        );
    if s == sources.len() - 1 {
        lemma_level_names(tree, l, sources.last().runs@, r, f);
        let j = choose|j: int| 0 <= j < tail.len() && tail[j] == file_at(tree, l, r, f);
        assert(all[before.len() + j] == file_at(tree, l, r, f));
    } else {
        assert(sources.drop_last()[s] == sources[s]);
        assert(sources_pick(sources.drop_last(), l, r, f));
        lemma_names(tree, sources.drop_last(), l, r, f);
        let j = choose|j: int| 0 <= j < before.len() && before[j] == file_at(tree, l, r, f);
        assert(all[j] == file_at(tree, l, r, f));
    }
}

/// The least and the greatest known key of files.
fn widen_by_run(
    tree: &TreeShape,
    l: usize,
    selection: &RunFiles,
    least: Option<Key>,
    greatest: Option<Key>,
    seen: Ghost<Seq<FileShape>>,
) -> (span: (Option<Key>, Option<Key>))
    requires
        key_view(least) == least_key(first_keys(seen@)),
        key_view(greatest) == greatest_key(last_keys(seen@)),
    ensures
        key_view(span.0) == least_key(
            first_keys(
                seen@ + files_of_run(*tree, l as int, selection.run as int, selection.files@),
            ),
        ),
        key_view(span.1) == greatest_key(
            last_keys(
                seen@ + files_of_run(*tree, l as int, selection.run as int, selection.files@),
            ),
        ),
{
    let mut least: Option<Key> = least;
    let mut greatest: Option<Key> = greatest;
    let r: usize = selection.run;
    let ghost named = files_of_run(*tree, l as int, r as int, selection.files@.take(0));
    proof {
        assert(seen@ + named =~= seen@);
    }
    let mut i: usize = 0;
    while i < selection.files.len()
        invariant
            i <= selection.files@.len(),
            r == selection.run,
            key_view(least) == least_key(
                first_keys(
                    seen@ + files_of_run(
                        *tree,
                        l as int,
                        r as int,
                        selection.files@.take(i as int),
                    ),
                ),
            ),
            key_view(greatest) == greatest_key(
                last_keys(
                    seen@ + files_of_run(
                        *tree,
                        l as int,
                        r as int,
                        selection.files@.take(i as int),
                    ),
                ),
            ),
        decreases selection.files@.len() - i,
    {
        let f: usize = selection.files[i];
        let ghost before = seen@ + files_of_run(
            *tree,
            l as int,
            r as int,
            selection.files@.take(i as int),
        );
        proof {
            assert(selection.files@.take(i + 1).drop_last() =~= selection.files@.take(i as int));
        }
        if l < tree.levels.len() && r < tree.levels[l].runs.len() && f
            < tree.levels[l].runs[r].files.len() {
            let file: &FileShape = &tree.levels[l].runs[r].files[f];
            proof {
                let after = seen@ + files_of_run(
                    *tree,
                    l as int,
                    r as int,
                    selection.files@.take(i + 1),
                );
                assert(after =~= before.push(*file));
                assert(first_keys(after).drop_last() =~= first_keys(before));
                assert(last_keys(after).drop_last() =~= last_keys(before));
            }
            least = smaller(least, file.min_key.as_ref());
            greatest = larger(greatest, file.max_key.as_ref());
        }
        i = i + 1;
    }
    proof {
        assert(selection.files@.take(i as int) =~= selection.files@);
    }
    (least, greatest)
}

/// The least and the greatest known key of the files that selections name.
fn span_of(tree: &TreeShape, sources: &Vec<LevelFiles>) -> (span: (Option<Key>, Option<Key>))
    ensures
        key_view(span.0) == least_key(first_keys(files_of(*tree, sources@))),
        key_view(span.1) == greatest_key(last_keys(files_of(*tree, sources@))),
{
    let mut least: Option<Key> = None;
    let mut greatest: Option<Key> = None;
    let mut s: usize = 0;
    while s < sources.len()
        invariant
            s <= sources@.len(),
            key_view(least) == least_key(first_keys(files_of(*tree, sources@.take(s as int)))),
            key_view(greatest) == greatest_key(
                last_keys(files_of(*tree, sources@.take(s as int))),
            ),
        decreases sources@.len() - s,
    {
        let source: &LevelFiles = &sources[s];
        let ghost before = files_of(*tree, sources@.take(s as int));
        let mut i: usize = 0;
        proof {
            assert(before + files_of_level(*tree, source.level as int, source.runs@.take(0))
                =~= before);
            assert(sources@.take(s + 1).drop_last() =~= sources@.take(s as int));
        }
        while i < source.runs.len()
            invariant
                i <= source.runs@.len(),
                key_view(least) == least_key(
                    first_keys(
                        before + files_of_level(
                            *tree,
                            source.level as int,
                            source.runs@.take(i as int),
                        ),
                    ),
                ),
                key_view(greatest) == greatest_key(
                    last_keys(
                        before + files_of_level(
                            *tree,
                            source.level as int,
                            source.runs@.take(i as int),
                        ),
                    ),
                ),
            decreases source.runs@.len() - i,
        {
            let ghost seen = before + files_of_level(
                *tree,
                source.level as int,
                source.runs@.take(i as int),
            );
            let (new_least, new_greatest): (Option<Key>, Option<Key>) = widen_by_run(
                tree,
                source.level,
                &source.runs[i],
                least,
                greatest,
                Ghost(seen),
            );
            least = new_least;
            greatest = new_greatest;
            proof {
                assert(source.runs@.take(i + 1).drop_last() =~= source.runs@.take(i as int));
                assert(before + files_of_level(
                    *tree,
                    source.level as int,
                    source.runs@.take(i + 1),
                ) =~= seen + files_of_run(
                    *tree,
                    source.level as int,
                    source.runs@[i as int].run as int,
                    source.runs@[i as int].files@,
                ));
            }
            i = i + 1;
        }
        proof {
            assert(source.runs@.take(i as int) =~= source.runs@);
        }
        s = s + 1;
    }
    proof {
        assert(sources@.take(s as int) =~= sources@);
    }
    (least, greatest)
}

// ---------------------------------------------------------------------------
// Planning
// ---------------------------------------------------------------------------

/// File `i` is the largest, and the last of those that are.
pub open spec fn is_largest(files: Seq<FileShape>, i: int) -> bool {
    &&& 0 <= i < files.len()
    &&& forall|j: int| 0 <= j < files.len() ==> (#[trigger] files[j]).bytes <= files[i].bytes
    &&& forall|j: int| i < j < files.len() ==> (#[trigger] files[j]).bytes < files[i].bytes
}

/// A request is met by a slice: it asks for one of a level that holds one run.
pub open spec fn sliced(tree: TreeShape, request: CompactionRequest) -> bool {
    &&& request.granularity is Partial
    &&& request.first_level == request.last_level
    &&& request.merge_units is None
    &&& occupied_runs(tree.runs_at(request.first_level as int)).len() == 1
}

/// Selections are a slice: the largest file of the one run of a level.
pub open spec fn takes_slice(sources: Seq<LevelFiles>, tree: TreeShape, level: int) -> bool {
    let run = occupied_runs(tree.runs_at(level))[0];
    &&& sources.len() == 1
    &&& sources[0].level == level
    &&& sources[0].runs@.len() == 1
    &&& sources[0].runs@[0].run == run.index
    &&& sources[0].runs@[0].files@.len() == 1
    &&& exists|i: int| #[trigger]
        is_largest(run.files@, i) && sources[0].runs@[0].files@[0] == run.files@[i].index
}

/// What leveling takes from above.
pub open spec fn takes_sources(
    sources: Seq<LevelFiles>,
    tree: TreeShape,
    request: CompactionRequest,
) -> bool {
    if sliced(tree, request) {
        takes_slice(sources, tree, request.first_level as int)
    } else {
        takes_request(sources, tree, request)
    }
}

/// What leveling rewrites at the target: the files of its run that the merged
/// keys could be in; or, if it holds several runs, all of them.
pub open spec fn takes_targets(
    targets: Seq<RunFiles>,
    tree: TreeShape,
    request: CompactionRequest,
    least: Option<Seq<u8>>,
    greatest: Option<Seq<u8>>,
) -> bool {
    let held = occupied_runs(tree.runs_at(request.target_level as int));
    if request.first_level <= request.target_level <= request.last_level || least is None
        || greatest is None {
        targets.len() == 0
    } else if held.len() == 1 {
        let met = held[0].files@.filter(|file: FileShape| file.meets(least->0, greatest->0));
        if met.len() == 0 {
            targets.len() == 0
        } else {
            targets.len() == 1 && targets[0].run == held[0].index && targets[0].files@
                == indices_of(met)
        }
    } else {
        are_whole(targets, held)
    }
}

/// A job is what leveling makes of a request.
pub open spec fn is_leveling_job(
    tree: TreeShape,
    request: CompactionRequest,
    job: CompactionJob,
) -> bool {
    let files = files_of(tree, job.sources@);
    &&& takes_sources(job.sources@, tree, request)
    &&& job.target_level == request.target_level
    &&& takes_targets(
        job.targets@,
        tree,
        request,
        least_key(first_keys(files)),
        greatest_key(last_keys(files)),
    )
    &&& job.drop_tombstones == if request.first_level <= request.target_level
        <= request.last_level {
        clears_below(tree, request)
    } else {
        deepest(tree, request.target_level as int)
    }
}

/// What to merge, by runs: the job of [`Leveling::pick`].
#[derive(Debug, Clone, PartialEq, Eq)]
pub struct RunJob {
    pub source_level: usize,
    pub source_runs: Vec<usize>,
    pub target_level: usize,
    pub target_runs: Vec<usize>,
    pub drop_tombstones: bool,
}

/// One run per level below level 0.
#[derive(Debug, Clone, Copy, PartialEq, Eq, Structural)]
pub struct Leveling {
    level0_run_trigger: usize,
}

/// The positions that runs say they have.
pub open spec fn run_indices(runs: Seq<RunShape>) -> Seq<usize> {
    Seq::new(runs.len(), |i: int| runs[i].index)
}

/// The smallest keys of runs.
pub open spec fn first_keys_of_runs(runs: Seq<RunShape>) -> Seq<Option<Seq<u8>>> {
    Seq::new(runs.len(), |i: int| runs[i].first_key())
}

/// The largest keys of runs.
pub open spec fn last_keys_of_runs(runs: Seq<RunShape>) -> Seq<Option<Seq<u8>>> {
    Seq::new(runs.len(), |i: int| runs[i].last_key())
}

/// The runs of the target level that the keys of the source runs could be in.
pub open spec fn runs_met(tree: TreeShape, sources: Seq<RunShape>, target: int) -> Seq<usize> {
    match (least_key(first_keys_of_runs(sources)), greatest_key(last_keys_of_runs(sources))) {
        (Some(min), Some(max)) => run_indices(
            tree.runs_at(target).filter(|run: RunShape| run.meets(min, max)),
        ),
        _ => Seq::empty(),
    }
}

/// Run `i` is the largest, and the last of those that are.
pub open spec fn is_largest_run(runs: Seq<RunShape>, i: int) -> bool {
    &&& 0 <= i < runs.len()
    &&& forall|j: int|
        0 <= j < runs.len() ==> saturated(files_bytes((#[trigger] runs[j]).files@)) <= saturated(
            files_bytes(runs[i].files@),
        )
    &&& forall|j: int|
        i < j < runs.len() ==> saturated(files_bytes((#[trigger] runs[j]).files@)) < saturated(
            files_bytes(runs[i].files@),
        )
}

/// A level below level 0 holds more than its budget.
pub open spec fn over_budget(tree: TreeShape, growth: Vertical, level: int) -> bool {
    &&& 1 <= level < tree.levels@.len()
    &&& growth.capacity((level - 1) as nat) != 0
    &&& tree.bytes_at(level) > growth.capacity((level - 1) as nat)
}

impl Leveling {
    /// The runs that level 0 may gather before it is merged down.
    pub closed spec fn trigger(&self) -> nat {
        self.level0_run_trigger as nat
    }

    /// Lets level 0 gather `level0_run_trigger` runs.
    pub fn new(level0_run_trigger: usize) -> (policy: Self)
        requires
            level0_run_trigger >= 1,
        ensures
            policy.trigger() == level0_run_trigger,
    {
        Leveling { level0_run_trigger }
    }

    /// The runs that level 0 may gather before it is merged down.
    pub fn level0_run_trigger(&self) -> (trigger: usize)
        ensures
            trigger == self.trigger(),
    {
        self.level0_run_trigger
    }

    /// Level 0 has gathered as many runs as it may.
    pub open spec fn triggered(&self, tree: TreeShape) -> bool {
        tree.levels@.len() > 0 && tree.runs_at(0).len() >= self.trigger()
    }

    /// The next merge that keeps levels within their budgets.
    pub open spec fn is_pick(&self, tree: TreeShape, growth: Vertical, job: Option<RunJob>) -> bool {
        match job {
            Some(job) => {
                &&& job.target_level == job.source_level + 1
                &&& job.drop_tombstones == deepest(tree, job.target_level as int)
                &&& if self.triggered(tree) {
                    &&& job.source_level == 0
                    &&& job.source_runs@ == run_indices(tree.runs_at(0))
                    &&& job.target_runs@ == runs_met(tree, tree.runs_at(0), 1)
                } else {
                    let level = job.source_level as int;
                    &&& over_budget(tree, growth, level)
                    &&& forall|above: int|
                        above < level ==> !#[trigger] over_budget(tree, growth, above)
                    &&& exists|i: int|
                        {
                            &&& #[trigger] is_largest_run(tree.runs_at(level), i)
                            &&& job.source_runs@ == seq![tree.runs_at(level)[i].index]
                            &&& job.target_runs@ == runs_met(
                                tree,
                                seq![tree.runs_at(level)[i]],
                                level + 1,
                            )
                        }
                }
            },
            None => !self.triggered(tree) && forall|level: int|
                !#[trigger] over_budget(tree, growth, level),
        }
    }

    /// The next merge that keeps levels within their budgets: level `i` may hold
    /// `B * T^i` bytes. Level 0, which blocks incoming flushes, comes first and
    /// goes whole; then the shallowest level over its budget gives its largest
    /// run.
    pub fn pick(&self, tree: &TreeShape, growth: &Vertical) -> (job: Option<RunJob>)
        requires
            growth.valid(),
        ensures
            self.is_pick(*tree, *growth, job),
    {
        if tree.levels.len() > 0 && tree.levels[0].run_count() >= self.level0_run_trigger {
            let runs: &Vec<RunShape> = &tree.levels[0].runs;
            let (source_runs, least, greatest): (Vec<usize>, Option<Key>, Option<Key>) =
                describe_runs(runs);
            let target_runs: Vec<usize> = meeting_runs(tree, 1, &least, &greatest);
            return Some(
                RunJob {
                    source_level: 0,
                    source_runs,
                    target_level: 1,
                    target_runs,
                    drop_tombstones: is_deepest_level(tree, 1),
                },
            );
        }
        let mut level: usize = 1;
        while level < tree.levels.len()
            invariant
                1 <= level,
                growth.valid(),
                !self.triggered(*tree),
                forall|above: int|
                    above < level ==> !#[trigger] over_budget(*tree, *growth, above),
            decreases tree.levels@.len() - level,
        {
            let capacity: u64 = growth.level_capacity_bytes(level - 1);
            if capacity != 0 && tree.level_bytes(level) > capacity {
                proof {
                    assert(over_budget(*tree, *growth, level as int));
                }
                let runs: &Vec<RunShape> = &tree.levels[level].runs;
                proof {
                    if runs@.len() == 0 {
                        assert(tree.bytes_at(level as int) == 0);
                    }
                }
                let i: usize = largest_run(runs);
                let mut source_runs: Vec<usize> = Vec::new();
                source_runs.push(runs[i].index);
                let least: Option<Key> = smaller(None, runs[i].min_key());
                let greatest: Option<Key> = larger(None, runs[i].max_key());
                proof {
                    let one = seq![runs@[i as int]];
                    assert(first_keys_of_runs(one).drop_last() =~= Seq::<Option<Seq<u8>>>::empty());
                    assert(last_keys_of_runs(one).drop_last() =~= Seq::<Option<Seq<u8>>>::empty());
                    assert(source_runs@ =~= seq![runs@[i as int].index]);
                    assert(least_key(first_keys_of_runs(one).drop_last()) is None);
                    assert(greatest_key(last_keys_of_runs(one).drop_last()) is None);
                    assert(least_key(first_keys_of_runs(one)) == one[0].first_key());
                    assert(greatest_key(last_keys_of_runs(one)) == one[0].last_key());
                    assert(is_largest_run(tree.runs_at(level as int), i as int));
                }
                let target_runs: Vec<usize> = meeting_runs(tree, level + 1, &least, &greatest);
                proof {
                    assert(target_runs@ == runs_met(
                        *tree,
                        seq![tree.runs_at(level as int)[i as int]],
                        level + 1,
                    ));
                }
                return Some(
                    RunJob {
                        source_level: level,
                        source_runs,
                        target_level: level + 1,
                        target_runs,
                        drop_tombstones: is_deepest_level(tree, level + 1),
                    },
                );
            }
            level = level + 1;
        }
        None
    }
}

/// The positions of runs, and the least and the greatest of their known keys.
fn describe_runs(runs: &Vec<RunShape>) -> (described: (Vec<usize>, Option<Key>, Option<Key>))
    ensures
        described.0@ == run_indices(runs@),
        key_view(described.1) == least_key(first_keys_of_runs(runs@)),
        key_view(described.2) == greatest_key(last_keys_of_runs(runs@)),
{
    let mut indices: Vec<usize> = Vec::new();
    let mut least: Option<Key> = None;
    let mut greatest: Option<Key> = None;
    let mut i: usize = 0;
    while i < runs.len()
        invariant
            i <= runs@.len(),
            indices@ == run_indices(runs@.take(i as int)),
            key_view(least) == least_key(first_keys_of_runs(runs@.take(i as int))),
            key_view(greatest) == greatest_key(last_keys_of_runs(runs@.take(i as int))),
        decreases runs@.len() - i,
    {
        proof {
            let before = runs@.take(i as int);
            let after = runs@.take(i + 1);
            assert(run_indices(after) =~= run_indices(before).push(runs@[i as int].index));
            assert(first_keys_of_runs(after).drop_last() =~= first_keys_of_runs(before));
            assert(last_keys_of_runs(after).drop_last() =~= last_keys_of_runs(before));
        }
        indices.push(runs[i].index);
        least = smaller(least, runs[i].min_key());
        greatest = larger(greatest, runs[i].max_key());
        i = i + 1;
    }
    proof {
        assert(runs@.take(i as int) =~= runs@);
    }
    (indices, least, greatest)
}

/// The runs of a level whose ranges meet `[least, greatest]`.
fn meeting_runs(tree: &TreeShape, level: usize, least: &Option<Key>, greatest: &Option<Key>) -> (met:
    Vec<usize>)
    ensures
        met@ == match (key_view(*least), key_view(*greatest)) {
            (Some(min), Some(max)) => run_indices(
                tree.runs_at(level as int).filter(|run: RunShape| run.meets(min, max)),
            ),
            _ => Seq::empty(),
        },
{
    let mut met: Vec<usize> = Vec::new();
    match (least, greatest) {
        (Some(min), Some(max)) => {
            let ghost keep = |run: RunShape| run.meets(min@, max@);
            proof {
                reveal(Seq::filter);
            }
            if level < tree.levels.len() {
                let runs: &Vec<RunShape> = &tree.levels[level].runs;
                let mut i: usize = 0;
                proof {
                    assert(met@ =~= run_indices(runs@.take(0).filter(keep)));
                }
                while i < runs.len()
                    invariant
                        i <= runs@.len(),
                        keep == (|run: RunShape| run.meets(min@, max@)),
                        met@ == run_indices(runs@.take(i as int).filter(keep)),
                    decreases runs@.len() - i,
                {
                    let ghost done = runs@.take(i as int);
                    proof {
                        assert(runs@.take(i + 1) =~= done.push(runs@[i as int]));
                        crate::storage::reader::lemma_filter_push(done, runs@[i as int], keep);
                    }
                    if runs[i].overlaps_range(min, max) {
                        met.push(runs[i].index);
                        proof {
                            assert(met@ =~= run_indices(done.filter(keep).push(runs@[i as int])));
                        }
                    }
                    i = i + 1;
                }
                proof {
                    assert(runs@.take(i as int) =~= runs@);
                }
            } else {
                proof {
                    assert(met@ =~= run_indices(tree.runs_at(level as int).filter(keep)));
                }
            }
        },
        _ => {},
    }
    met
}

fn largest_run(runs: &Vec<RunShape>) -> (largest: usize)
    requires
        runs@.len() > 0,
    ensures
        is_largest_run(runs@, largest as int),
{
    let mut largest: usize = 0;
    let mut bytes: u64 = runs[0].bytes();
    let mut i: usize = 1;
    while i < runs.len()
        invariant
            1 <= i <= runs@.len(),
            largest < i,
            bytes == saturated(files_bytes(runs@[largest as int].files@)),
            forall|j: int|
                0 <= j < i ==> saturated(files_bytes((#[trigger] runs@[j]).files@)) <= bytes,
            forall|j: int|
                largest < j < i ==> saturated(files_bytes((#[trigger] runs@[j]).files@)) < bytes,
        decreases runs@.len() - i,
    {
        let next: u64 = runs[i].bytes();
        if next >= bytes {
            largest = i;
            bytes = next;
        }
        i = i + 1;
    }
    largest
}

fn largest_file(files: &Vec<FileShape>) -> (largest: usize)
    requires
        files@.len() > 0,
    ensures
        is_largest(files@, largest as int),
{
    let mut largest: usize = 0;
    let mut i: usize = 1;
    while i < files.len()
        invariant
            1 <= i <= files@.len(),
            largest < i,
            forall|j: int|
                0 <= j < i ==> (#[trigger] files@[j]).bytes <= files@[largest as int].bytes,
            forall|j: int|
                largest < j < i ==> (#[trigger] files@[j]).bytes < files@[largest as int].bytes,
        decreases files@.len() - i,
    {
        if files[i].bytes >= files[largest].bytes {
            largest = i;
        }
        i = i + 1;
    }
    largest
}

/// The one run of a level that holds files, if there is exactly one.
fn sole_run(tree: &TreeShape, level: usize) -> (run: Option<&RunShape>)
    ensures
        match run {
            Some(run) => occupied_runs(tree.runs_at(level as int)) == seq![*run],
            None => occupied_runs(tree.runs_at(level as int)).len() != 1,
        },
{
    proof {
        reveal(Seq::filter);
    }
    if level >= tree.levels.len() {
        return None;
    }
    let runs: &Vec<RunShape> = &tree.levels[level].runs;
    let ghost keep = |run: RunShape| run.files@.len() > 0;
    let mut found: Option<&RunShape> = None;
    let mut i: usize = 0;
    proof {
        assert(runs@.take(0).filter(keep).len() == 0);
    }
    while i < runs.len()
        invariant
            i <= runs@.len(),
            keep == (|run: RunShape| run.files@.len() > 0),
            level < tree.levels@.len(),
            runs == tree.levels@[level as int].runs,
            match found {
                Some(run) => runs@.take(i as int).filter(keep) == seq![*run],
                None => runs@.take(i as int).filter(keep).len() == 0,
            },
        decreases runs@.len() - i,
    {
        let ghost done = runs@.take(i as int);
        proof {
            assert(runs@.take(i + 1) =~= done.push(runs@[i as int]));
            crate::storage::reader::lemma_filter_push(done, runs@[i as int], keep);
        }
        if !runs[i].is_empty() {
            match found {
                Some(_) => {
                    proof {
                        lemma_filter_grows(runs@, i + 1, keep);
                    }
                    return None;
                },
                None => {
                    found = Some(&runs[i]);
                    proof {
                        assert(runs@.take(i + 1).filter(keep) =~= seq![runs@[i as int]]);
                    }
                },
            }
        }
        i = i + 1;
    }
    proof {
        assert(runs@.take(i as int) =~= runs@);
    }
    found
}

proof fn lemma_filter_grows<T>(list: Seq<T>, n: int, keep: spec_fn(T) -> bool)
    requires
        0 <= n <= list.len(),
    ensures
        list.take(n).filter(keep).len() <= list.filter(keep).len(),
    decreases list.len() - n,
{
    if n < list.len() {
        lemma_filter_grows(list, n + 1, keep);
        assert(list.take(n + 1) =~= list.take(n).push(list[n]));
        crate::storage::reader::lemma_filter_push(list.take(n), list[n], keep);
    } else {
        assert(list.take(n) =~= list);
    }
}

/// What leveling takes from above.
fn plan_sources(tree: &TreeShape, request: CompactionRequest) -> (sources: Vec<LevelFiles>)
    ensures
        takes_sources(sources@, *tree, request),
{
    let slice: bool = match request.granularity {
        Granularity::Partial => request.first_level == request.last_level
            && request.merge_units.is_none(),
        Granularity::Full => false,
    };
    if slice {
        if let Some(run) = sole_run(tree, request.first_level) {
            proof {
                lemma_occupied_run_has_files(tree.runs_at(request.first_level as int), 0);
            }
            let i: usize = largest_file(&run.files);
            let mut files: Vec<usize> = Vec::new();
            files.push(run.files[i].index);
            let mut runs: Vec<RunFiles> = Vec::new();
            runs.push(RunFiles { run: run.index, files });
            let mut sources: Vec<LevelFiles> = Vec::new();
            sources.push(LevelFiles { level: request.first_level, runs });
            return sources;
        }
    }
    all_source_levels(tree, request)
}

proof fn lemma_occupied_run_has_files(runs: Seq<RunShape>, i: int)
    requires
        0 <= i < occupied_runs(runs).len(),
    ensures
        occupied_runs(runs)[i].files@.len() > 0,
    decreases runs.len(),
{
    reveal(Seq::filter);
    if runs.len() > 0 {
        let keep = |run: RunShape| run.files@.len() > 0;
        let head = runs.drop_last();
        if i < occupied_runs(head).len() {
            lemma_occupied_run_has_files(head, i);
        }
    }
}

/// What leveling rewrites at the target.
fn plan_targets(
    tree: &TreeShape,
    request: CompactionRequest,
    least: &Option<Key>,
    greatest: &Option<Key>,
) -> (targets: Vec<RunFiles>)
    ensures
        takes_targets(targets@, *tree, request, key_view(*least), key_view(*greatest)),
{
    let mut targets: Vec<RunFiles> = Vec::new();
    if request.first_level <= request.target_level && request.target_level <= request.last_level {
        return targets;
    }
    match (least, greatest) {
        (Some(min), Some(max)) => match sole_run(tree, request.target_level) {
            Some(run) => {
                let files: Vec<usize> = run.files_overlapping(min, max);
                if files.len() > 0 {
                    targets.push(RunFiles { run: run.index, files });
                }
                targets
            },
            None => all_files(tree, request.target_level),
        },
        _ => targets,
    }
}

impl Default for Leveling {
    fn default() -> (policy: Self)
        ensures
            policy.trigger() == DEFAULT_LEVEL0_RUN_TRIGGER,
    {
        Leveling { level0_run_trigger: DEFAULT_LEVEL0_RUN_TRIGGER }
    }
}

impl MergePolicy for Leveling {
    open spec fn ready(&self) -> bool {
        true
    }

    fn name(&self) -> (name: &'static str)
        ensures
            name@ == "leveling"@,
    {
        proof {
            reveal_strlit("leveling");
        }
        "leveling"
    }

    /// Merges what the request names, or a slice of it, into what it meets at
    /// the target.
    fn plan(&self, tree: &TreeShape, request: CompactionRequest) -> (job: Option<CompactionJob>)
        ensures
            match job {
                Some(job) => is_leveling_job(*tree, request, job) && job.sources@.len() > 0,
                None => !sliced(*tree, request) && nothing_to_move(*tree, request),
            },
    {
        let sources: Vec<LevelFiles> = plan_sources(tree, request);
        if sources.len() == 0 {
            return None;
        }
        let (least, greatest): (Option<Key>, Option<Key>) = span_of(tree, &sources);
        let targets: Vec<RunFiles> = plan_targets(tree, request, &least, &greatest);
        let drop_tombstones: bool = if request.first_level <= request.target_level
            && request.target_level <= request.last_level {
            leaves_nothing_older(tree, request)
        } else {
            is_deepest_level(tree, request.target_level)
        };
        let job = CompactionJob {
            sources,
            target_level: request.target_level,
            targets,
            drop_tombstones,
        };
        proof {
            if well_indexed(*tree) && orderly(request) {
                lemma_leveling_is_safe(*tree, request, job);
            }
        }
        Some(job)
    }

    fn runs_per_level(&self) -> (limit: usize)
        ensures
            limit == 1,
    {
        1
    }
}

// ---------------------------------------------------------------------------
// Why leveling is safe
// ---------------------------------------------------------------------------

/// A file of a level in between the sources and the target is taken, unless it
/// is of the one run that a slice was cut from.
pub proof fn lemma_leveling_sources(
    tree: TreeShape,
    request: CompactionRequest,
    sources: Seq<LevelFiles>,
)
    requires
        well_indexed(tree),
        orderly(request),
        takes_sources(sources, tree, request),
    ensures
        forall|i: int, j: int|
            #![trigger sources[i], sources[j]]
            0 <= i < j < sources.len() ==> sources[i].level < sources[j].level,
        forall|i: int|
            0 <= i < sources.len() ==> in_order((#[trigger] sources[i]).runs@)
                && request.first_level <= sources[i].level <= request.last_level,
        forall|l: int, r: int, f: int| #[trigger]
            sources_pick(sources, l, r, f) ==> request.first_level <= l <= request.last_level,
        // Of a level nothing newer is left out, but for the rest of the run.
        forall|l: int, r: int, f: int, r2: int, f2: int|
            #![trigger sources_pick(sources, l, r, f), has_file(tree, l, r2, f2)]
            sources_pick(sources, l, r, f) && r2 < r && has_file(tree, l, r2, f2)
                ==> sources_pick(sources, l, r2, f2),
        // Of the span nothing at all is left out, but for the rest of the run
        // of a slice, unless units bound what is taken.
        forall|l: int, r: int, f: int, l2: int, r2: int, f2: int|
            #![trigger sources_pick(sources, l, r, f), has_file(tree, l2, r2, f2)]
            sources_pick(sources, l, r, f) && has_file(tree, l, r, f) && request.first_level <= l2
                <= request.last_level && has_file(tree, l2, r2, f2) && !(l == l2 && r == r2)
                && requested_runs(tree, l2, request.merge_units).len() == occupied_runs(
                tree.runs_at(l2),
            ).len() ==> sources_pick(sources, l2, r2, f2),
{
    if sliced(tree, request) {
        let level = request.first_level as int;
        let held = occupied_runs(tree.runs_at(level));
        assert(sources[0].runs@.len() == 1);
        assert(in_order(sources[0].runs@));
        assert forall|l: int, r: int, f: int| #[trigger] sources_pick(sources, l, r, f) implies l
            == level && r == held[0].index by {
            let s = choose|s: int|
                0 <= s < sources.len() && (#[trigger] sources[s]).level == l && picks(
                    sources[s].runs@,
                    r,
                    f,
                );
            let i = choose|i: int|
                0 <= i < sources[s].runs@.len() && (#[trigger] sources[s].runs@[i]).run == r
                    && sources[s].runs@[i].files@.contains(f as usize);
        }
        assert forall|r2: int, f2: int| #[trigger] has_file(tree, level, r2, f2) implies r2
            == held[0].index by {
            lemma_sole_run(tree, level, r2, f2);
        }
    } else {
        lemma_sources_pick(tree, request, sources);
    }
}

/// Where one run of a level holds files, every file is of that run.
proof fn lemma_sole_run(tree: TreeShape, level: int, r: int, f: int)
    requires
        well_indexed(tree),
        occupied_runs(tree.runs_at(level)).len() == 1,
        has_file(tree, level, r, f),
    ensures
        occupied_runs(tree.runs_at(level))[0] == tree.runs_at(level)[r],
        occupied_runs(tree.runs_at(level))[0].index == r,
{
    super::lemma_occupied_contains(tree, level, r);
    let held = occupied_runs(tree.runs_at(level));
    let i = choose|i: int| 0 <= i < held.len() && held[i] == tree.runs_at(level)[r];
    assert(run_indexed(tree.levels@[level].runs@[r], r));
}

/// A file at the target that shares keys with a source is rewritten.
pub proof fn lemma_met_targets_are_taken(
    tree: TreeShape,
    request: CompactionRequest,
    job: CompactionJob,
    l: int,
    r: int,
    f: int,
    r2: int,
    f2: int,
)
    requires
        well_indexed(tree),
        is_leveling_job(tree, request, job),
        !(request.first_level <= request.target_level <= request.last_level),
        sources_pick(job.sources@, l, r, f),
        has_file(tree, l, r, f),
        has_file(tree, request.target_level as int, r2, f2),
        files_meet(
            file_at(tree, l, r, f),
            file_at(tree, request.target_level as int, r2, f2),
        ),
    ensures
        picks(job.targets@, r2, f2),
{
    let target = request.target_level as int;
    let files = files_of(tree, job.sources@);
    let source = file_at(tree, l, r, f);
    let other = file_at(tree, target, r2, f2);
    lemma_names(tree, job.sources@, l, r, f);
    let at = choose|at: int| 0 <= at < files.len() && files[at] == source;
    lemma_least_key(first_keys(files), at);
    lemma_greatest_key(last_keys(files), at);
    let min = least_key(first_keys(files))->0;
    let max = greatest_key(last_keys(files))->0;
    assert(other.meets(min, max)) by {
        lemma_lex_mixed(min, key_view(source.min_key)->0, key_view(other.max_key)->0);
        lemma_lex_mixed(key_view(other.min_key)->0, key_view(source.max_key)->0, max);
    }
    let held = occupied_runs(tree.runs_at(target));
    if held.len() == 1 {
        lemma_sole_run(tree, target, r2, f2);
        let least = least_key(first_keys(files));
        let greatest = greatest_key(last_keys(files));
        let keep = |file: FileShape| file.meets(least->0, greatest->0);
        let run = tree.levels@[target].runs@[r2];
        let met = run.files@.filter(keep);
        assert(run_indexed(run, r2));
        run.files@.lemma_filter_contains(keep, f2);
        assert(met.contains(other));
        assert(job.targets@[0].files@ == indices_of(met));
        let j = choose|j: int| 0 <= j < met.len() && met[j] == other;
        assert(run.files@[f2].index == f2);
        assert(job.targets@[0].files@[j] == f2 as usize);
        assert(job.targets@[0].run == r2);
        assert(job.targets@[0].files@.contains(f2 as usize));
    } else {
        assert(held =~= held.take(held.len() as int));
        lemma_prefix_picks(tree, target, job.targets@, held);
    }
}

/// A range of keys.
pub struct Span {
    pub least: Seq<u8>,
    pub greatest: Seq<u8>,
}

/// What leveling takes and leaves, where the target is below the sources and
/// holds one run: the sources span a range of keys, and of the target exactly the
/// files that meet it are rewritten.
pub proof fn lemma_span(tree: TreeShape, request: CompactionRequest, job: CompactionJob) -> (span:
    Option<Span>)
    requires
        well_indexed(tree),
        is_leveling_job(tree, request, job),
        !(request.first_level <= request.target_level <= request.last_level),
        occupied_runs(tree.runs_at(request.target_level as int)).len() == 1,
    ensures
        span is None ==> forall|r: int, f: int| !#[trigger] picks(job.targets@, r, f),
        forall|l: int, r: int, f: int|
            #![trigger file_at(tree, l, r, f)]
            sources_pick(job.sources@, l, r, f) && has_file(tree, l, r, f) && file_at(
                tree,
                l,
                r,
                f,
            ).min_key is Some && file_at(tree, l, r, f).max_key is Some ==> {
                &&& span is Some
                &&& lex_le(span->0.least, key_view(file_at(tree, l, r, f).min_key)->0)
                &&& lex_le(key_view(file_at(tree, l, r, f).max_key)->0, span->0.greatest)
            },
        span is Some ==> forall|r: int, f: int|
            #![trigger file_at(tree, request.target_level as int, r, f)]
            has_file(tree, request.target_level as int, r, f) ==> (picks(job.targets@, r, f)
                <==> file_at(tree, request.target_level as int, r, f).meets(
                span->0.least,
                span->0.greatest,
            )),
{
    let target = request.target_level as int;
    let files = files_of(tree, job.sources@);
    let least = least_key(first_keys(files));
    let greatest = greatest_key(last_keys(files));
    assert forall|l: int, r: int, f: int|
        #![trigger file_at(tree, l, r, f)]
        sources_pick(job.sources@, l, r, f) && has_file(tree, l, r, f) && file_at(
            tree,
            l,
            r,
            f,
        ).min_key is Some && file_at(tree, l, r, f).max_key is Some implies {
        &&& least is Some
        &&& greatest is Some
        &&& lex_le(least->0, key_view(file_at(tree, l, r, f).min_key)->0)
        &&& lex_le(key_view(file_at(tree, l, r, f).max_key)->0, greatest->0)
    } by {
        assert(run_indexed(tree.levels@[l].runs@[r], r));
        lemma_names(tree, job.sources@, l, r, f);
        let at = choose|at: int| 0 <= at < files.len() && files[at] == file_at(tree, l, r, f);
        lemma_least_key(first_keys(files), at);
        lemma_greatest_key(last_keys(files), at);
    }
    if least is None || greatest is None {
        None
    } else {
        let held = occupied_runs(tree.runs_at(target));
        let keep = |file: FileShape| file.meets(least->0, greatest->0);
        let met = held[0].files@.filter(keep);
        assert forall|r: int, f: int|
            #![trigger file_at(tree, target, r, f)]
            has_file(tree, target, r, f) implies (picks(job.targets@, r, f) <==> file_at(
            tree,
            target,
            r,
            f,
        ).meets(least->0, greatest->0)) by {
            lemma_sole_run(tree, target, r, f);
            let run = tree.levels@[target].runs@[r];
            assert(run_indexed(run, r));
            let file = file_at(tree, target, r, f);
            assert(run.files@[f].index == f);
            if file.meets(least->0, greatest->0) {
                run.files@.lemma_filter_contains(keep, f);
                assert(met.contains(file));
                let j = choose|j: int| 0 <= j < met.len() && met[j] == file;
                assert(job.targets@[0].files@[j] == f as usize);
                assert(job.targets@[0].files@.contains(f as usize));
            }
            if picks(job.targets@, r, f) {
                let i = choose|i: int|
                    0 <= i < job.targets@.len() && (#[trigger] job.targets@[i]).run == r
                        && job.targets@[i].files@.contains(f as usize);
                assert(i == 0);
                let j = choose|j: int|
                    0 <= j < indices_of(met).len() && indices_of(met)[j] == f as usize;
                assert(met.contains(met[j]));
                run.files@.lemma_filter_pred(keep, j);
                run.files@.lemma_filter_contains_rev(keep, met[j]);
                let g = choose|g: int| 0 <= g < run.files@.len() && run.files@[g] == met[j];
                assert(run.files@[g].index == g);
                assert(g == f);
            }
        }
        Some(Span { least: least->0, greatest: greatest->0 })
    }
}

/// A leveling job is safe.
pub proof fn lemma_leveling_is_safe(tree: TreeShape, request: CompactionRequest, job: CompactionJob)
    requires
        well_indexed(tree),
        orderly(request),
        is_leveling_job(tree, request, job),
    ensures
        safe(tree, job),
{
    let target = request.target_level as int;
    let held = occupied_runs(tree.runs_at(target));
    lemma_leveling_sources(tree, request, job.sources@);
    let in_span = request.first_level <= target <= request.last_level;
    assert(in_order(job.targets@)) by {
        if job.targets@.len() > 1 {
            assert(held =~= held.take(held.len() as int));
            lemma_prefix_picks(tree, target, job.targets@, held);
        }
    }
    assert(lists_in_order(job));
    assert forall|l: int, r: int, f: int, l2: int, r2: int, f2: int| #[trigger]
        pair_safe(tree, job, l, r, f, l2, r2, f2) by {
        if has_file(tree, l, r, f) && has_file(tree, l2, r2, f2) && taken(job, l, r, f) && !taken(
            job,
            l2,
            r2,
            f2,
        ) && !(l == l2 && r == r2) && files_meet(
            file_at(tree, l, r, f),
            file_at(tree, l2, r2, f2),
        ) {
            lemma_leveling_pair(tree, request, job, l, r, f, l2, r2, f2);
        }
    }
}

proof fn lemma_leveling_pair(
    tree: TreeShape,
    request: CompactionRequest,
    job: CompactionJob,
    l: int,
    r: int,
    f: int,
    l2: int,
    r2: int,
    f2: int,
)
    requires
        well_indexed(tree),
        orderly(request),
        is_leveling_job(tree, request, job),
        has_file(tree, l, r, f),
        has_file(tree, l2, r2, f2),
        taken(job, l, r, f),
        !taken(job, l2, r2, f2),
        !(l == l2 && r == r2),
        files_meet(file_at(tree, l, r, f), file_at(tree, l2, r2, f2)),
    ensures
        pair_safe(tree, job, l, r, f, l2, r2, f2),
{
    let target = request.target_level as int;
    let held = occupied_runs(tree.runs_at(target));
    let in_span = request.first_level <= target <= request.last_level;
    lemma_leveling_sources(tree, request, job.sources@);
    assert(!sources_pick(job.sources@, l2, r2, f2));
    if request.merge_units is None {
        assert(requested_runs(tree, l2, request.merge_units) == occupied_runs(tree.runs_at(l2)));
    }
    assert(tree.occupied(l2)) by {
        assert(tree.levels@[l2].runs@[r2].files@.len() > 0);
    }
    if sources_pick(job.sources@, l, r, f) {
        if l2 == target && !in_span {
            lemma_met_targets_are_taken(tree, request, job, l, r, f, r2, f2);
        }
    } else {
        // A file rewritten at the target, which then is not among the sources.
        assert(l == target && picks(job.targets@, r, f));
        assert(job.targets@.len() > 0);
        if l2 == target {
            if held.len() == 1 {
                lemma_sole_run(tree, target, r, f);
                lemma_sole_run(tree, target, r2, f2);
            } else {
                assert(held =~= held.take(held.len() as int));
                lemma_prefix_picks(tree, target, job.targets@, held);
            }
        }
    }
}

} // verus!
