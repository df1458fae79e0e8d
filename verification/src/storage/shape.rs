//! A read-only view of the tree's structure, shared by the growth schemes and
//! the merge policies.
//!
//! A run is a sorted sequence without duplicate keys, split across files with
//! disjoint key ranges. Searching a run costs one probe whatever its file
//! count, so read cost goes by runs; files bound how finely a compaction can be
//! sliced.

use vstd::prelude::*;

use super::order::{key_before, lex_le};
use super::reader::lemma_not_before;
use super::sstable::key_view;
use super::Key;

verus! {

/// A sum of bytes as a `u64` holds it.
pub open spec fn saturated(bytes: nat) -> u64 {
    if bytes > u64::MAX {
        u64::MAX
    } else {
        bytes as u64
    }
}

/// A count as a `usize` holds it.
pub open spec fn saturated_count(count: nat) -> usize {
    if count > usize::MAX {
        usize::MAX
    } else {
        count as usize
    }
}

/// The closed ranges `[a, b]` and `[c, d]` meet; a range with an unknown end
/// meets nothing.
pub open spec fn ranges_meet(
    a: Option<Seq<u8>>,
    b: Option<Seq<u8>>,
    c: Option<Seq<u8>>,
    d: Option<Seq<u8>>,
) -> bool {
    match (a, b, c, d) {
        (Some(a), Some(b), Some(c), Some(d)) => lex_le(a, d) && lex_le(c, b),
        _ => false,
    }
}

/// One file's summary.
#[derive(Debug, Clone, PartialEq, Eq)]
pub struct FileShape {
    /// Position within its run, ascending by key.
    pub index: usize,
    pub bytes: u64,
    pub min_key: Option<Key>,
    pub max_key: Option<Key>,
}

/// The bytes of files together.
pub open spec fn files_bytes(files: Seq<FileShape>) -> nat
    decreases files.len(),
{
    if files.len() == 0 {
        0
    } else {
        files_bytes(files.drop_last()) + files.last().bytes as nat
    }
}

/// Whether the range `[min_key, max_key]` meets `[min, max]`.
fn range_meets(min_key: &Option<Key>, max_key: &Option<Key>, min: &Key, max: &Key) -> (meets: bool)
    ensures
        meets == ranges_meet(
            key_view(*min_key),
            key_view(*max_key),
            Some(min@),
            Some(max@),
        ),
{
    match (min_key, max_key) {
        (Some(self_min), Some(self_max)) => {
            proof {
                lemma_not_before(max@, self_min@);
                lemma_not_before(self_max@, min@);
            }
            !key_before(max.as_slice(), self_min.as_slice()) && !key_before(
                self_max.as_slice(),
                min.as_slice(),
            )
        },
        _ => false,
    }
}

impl FileShape {
    /// This file's range meets `[min, max]`.
    pub open spec fn meets(self, min: Seq<u8>, max: Seq<u8>) -> bool {
        ranges_meet(key_view(self.min_key), key_view(self.max_key), Some(min), Some(max))
    }

    /// Whether this file's range meets the closed range `[min, max]`.
    pub fn overlaps_range(&self, min: &Key, max: &Key) -> (overlap: bool)
        ensures
            overlap == self.meets(min@, max@),
    {
        range_meets(&self.min_key, &self.max_key, min, max)
    }
}

/// One run's summary: its files, in ascending key order.
#[derive(Debug, Clone, PartialEq, Eq)]
pub struct RunShape {
    /// Position within its level, newest first.
    pub index: usize,
    pub files: Vec<FileShape>,
    /// How many memtable flushes' worth of data this run stands for. A run made
    /// by merging others stands for the sum of theirs.
    pub units: usize,
}

impl RunShape {
    /// The smallest key, from the first file.
    pub open spec fn first_key(self) -> Option<Seq<u8>> {
        if self.files@.len() == 0 {
            None
        } else {
            key_view(self.files@[0].min_key)
        }
    }

    /// The largest key, from the last file.
    pub open spec fn last_key(self) -> Option<Seq<u8>> {
        if self.files@.len() == 0 {
            None
        } else {
            key_view(self.files@.last().max_key)
        }
    }

    /// This run's range meets `[min, max]`.
    pub open spec fn meets(self, min: Seq<u8>, max: Seq<u8>) -> bool {
        ranges_meet(self.first_key(), self.last_key(), Some(min), Some(max))
    }

    /// The bytes of this run.
    pub fn bytes(&self) -> (bytes: u64)
        ensures
            bytes == saturated(files_bytes(self.files@)),
    {
        let mut total: u64 = 0;
        let mut i: usize = 0;
        while i < self.files.len()
            invariant
                i <= self.files@.len(),
                total == saturated(files_bytes(self.files@.take(i as int))),
            decreases self.files@.len() - i,
        {
            proof {
                assert(self.files@.take(i + 1).drop_last() =~= self.files@.take(i as int));
            }
            total = total.saturating_add(self.files[i].bytes);
            i = i + 1;
        }
        proof {
            assert(self.files@.take(i as int) =~= self.files@);
        }
        total
    }

    /// The number of files.
    pub fn file_count(&self) -> (count: usize)
        ensures
            count == self.files@.len(),
    {
        self.files.len()
    }

    /// Whether there is no file.
    pub fn is_empty(&self) -> (empty: bool)
        ensures
            empty == (self.files@.len() == 0),
    {
        self.files.len() == 0
    }

    /// The smallest key in the run, from its first file.
    pub fn min_key(&self) -> (key: Option<&Key>)
        ensures
            match key {
                Some(key) => self.first_key() == Some(key@),
                None => self.first_key() is None,
            },
    {
        if self.files.len() == 0 {
            None
        } else {
            match &self.files[0].min_key {
                Some(key) => Some(key),
                None => None,
            }
        }
    }

    /// The largest key in the run, from its last file.
    pub fn max_key(&self) -> (key: Option<&Key>)
        ensures
            match key {
                Some(key) => self.last_key() == Some(key@),
                None => self.last_key() is None,
            },
    {
        if self.files.len() == 0 {
            None
        } else {
            match &self.files[self.files.len() - 1].max_key {
                Some(key) => Some(key),
                None => None,
            }
        }
    }

    /// Whether two runs' ranges meet.
    pub fn overlaps(&self, other: &RunShape) -> (overlap: bool)
        ensures
            overlap == ranges_meet(
                self.first_key(),
                self.last_key(),
                other.first_key(),
                other.last_key(),
            ),
    {
        match (other.min_key(), other.max_key()) {
            (Some(min), Some(max)) => self.overlaps_range(min, max),
            _ => false,
        }
    }

    /// Whether this run's range meets the closed range `[min, max]`.
    pub fn overlaps_range(&self, min: &Key, max: &Key) -> (overlap: bool)
        ensures
            overlap == self.meets(min@, max@),
    {
        match (self.min_key(), self.max_key()) {
            (Some(self_min), Some(self_max)) => {
                proof {
                    lemma_not_before(max@, self_min@);
                    lemma_not_before(self_max@, min@);
                }
                !key_before(max.as_slice(), self_min.as_slice()) && !key_before(
                    self_max.as_slice(),
                    min.as_slice(),
                )
            },
            _ => false,
        }
    }

    /// The indices of the files whose ranges meet `[min, max]`, in order.
    pub fn files_overlapping(&self, min: &Key, max: &Key) -> (indices: Vec<usize>)
        ensures
            indices@ == indices_of(
                self.files@.filter(|file: FileShape| file.meets(min@, max@)),
            ),
    {
        let ghost keep = |file: FileShape| file.meets(min@, max@);
        let mut indices: Vec<usize> = Vec::new();
        let mut i: usize = 0;
        proof {
            reveal(Seq::filter);
            assert(indices@ =~= indices_of(self.files@.take(0).filter(keep)));
        }
        while i < self.files.len()
            invariant
                i <= self.files@.len(),
                keep == (|file: FileShape| file.meets(min@, max@)),
                indices@ == indices_of(self.files@.take(i as int).filter(keep)),
            decreases self.files@.len() - i,
        {
            let ghost done = self.files@.take(i as int);
            let ghost before = indices@;
            proof {
                assert(self.files@.take(i + 1) =~= done.push(self.files@[i as int]));
                super::reader::lemma_filter_push(done, self.files@[i as int], keep);
            }
            if self.files[i].overlaps_range(min, max) {
                indices.push(self.files[i].index);
                proof {
                    assert(indices@ =~= indices_of(
                        done.filter(keep).push(self.files@[i as int]),
                    ));
                }
            }
            i = i + 1;
        }
        proof {
            assert(self.files@.take(i as int) =~= self.files@);
        }
        indices
    }
}

/// The positions that files say they have.
pub open spec fn indices_of(files: Seq<FileShape>) -> Seq<usize> {
    Seq::new(files.len(), |i: int| files[i].index)
}

/// The bytes of runs together.
pub open spec fn runs_bytes(runs: Seq<RunShape>) -> nat
    decreases runs.len(),
{
    if runs.len() == 0 {
        0
    } else {
        runs_bytes(runs.drop_last()) + files_bytes(runs.last().files@)
    }
}

/// The files of runs together.
pub open spec fn runs_files(runs: Seq<RunShape>) -> nat
    decreases runs.len(),
{
    if runs.len() == 0 {
        0
    } else {
        runs_files(runs.drop_last()) + runs.last().files@.len()
    }
}

/// One level's summary.
#[derive(Debug, Clone, PartialEq, Eq)]
pub struct LevelShape {
    /// Runs, newest first: the order that reads consult them in.
    pub runs: Vec<RunShape>,
}

impl Default for LevelShape {
    fn default() -> (level: Self)
        ensures
            level.runs@.len() == 0,
    {
        LevelShape { runs: Vec::new() }
    }
}

impl LevelShape {
    /// No run holds a file.
    pub open spec fn holds_nothing(self) -> bool {
        forall|i: int| 0 <= i < self.runs@.len() ==> (#[trigger] self.runs@[i]).files@.len() == 0
    }

    /// A level of single-file runs of these sizes, with unknown key ranges.
    pub fn from_sizes(sizes: &[u64]) -> (level: Self)
        ensures
            level.runs@.len() == sizes@.len(),
            forall|i: int|
                0 <= i < sizes@.len() ==> {
                    let run = #[trigger] level.runs@[i];
                    &&& run.index == i
                    &&& run.units == 1
                    &&& run.files@.len() == 1
                    &&& run.files@[0].index == 0
                    &&& run.files@[0].bytes == sizes@[i]
                    &&& run.files@[0].min_key is None
                    &&& run.files@[0].max_key is None
                },
    {
        let mut runs: Vec<RunShape> = Vec::new();
        let mut i: usize = 0;
        while i < sizes.len()
            invariant
                i <= sizes@.len(),
                runs@.len() == i,
                forall|j: int|
                    0 <= j < i ==> {
                        let run = #[trigger] runs@[j];
                        &&& run.index == j
                        &&& run.units == 1
                        &&& run.files@.len() == 1
                        &&& run.files@[0].index == 0
                        &&& run.files@[0].bytes == sizes@[j]
                        &&& run.files@[0].min_key is None
                        &&& run.files@[0].max_key is None
                    },
            decreases sizes@.len() - i,
        {
            let mut files: Vec<FileShape> = Vec::new();
            files.push(FileShape { index: 0, bytes: sizes[i], min_key: None, max_key: None });
            runs.push(RunShape { index: i, files, units: 1 });
            i = i + 1;
        }
        LevelShape { runs }
    }

    /// The bytes of this level.
    pub fn bytes(&self) -> (bytes: u64)
        ensures
            bytes == saturated(runs_bytes(self.runs@)),
    {
        let mut total: u64 = 0;
        let mut i: usize = 0;
        while i < self.runs.len()
            invariant
                i <= self.runs@.len(),
                total == saturated(runs_bytes(self.runs@.take(i as int))),
            decreases self.runs@.len() - i,
        {
            proof {
                assert(self.runs@.take(i + 1).drop_last() =~= self.runs@.take(i as int));
            }
            total = total.saturating_add(self.runs[i].bytes());
            i = i + 1;
        }
        proof {
            assert(self.runs@.take(i as int) =~= self.runs@);
        }
        total
    }

    /// The number of runs.
    pub fn run_count(&self) -> (count: usize)
        ensures
            count == self.runs@.len(),
    {
        self.runs.len()
    }

    /// The number of files in all runs.
    pub fn file_count(&self) -> (count: usize)
        ensures
            count == saturated_count(runs_files(self.runs@)),
    {
        let mut total: usize = 0;
        let mut i: usize = 0;
        while i < self.runs.len()
            invariant
                i <= self.runs@.len(),
                total == saturated_count(runs_files(self.runs@.take(i as int))),
            decreases self.runs@.len() - i,
        {
            proof {
                assert(self.runs@.take(i + 1).drop_last() =~= self.runs@.take(i as int));
            }
            total = total.saturating_add(self.runs[i].file_count());
            i = i + 1;
        }
        proof {
            assert(self.runs@.take(i as int) =~= self.runs@);
        }
        total
    }

    /// Whether no run holds a file.
    pub fn is_empty(&self) -> (empty: bool)
        ensures
            empty == self.holds_nothing(),
    {
        let mut i: usize = 0;
        while i < self.runs.len()
            invariant
                i <= self.runs@.len(),
                forall|j: int| 0 <= j < i ==> (#[trigger] self.runs@[j]).files@.len() == 0,
            decreases self.runs@.len() - i,
        {
            if !self.runs[i].is_empty() {
                return false;
            }
            i = i + 1;
        }
        true
    }
}

/// The bytes of levels together.
pub open spec fn levels_bytes(levels: Seq<LevelShape>) -> nat
    decreases levels.len(),
{
    if levels.len() == 0 {
        0
    } else {
        levels_bytes(levels.drop_last()) + runs_bytes(levels.last().runs@)
    }
}

/// The whole tree's shape.
#[derive(Debug, Clone)]
pub struct TreeShape {
    /// Level 0, which receives memtable flushes, first.
    pub levels: Vec<LevelShape>,
}

impl Default for TreeShape {
    fn default() -> (tree: Self)
        ensures
            tree.levels@.len() == 0,
    {
        TreeShape { levels: Vec::new() }
    }
}

impl TreeShape {
    /// The runs of a level; none if it does not exist.
    pub open spec fn runs_at(self, level: int) -> Seq<RunShape> {
        if 0 <= level < self.levels@.len() {
            self.levels@[level].runs@
        } else {
            Seq::empty()
        }
    }

    /// The bytes of a level, as a `u64` holds them.
    pub open spec fn bytes_at(self, level: int) -> u64 {
        saturated(runs_bytes(self.runs_at(level)))
    }

    /// A level exists and holds a file.
    pub open spec fn occupied(self, level: int) -> bool {
        0 <= level < self.levels@.len() && !self.levels@[level].holds_nothing()
    }

    /// The bytes of the whole tree.
    pub fn total_bytes(&self) -> (bytes: u64)
        ensures
            bytes == saturated(levels_bytes(self.levels@)),
    {
        let mut total: u64 = 0;
        let mut i: usize = 0;
        while i < self.levels.len()
            invariant
                i <= self.levels@.len(),
                total == saturated(levels_bytes(self.levels@.take(i as int))),
            decreases self.levels@.len() - i,
        {
            proof {
                assert(self.levels@.take(i + 1).drop_last() =~= self.levels@.take(i as int));
            }
            total = total.saturating_add(self.levels[i].bytes());
            i = i + 1;
        }
        proof {
            assert(self.levels@.take(i as int) =~= self.levels@);
        }
        total
    }

    /// A level, if it exists.
    pub fn level(&self, level: usize) -> (shape: Option<&LevelShape>)
        ensures
            match shape {
                Some(shape) => level < self.levels@.len() && *shape == self.levels@[level as int],
                None => level >= self.levels@.len(),
            },
    {
        if level < self.levels.len() {
            Some(&self.levels[level])
        } else {
            None
        }
    }

    /// The bytes of a level; 0 if it does not exist.
    pub fn level_bytes(&self, level: usize) -> (bytes: u64)
        ensures
            bytes == self.bytes_at(level as int),
    {
        match self.level(level) {
            Some(shape) => shape.bytes(),
            None => 0,
        }
    }

    /// The runs of a level; 0 if it does not exist.
    pub fn run_count(&self, level: usize) -> (count: usize)
        ensures
            count == self.runs_at(level as int).len(),
    {
        match self.level(level) {
            Some(shape) => shape.run_count(),
            None => 0,
        }
    }

    /// The deepest level that holds anything; `None` for an empty tree.
    pub fn bottom_level(&self) -> (bottom: Option<usize>)
        ensures
            match bottom {
                Some(bottom) => self.occupied(bottom as int) && forall|level: int|
                    bottom < level ==> !#[trigger] self.occupied(level),
                None => forall|level: int| !#[trigger] self.occupied(level),
            },
    {
        let mut level: usize = self.levels.len();
        while level > 0
            invariant
                level <= self.levels@.len(),
                forall|below: int| level <= below ==> !#[trigger] self.occupied(below),
            decreases level,
        {
            level = level - 1;
            if !self.levels[level].is_empty() {
                proof {
                    assert(self.occupied(level as int));
                }
                return Some(level);
            }
            proof {
                assert forall|below: int| level <= below implies !#[trigger] self.occupied(below) by {
                    if below > level {
                        assert(level + 1 <= below);
                    }
                }
            }
        }
        None
    }
}

/// The bytes of the files of one run, added one by one to what there was.
pub open spec fn with_files(sum: int, files: Seq<FileShape>) -> int {
    files.fold_left(sum, |sum: int, file: FileShape| sum + file.bytes)
}

/// The bytes of the files of runs, added one by one to what there was.
pub open spec fn with_runs(sum: int, runs: Seq<RunShape>) -> int {
    runs.fold_left(sum, |sum: int, run: RunShape| with_files(sum, run.files@))
}

/// The bytes of files are the sum of their sizes.
pub proof fn law_files_bytes_are_a_sum(sum: int, files: Seq<FileShape>)
    ensures
        with_files(sum, files) == sum + files_bytes(files),
        forall|f: int| 0 <= f < files.len() ==> (#[trigger] files[f]).bytes <= files_bytes(files),
    decreases files.len(),
{
    reveal_with_fuel(Seq::fold_left, 2);
    if files.len() > 0 {
        let head = files.drop_last();
        law_files_bytes_are_a_sum(sum, head);
        assert forall|f: int| 0 <= f < files.len() implies (#[trigger] files[f]).bytes
            <= files_bytes(files) by {
            if f < head.len() {
                assert(head[f] == files[f]);
            }
        }
    }
}

/// The bytes of runs are the sum of the sizes of all of their files, and no less than
/// the size of any of them.
pub proof fn law_runs_bytes_are_a_sum(sum: int, runs: Seq<RunShape>)
    ensures
        with_runs(sum, runs) == sum + runs_bytes(runs),
        forall|r: int, f: int|
            0 <= r < runs.len() && 0 <= f < runs[r].files@.len() ==> (
            #[trigger] runs[r].files@[f]).bytes <= runs_bytes(runs),
    decreases runs.len(),
{
    reveal_with_fuel(Seq::fold_left, 2);
    if runs.len() > 0 {
        let head = runs.drop_last();
        law_runs_bytes_are_a_sum(sum, head);
        law_files_bytes_are_a_sum(with_runs(sum, head), runs.last().files@);
        assert forall|r: int, f: int|
            0 <= r < runs.len() && 0 <= f < runs[r].files@.len() implies (
        #[trigger] runs[r].files@[f]).bytes <= runs_bytes(runs) by {
            if r < head.len() {
                assert(head[r] == runs[r]);
                assert(head[r].files@[f].bytes <= runs_bytes(head));
            }
        }
    }
}

/// What a level holds is the sum of the sizes of all of its files, as far as a `u64`
/// reaches; a level that does not exist holds nothing.
pub proof fn law_level_bytes_are_those_of_its_files(tree: TreeShape, level: int)
    ensures
        0 <= level < tree.levels@.len() ==> {
            let sum = with_runs(0, tree.levels@[level].runs@);
            tree.bytes_at(level) == if sum <= u64::MAX {
                sum
            } else {
                u64::MAX as int
            }
        },
        !(0 <= level < tree.levels@.len()) ==> tree.bytes_at(level) == 0,
{
    law_runs_bytes_are_a_sum(0, tree.runs_at(level));
}

/// What a tree holds is the sum of what its levels hold.
pub proof fn law_tree_bytes_are_a_sum(sum: int, levels: Seq<LevelShape>)
    ensures
        levels.fold_left(sum, |sum: int, level: LevelShape| with_runs(sum, level.runs@)) == sum
            + levels_bytes(levels),
    decreases levels.len(),
{
    reveal_with_fuel(Seq::fold_left, 2);
    if levels.len() > 0 {
        law_tree_bytes_are_a_sum(sum, levels.drop_last());
        law_runs_bytes_are_a_sum(sum + levels_bytes(levels.drop_last()), levels.last().runs@);
    }
}

/// The number of files of runs is the sum of the lengths of their lists.
pub proof fn law_runs_files_are_a_sum(sum: int, runs: Seq<RunShape>)
    ensures
        runs.fold_left(sum, |sum: int, run: RunShape| sum + run.files@.len()) == sum + runs_files(
            runs,
        ),
    decreases runs.len(),
{
    reveal_with_fuel(Seq::fold_left, 2);
    if runs.len() > 0 {
        law_runs_files_are_a_sum(sum, runs.drop_last());
    }
}

/// Closed ranges meet exactly if they share a key, whichever is named first.
pub proof fn law_ranges_meet_where_they_share_a_key(
    a: Seq<u8>,
    b: Seq<u8>,
    c: Seq<u8>,
    d: Seq<u8>,
)
    requires
        lex_le(a, b),
        lex_le(c, d),
    ensures
        ranges_meet(Some(a), Some(b), Some(c), Some(d)) <==> exists|key: Seq<u8>|
            lex_le(a, key) && #[trigger] lex_le(key, b) && lex_le(c, key) && lex_le(key, d),
        ranges_meet(Some(a), Some(b), Some(c), Some(d)) == ranges_meet(
            Some(c),
            Some(d),
            Some(a),
            Some(b),
        ),
        forall|end: Option<Seq<u8>>|
            !(#[trigger] ranges_meet(None, Some(b), Some(c), end)) && !ranges_meet(
                Some(a),
                Some(b),
                None,
                end,
            ),
{
    if ranges_meet(Some(a), Some(b), Some(c), Some(d)) {
        super::order::lemma_lex_total(a, c);
        if lex_le(a, c) {
            assert(lex_le(a, c) && lex_le(c, b) && lex_le(c, c) && lex_le(c, d));
        } else {
            assert(lex_le(c, a));
            assert(lex_le(a, a) && lex_le(a, b) && lex_le(c, a) && lex_le(a, d));
        }
    }
    if exists|key: Seq<u8>|
        lex_le(a, key) && #[trigger] lex_le(key, b) && lex_le(c, key) && lex_le(key, d) {
        let key = choose|key: Seq<u8>|
            lex_le(a, key) && #[trigger] lex_le(key, b) && lex_le(c, key) && lex_le(key, d);
        lemma_le_transitive(a, key, d);
        lemma_le_transitive(c, key, b);
    }
}

proof fn lemma_le_transitive(a: Seq<u8>, b: Seq<u8>, c: Seq<u8>)
    requires
        lex_le(a, b),
        lex_le(b, c),
    ensures
        lex_le(a, c),
{
    if a != b && b != c {
        super::order::lemma_lex_transitive(a, b, c);
    }
}

/// Every level below `target` is empty.
pub open spec fn deepest(tree: TreeShape, target: int) -> bool {
    forall|level: int| target < level ==> !#[trigger] tree.occupied(level)
}

/// Whether every level strictly below `target_level` is empty.
///
/// Needed for discarding tombstones, but not enough: the target level itself
/// may hold older runs.
pub fn is_deepest_level(tree: &TreeShape, target_level: usize) -> (is_deepest: bool)
    ensures
        is_deepest == deepest(*tree, target_level as int),
{
    let mut level: usize = tree.levels.len();
    while level > 0
        invariant
            level <= tree.levels@.len(),
            forall|below: int|
                level <= below && target_level < below ==> !#[trigger] tree.occupied(below),
        decreases level,
    {
        level = level - 1;
        if level > target_level && !tree.levels[level].is_empty() {
            proof {
                assert(tree.occupied(level as int));
            }
            return false;
        }
        proof {
            assert forall|below: int|
                level <= below && target_level < below implies !#[trigger] tree.occupied(below) by {
                if below > level {
                    assert(level + 1 <= below);
                }
            }
        }
    }
    true
}

} // verus!
