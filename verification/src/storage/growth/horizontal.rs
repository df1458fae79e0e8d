//! Horizontal growth under leveling: a fixed number of levels, and a compaction
//! counter for each.
//!
//! ```text
//!   C_i = 0 for all i
//!   on each buffer flush:
//!     C_0 += 1
//!     for each level i but the deepest, downwards:
//!       if C_i > C_(i+1):
//!         full compaction of level i into level i+1
//!         C_(i+1) += 1;  C_i = 0
//! ```
//!
//! `C_i` counts the merges into level `i` since it last merged onward. With two
//! levels the compactions land at flushes 1, 3, 6, 10 and so on: often while
//! the level below is small, ever more rarely as it grows. Under leveling a
//! compaction costs what its target holds, so the merges are done while they
//! are cheap.

use vstd::prelude::*;

use super::{one_level, CompactionRequest, Granularity, GrowthScheme};
use crate::storage::shape::TreeShape;

verus! {

/// A counter one higher, as a `u64` holds it.
pub open spec fn counted(counter: u64) -> u64 {
    if counter == u64::MAX {
        counter
    } else {
        (counter + 1) as u64
    }
}

/// A fixed number of levels, compacted by counters.
#[derive(Debug, Clone)]
pub struct HorizontalLeveling {
    /// The counter of each level, level 0 first.
    pub counters: Vec<u64>,
    /// How far down the pass of the current flush has come.
    pub scan_cursor: usize,
}

impl HorizontalLeveling {
    /// How far down the pass of the current flush has come.
    pub open spec fn cursor(&self) -> nat {
        self.scan_cursor as nat
    }

    /// A level has taken in more merges than it has passed on, and has
    /// something to pass on.
    pub open spec fn fires(&self, tree: TreeShape, level: int) -> bool {
        &&& 0 <= level < self.counters@.len() - 1
        &&& self.counters@[level] > self.counters@[level + 1]
        &&& tree.bytes_at(level) != 0
    }

    /// What asking for the next compaction gives and leaves: the next level
    /// down, in this flush's pass, that fires.
    pub open spec fn steps_to(
        self,
        tree: TreeShape,
        after: Self,
        request: Option<CompactionRequest>,
    ) -> bool {
        match request {
            Some(request) => {
                let level = request.first_level as int;
                &&& request == one_level(level as nat, Granularity::Full)
                &&& self.cursor() <= level
                &&& self.fires(tree, level)
                &&& forall|above: int|
                    self.cursor() <= above < level ==> !#[trigger] self.fires(
                        tree,
                        above,
                    )
                &&& after.counters@ == self.counters@.update(
                    level + 1,
                    counted(self.counters@[level + 1]),
                ).update(level, 0)
                &&& after.cursor() == level + 1
            },
            None => {
                &&& forall|level: int|
                    self.cursor() <= level ==> !#[trigger] self.fires(tree, level)
                &&& after.counters@ == self.counters@
                &&& after.cursor() >= after.counters@.len() - 1
                &&& after.cursor() >= self.cursor()
            },
        }
    }

    /// What a flush leaves: one more at level 0, and a new pass.
    pub open spec fn flushes_to(self, after: Self) -> bool {
        &&& after.counters@ == self.counters@.update(0, counted(self.counters@[0]))
        &&& after.cursor() == 0
    }

    /// A scheme of `levels` levels.
    pub fn new(levels: usize) -> (scheme: Self)
        requires
            levels >= 2,
        ensures
            scheme.wf(),
            scheme.counters@ == Seq::new(levels as nat, |i: int| 0u64),
            scheme.cursor() == levels,
    {
        let mut counters: Vec<u64> = Vec::new();
        let mut i: usize = 0;
        while i < levels
            invariant
                i <= levels,
                counters@ == Seq::new(i as nat, |j: int| 0u64),
            decreases levels - i,
        {
            counters.push(0);
            i = i + 1;
            proof {
                assert(counters@ =~= Seq::new(i as nat, |j: int| 0u64));
            }
        }
        HorizontalLeveling { counters, scan_cursor: levels }
    }

    /// The number of levels.
    pub fn levels(&self) -> (levels: usize)
        ensures
            levels == self.counters@.len(),
    {
        self.counters.len()
    }

    /// The counters.
    pub fn counters(&self) -> (counters: &[u64])
        ensures
            counters@ == self.counters@,
    {
        self.counters.as_slice()
    }
}

impl GrowthScheme for HorizontalLeveling {
    open spec fn wf(&self) -> bool {
        self.counters@.len() >= 2
    }

    fn name(&self) -> (name: &'static str)
        ensures
            name@ == "horizontal-leveling"@,
    {
        proof {
            reveal_strlit("horizontal-leveling");
        }
        "horizontal-leveling"
    }

    /// Counts the flush and begins its one pass down the levels.
    fn note_flush(&mut self)
        ensures
            old(self).flushes_to(*final(self)),
    {
        let count: u64 = self.counters[0];
        self.counters.set(0, count.saturating_add(1));
        self.scan_cursor = 0;
    }

    /// The next level down, in this flush's pass, that fires.
    fn next_compaction(&mut self, tree: &TreeShape) -> (request: Option<CompactionRequest>)
        ensures
            old(self).steps_to(*tree, *final(self), request),
    {
        let last_source: usize = self.counters.len() - 1;
        while self.scan_cursor < last_source
            invariant
                last_source == self.counters@.len() - 1,
                self.counters@.len() >= 2,
                self.counters@ == old(self).counters@,
                old(self).scan_cursor <= self.scan_cursor,
                forall|above: int|
                    old(self).cursor() <= above < self.scan_cursor ==> !#[trigger] old(self).fires(
                        *tree,
                        above,
                    ),
            decreases last_source - self.scan_cursor,
        {
            let level: usize = self.scan_cursor;
            self.scan_cursor = level + 1;
            if self.counters[level] > self.counters[level + 1] {
                if tree.level_bytes(level) == 0 {
                    continue;
                }
                proof {
                    assert(old(self).fires(*tree, level as int));
                }
                let below: u64 = self.counters[level + 1];
                self.counters.set(level + 1, below.saturating_add(1));
                self.counters.set(level, 0);
                return Some(CompactionRequest::single(level, Granularity::Full));
            }
        }
        None
    }

    fn max_levels(&self) -> (levels: Option<usize>)
        ensures
            levels == Some(self.counters@.len() as usize),
    {
        Some(self.counters.len())
    }
}

} // verus!
