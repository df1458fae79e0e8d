//! Horizontal growth under tiering: a fixed number of levels, and counters that
//! count down.
//!
//! ```text
//!   k = the smallest integer with N/B <= choose(k+l-1, l)
//!   C_i = k for all i
//!   on each buffer flush:
//!     C_0 -= 1
//!     for each level i but the deepest, downwards:
//!       if C_i = 0:
//!         full compaction of level i into level i+1
//!         C_(i+1) -= 1
//!         C_j = C_(i+1) for every j up to i
//! ```
//!
//! for `l` levels, a buffer of `B` bytes and an expected data size of `N`. Under
//! tiering each entry is rewritten once per level whenever the compaction comes,
//! so timing only decides how many runs are alive and for how long: compactions
//! come rarely while a level is empty and ever more often as it fills.
//!
//! After as many flushes as the data size allowed for, every counter is at
//! zero. The schedule then starts again for twice the data size.

use vstd::prelude::*;

use super::{
    binomial, capped, choices, lemma_choices_grow, lemma_triangular, one_level, CompactionRequest,
    Granularity, GrowthScheme,
};
use crate::storage::shape::TreeShape;

verus! {

/// A counter that allows for as many flushes as a `u64` can count, whatever the
/// number of levels.
pub const LARGE_COUNTER: u64 = 0x2_0000_0000;

/// The most levels that counters can be allocated for: half the address space, at
/// eight bytes each.
pub const MAX_LEVELS: usize = usize::MAX / 16;

/// The number of flushes that `data_bytes` come to, at least one.
pub open spec fn flushes_for(buffer_bytes: nat, data_bytes: nat) -> nat {
    let flushes = (data_bytes + buffer_bytes - 1) as nat / buffer_bytes;
    if flushes == 0 {
        1
    } else {
        flushes
    }
}

/// `k` allows for as many flushes.
pub open spec fn allows(levels: nat, k: nat, flushes: nat) -> bool {
    capped(choices((k + levels - 1) as nat, levels)) >= flushes
}

/// The initial counter: the smallest `k`, from one on, that allows for the flushes.
pub open spec fn is_initial_counter(levels: nat, flushes: nat, k: nat) -> bool {
    &&& k >= 1
    &&& allows(levels, k, flushes)
    &&& forall|less: nat| 1 <= less < k ==> !#[trigger] allows(levels, less, flushes)
}

/// What a counter allows for, a larger one does.
proof fn lemma_allows_more(levels: nat, k: nat, more: nat, flushes: nat)
    requires
        1 <= k <= more,
        allows(levels, k, flushes),
    ensures
        allows(levels, more, flushes),
{
    lemma_choices_grow((k + levels - 1) as nat, (more + levels - 1) as nat, levels);
}

/// With two levels or more a counter allows for at least as many flushes as with
/// two.
proof fn lemma_allows_by_levels(levels: nat, k: nat)
    requires
        levels >= 2,
        k >= 1,
    ensures
        choices((k + levels - 1) as nat, levels) >= choices(k + 1, 2),
    decreases levels,
{
    if levels > 2 {
        lemma_allows_by_levels((levels - 1) as nat, k);
        assert(choices((k + levels - 1) as nat, levels) == choices(
            (k + levels - 2) as nat,
            (levels - 1) as nat,
        ) + choices((k + levels - 2) as nat, levels));
    }
}

/// The large counter allows for whatever can be counted.
proof fn lemma_large_counter(levels: nat, flushes: u64)
    requires
        levels >= 2,
    ensures
        allows(levels, LARGE_COUNTER as nat, flushes as nat),
{
    let k = LARGE_COUNTER as nat;
    lemma_allows_by_levels(levels, k);
    lemma_triangular(k);
    assert(choices(k + 1, 2) > u64::MAX);
}

/// A fixed number of levels, compacted by counters that count down.
#[derive(Debug, Clone)]
pub struct HorizontalTiering {
    /// The counter of each level, level 0 first.
    pub counters: Vec<u64>,
    /// The initial value of the counters.
    pub k: u64,
    /// The buffer size.
    pub buffer_bytes: u64,
    /// The data size that the schedule allows for.
    pub horizon_bytes: u64,
    /// How far down the pass of the current flush has come.
    pub scan_cursor: usize,
}

impl HorizontalTiering {
    /// The buffer size.
    pub open spec fn buffer(&self) -> nat {
        self.buffer_bytes as nat
    }

    /// The data size that the schedule allows for.
    pub open spec fn horizon(&self) -> nat {
        self.horizon_bytes as nat
    }

    /// How far down the pass of the current flush has come.
    pub open spec fn cursor(&self) -> nat {
        self.scan_cursor as nat
    }

    /// The schedule has run its course.
    pub open spec fn exhausted(&self) -> bool {
        forall|i: int| 0 <= i < self.counters@.len() ==> #[trigger] self.counters@[i] == 0
    }

    /// A level's counter has run out, and it has something to pass on.
    pub open spec fn fires(&self, tree: TreeShape, level: int) -> bool {
        &&& 0 <= level < self.counters@.len() - 1
        &&& self.counters@[level] == 0
        &&& tree.bytes_at(level) != 0
    }

    /// What asking for the next compaction gives and leaves: the next level
    /// down, in this flush's pass, whose counter has run out.
    pub open spec fn steps_to(
        self,
        tree: TreeShape,
        after: Self,
        request: Option<CompactionRequest>,
    ) -> bool {
        &&& after.k == self.k
        &&& after.buffer() == self.buffer()
        &&& after.horizon() == self.horizon()
        &&& match request {
            Some(request) => {
                let level = request.first_level as int;
                let below = self.counters@[level + 1];
                let reset = if below == 0 {
                    0u64
                } else {
                    (below - 1) as u64
                };
                &&& request == one_level(level as nat, Granularity::Full)
                &&& self.cursor() <= level
                &&& self.fires(tree, level)
                &&& forall|above: int|
                    self.cursor() <= above < level ==> !#[trigger] self.fires(
                        tree,
                        above,
                    )
                &&& after.counters@ == Seq::new(
                    self.counters@.len(),
                    |i: int|
                        if i <= level + 1 {
                            reset
                        } else {
                            self.counters@[i]
                        },
                )
                &&& after.cursor() == level + 1
            },
            None => {
                &&& forall|level: int|
                    self.cursor() <= level ==> !#[trigger] self.fires(tree, level)
                &&& after.counters@ == self.counters@
                &&& after.cursor() >= after.counters@.len() - 1
                &&& after.cursor() >= self.cursor()
            },
        }
    }

    /// What a flush leaves: one less at level 0, and a new pass; a schedule that
    /// has run its course starts again first.
    pub open spec fn flushes_to(self, after: Self) -> bool {
        &&& after.buffer() == self.buffer()
        &&& after.cursor() == 0
        &&& !self.exhausted() ==> {
            &&& after.k == self.k
            &&& after.horizon() == self.horizon()
            &&& after.counters@ == flushed(self.counters@)
        }
        &&& self.exhausted() ==> {
            &&& after.horizon() == doubled(self.horizon(), self.buffer())
            &&& restarted(
                self.counters@.len(),
                flushes_for(after.buffer(), after.horizon()),
                self.k,
                after.k,
            )
            &&& after.counters@ == flushed(
                Seq::new(self.counters@.len(), |i: int| after.k),
            )
        }
    }

    /// A scheme of `levels` levels for a buffer of `buffer_bytes` and
    /// `expected_data_bytes` of data.
    pub fn new(levels: usize, buffer_bytes: u64, expected_data_bytes: u64) -> (scheme: Self)
        requires
            2 <= levels <= MAX_LEVELS,
            buffer_bytes > 0,
        ensures
            scheme.wf(),
            is_initial_counter(
                levels as nat,
                flushes_for(buffer_bytes as nat, expected_data_bytes as nat),
                scheme.k as nat,
            ),
            scheme.counters@ == Seq::new(levels as nat, |i: int| scheme.k),
            scheme.buffer() == buffer_bytes,
            scheme.horizon() == expected_data_bytes,
            scheme.cursor() == levels,
    {
        let k: u64 = Self::initial_counter(levels, buffer_bytes, expected_data_bytes);
        HorizontalTiering {
            counters: filled(levels, k),
            k,
            buffer_bytes,
            horizon_bytes: expected_data_bytes,
            scan_cursor: levels,
        }
    }

    /// The smallest counter for which the schedule lasts as long as the data does.
    pub fn initial_counter(levels: usize, buffer_bytes: u64, data_bytes: u64) -> (k: u64)
        requires
            2 <= levels <= MAX_LEVELS,
            buffer_bytes > 0,
        ensures
            is_initial_counter(
                levels as nat,
                flushes_for(buffer_bytes as nat, data_bytes as nat),
                k as nat,
            ),
    {
        let whole: u64 = ((data_bytes as u128 + buffer_bytes as u128 - 1) / buffer_bytes as u128)
            as u64;
        let ghost sum = (data_bytes + buffer_bytes - 1) as nat;
        proof {
            assert(sum / (buffer_bytes as nat) <= data_bytes) by (nonlinear_arith)
                requires
                    buffer_bytes >= 1,
                    sum == data_bytes + buffer_bytes - 1,
            ;
        }
        let flushes: u64 = if whole == 0 {
            1
        } else {
            whole
        };
        // No counter up to `low` allows for the flushes; `high` does.
        let mut low: u64 = 0;
        let mut high: u64 = LARGE_COUNTER;
        proof {
            lemma_large_counter(levels as nat, flushes);
        }
        while high - low > 1
            invariant
                2 <= levels <= MAX_LEVELS,
                low < high <= LARGE_COUNTER,
                allows(levels as nat, high as nat, flushes as nat),
                low > 0 ==> !allows(levels as nat, low as nat, flushes as nat),
            decreases high - low,
        {
            let middle: u64 = low + (high - low) / 2;
            if binomial(middle + levels as u64 - 1, levels as u64) >= flushes {
                high = middle;
            } else {
                low = middle;
            }
        }
        proof {
            assert forall|less: nat| 1 <= less < high implies !#[trigger] allows(
                levels as nat,
                less,
                flushes as nat,
            ) by {
                if allows(levels as nat, less, flushes as nat) {
                    lemma_allows_more(levels as nat, less, low as nat, flushes as nat);
                }
            }
        }
        high
    }

    /// The number of levels.
    pub fn levels(&self) -> (levels: usize)
        ensures
            levels == self.counters@.len(),
    {
        self.counters.len()
    }

    /// The counters.
    pub fn counters(&self) -> (counters: &[u64])
        ensures
            counters@ == self.counters@,
    {
        self.counters.as_slice()
    }

    /// The initial counter value in force.
    pub fn k(&self) -> (k: u64)
        ensures
            k == self.k,
    {
        self.k
    }

    /// Starts the schedule again for twice the data size.
    fn restart_for_more_data(&mut self)
        requires
            old(self).wf(),
        ensures
            final(self).wf(),
            final(self).buffer() == old(self).buffer(),
            final(self).cursor() == old(self).cursor(),
            final(self).horizon() == doubled(old(self).horizon(), old(self).buffer()),
            restarted(
                old(self).counters@.len(),
                flushes_for(final(self).buffer(), final(self).horizon()),
                old(self).k,
                final(self).k,
            ),
            final(self).counters@ == Seq::new(
                old(self).counters@.len(),
                |i: int| final(self).k,
            ),
    {
        let twice: u128 = self.horizon_bytes as u128 * 2;
        let horizon: u64 = if twice > u64::MAX as u128 {
            u64::MAX
        } else {
            twice as u64
        };
        self.horizon_bytes = if horizon < self.buffer_bytes {
            self.buffer_bytes
        } else {
            horizon
        };
        let levels: usize = self.counters.len();
        let initial: u64 = Self::initial_counter(levels, self.buffer_bytes, self.horizon_bytes);
        let next: u64 = self.k.saturating_add(1);
        self.k = if initial < next {
            next
        } else {
            initial
        };
        self.counters = filled(levels, self.k);
    }
}

/// Twice the data size, as a `u64` holds it, and no less than a buffer.
pub open spec fn doubled(horizon: nat, buffer: nat) -> nat {
    let twice = capped(2 * horizon) as nat;
    if twice < buffer {
        buffer
    } else {
        twice
    }
}

/// The counter of a schedule that starts again: the initial one for the new
/// data size, or one more than the last if that is larger.
pub open spec fn restarted(levels: nat, flushes: nat, was: u64, k: u64) -> bool {
    exists|initial: nat| #[trigger]
        is_initial_counter(levels, flushes, initial) && k == if initial < super::horizontal::counted(
            was,
        ) {
            super::horizontal::counted(was) as nat
        } else {
            initial
        }
}

/// The counters after a flush: one less at level 0.
pub open spec fn flushed(counters: Seq<u64>) -> Seq<u64> {
    counters.update(
        0,
        if counters[0] == 0 {
            0
        } else {
            (counters[0] - 1) as u64
        },
    )
}

fn filled(levels: usize, k: u64) -> (counters: Vec<u64>)
    ensures
        counters@ == Seq::new(levels as nat, |i: int| k),
{
    let mut counters: Vec<u64> = Vec::new();
    let mut i: usize = 0;
    while i < levels
        invariant
            i <= levels,
            counters@ == Seq::new(i as nat, |j: int| k),
        decreases levels - i,
    {
        counters.push(k);
        i = i + 1;
        proof {
            assert(counters@ =~= Seq::new(i as nat, |j: int| k));
        }
    }
    counters
}

impl GrowthScheme for HorizontalTiering {
    open spec fn wf(&self) -> bool {
        &&& 2 <= self.counters@.len() <= MAX_LEVELS
        &&& self.buffer_bytes > 0
    }

    fn name(&self) -> (name: &'static str)
        ensures
            name@ == "horizontal-tiering"@,
    {
        proof {
            reveal_strlit("horizontal-tiering");
        }
        "horizontal-tiering"
    }

    /// Counts the flush and begins its one pass down the levels. A schedule
    /// that has run its course starts again first.
    fn note_flush(&mut self)
        ensures
            old(self).flushes_to(*final(self)),
    {
        let mut exhausted: bool = true;
        let mut i: usize = 0;
        while i < self.counters.len()
            invariant
                i <= self.counters@.len(),
                *self == *old(self),
                exhausted == forall|j: int| 0 <= j < i ==> #[trigger] self.counters@[j] == 0,
            decreases self.counters@.len() - i,
        {
            if self.counters[i] != 0 {
                exhausted = false;
            }
            i = i + 1;
        }
        if exhausted {
            self.restart_for_more_data();
        }
        let count: u64 = self.counters[0];
        self.counters.set(0, count.saturating_sub(1));
        self.scan_cursor = 0;
    }

    /// The next level down, in this flush's pass, whose counter has run out.
    fn next_compaction(&mut self, tree: &TreeShape) -> (request: Option<CompactionRequest>)
        ensures
            old(self).steps_to(*tree, *final(self), request),
    {
        let levels: usize = self.counters.len();
        let last_source: usize = levels - 1;
        while self.scan_cursor < last_source
            invariant
                last_source == levels - 1,
                levels == self.counters@.len(),
                self.wf(),
                self.k == old(self).k,
                self.buffer_bytes == old(self).buffer_bytes,
                self.horizon_bytes == old(self).horizon_bytes,
                self.counters@ == old(self).counters@,
                old(self).scan_cursor <= self.scan_cursor,
                forall|above: int|
                    old(self).cursor() <= above < self.scan_cursor ==> !#[trigger] old(self).fires(
                        *tree,
                        above,
                    ),
            decreases last_source - self.scan_cursor,
        {
            let level: usize = self.scan_cursor;
            self.scan_cursor = level + 1;
            if self.counters[level] == 0 {
                if tree.level_bytes(level) == 0 {
                    continue;
                }
                proof {
                    assert(old(self).fires(*tree, level as int));
                }
                let below: u64 = self.counters[level + 1];
                let reset: u64 = below.saturating_sub(1);
                let ghost start = self.counters@;
                let stop: usize = level + 2;
                let mut i: usize = 0;
                while i < stop
                    invariant
                        i <= stop,
                        stop == level + 2,
                        level + 1 < self.counters@.len(),
                        self.counters@.len() == start.len(),
                        self.k == old(self).k,
                        self.buffer_bytes == old(self).buffer_bytes,
                        self.horizon_bytes == old(self).horizon_bytes,
                        self.scan_cursor == level + 1,
                        self.counters@ == Seq::new(
                            start.len(),
                            |j: int|
                                if j < i {
                                    reset
                                } else {
                                    start[j]
                                },
                        ),
                    decreases stop - i,
                {
                    self.counters.set(i, reset);
                    i = i + 1;
                    proof {
                        assert(self.counters@ =~= Seq::new(
                            start.len(),
                            |j: int|
                                if j < i {
                                    reset
                                } else {
                                    start[j]
                                },
                        ));
                    }
                }
                proof {
                    assert(self.counters@ =~= Seq::new(
                        start.len(),
                        |i: int|
                            if i <= level + 1 {
                                reset
                            } else {
                                old(self).counters@[i]
                            },
                    ));
                }
                return Some(CompactionRequest::single(level, Granularity::Full));
            }
        }
        None
    }

    fn max_levels(&self) -> (levels: Option<usize>)
        ensures
            levels == Some(self.counters@.len() as usize),
    {
        Some(self.counters.len())
    }
}

} // verus!
