//! When a level compacts into the next, and at what granularity.
//!
//! A growth scheme is a stateful trigger. [`GrowthScheme::note_flush`] advances
//! it by one memtable flush; [`GrowthScheme::next_compaction`] then gives the
//! compactions to run, one at a time, until the tree is settled. A scheme moves
//! its schedule on when it gives one, so the caller has to perform what it is
//! handed.

use vstd::prelude::*;

use super::shape::TreeShape;

pub mod ecotune_scheme;
pub mod horizontal;
pub mod horizontal_tiering;
pub mod laws;
pub mod schedule;
pub mod vertical;
pub mod vertiorizon;

pub use ecotune_scheme::EcoTune;
pub use horizontal::HorizontalLeveling;
pub use horizontal_tiering::HorizontalTiering;
pub use vertical::Vertical;
pub use vertiorizon::{HorizontalPolicy, Vertiorizon};

verus! {

/// How much of a level one compaction moves.
#[derive(Debug, Clone, Copy, PartialEq, Eq, Structural)]
pub enum Granularity {
    /// Merge the whole level at once.
    Full,
    /// Merge a bounded slice: a few files, and the files that they meet below.
    Partial,
}

/// One compaction that a growth scheme has scheduled.
#[derive(Debug, Clone, Copy, PartialEq, Eq, Structural)]
pub struct CompactionRequest {
    /// The shallowest source level, which holds the newest data.
    pub first_level: usize,
    /// The deepest source level, inclusive.
    pub last_level: usize,
    pub target_level: usize,
    pub granularity: Granularity,
    /// Merge only the newest runs whose units together reach this, instead of
    /// the whole level.
    pub merge_units: Option<usize>,
}

/// A request that keeps newer data above older: the sources are consecutive
/// levels, the target is the last of them or the next one, and only part of a
/// level is taken either to be merged in place or as a slice of one level.
pub open spec fn orderly(request: CompactionRequest) -> bool {
    &&& request.first_level <= request.last_level
    &&& request.target_level == request.last_level || request.target_level == request.last_level
        + 1
    &&& request.merge_units is Some ==> request.first_level == request.target_level
    &&& request.granularity is Partial ==> request.first_level == request.last_level
        && request.target_level == request.last_level + 1
}

/// One whole level into the next.
pub open spec fn one_level(level: nat, granularity: Granularity) -> CompactionRequest {
    CompactionRequest {
        first_level: level as usize,
        last_level: level as usize,
        target_level: (level + 1) as usize,
        granularity,
        merge_units: None,
    }
}

impl CompactionRequest {
    /// The ordinary case: one level into the next.
    pub fn single(level: usize, granularity: Granularity) -> (request: Self)
        requires
            level < usize::MAX,
        ensures
            request == one_level(level as nat, granularity),
            request.first_level == level,
            request.last_level == level,
            request.target_level == level + 1,
    {
        CompactionRequest {
            first_level: level,
            last_level: level,
            target_level: level + 1,
            granularity,
            merge_units: None,
        }
    }

    /// The source levels, shallowest first: the order that a merge needs.
    pub fn source_levels(&self) -> (levels: Vec<usize>)
        ensures
            levels@.len() == if self.first_level <= self.last_level {
                self.last_level - self.first_level + 1
            } else {
                0
            },
            forall|i: int| 0 <= i < levels@.len() ==> #[trigger] levels@[i] == self.first_level + i,
    {
        let mut levels: Vec<usize> = Vec::new();
        if self.first_level > self.last_level {
            return levels;
        }
        let mut level: usize = self.first_level;
        while level < self.last_level
            invariant
                self.first_level <= level <= self.last_level,
                levels@.len() == level - self.first_level,
                forall|i: int|
                    0 <= i < levels@.len() ==> #[trigger] levels@[i] == self.first_level + i,
            decreases self.last_level - level,
        {
            levels.push(level);
            level = level + 1;
        }
        levels.push(level);
        levels
    }

    /// Whether more than one level is merged at once.
    pub fn spans_multiple_levels(&self) -> (spans: bool)
        ensures
            spans == (self.last_level > self.first_level),
    {
        self.last_level > self.first_level
    }
}

/// Decides when a level compacts into the next, and at what granularity.
pub trait GrowthScheme {
    /// The schedule is in a state that the scheme can be in.
    spec fn wf(&self) -> bool;

    /// A short name.
    fn name(&self) -> (name: &'static str)
        ensures
            name@.len() > 0,
    ;

    /// Advances by one memtable flush landing in level 0.
    fn note_flush(&mut self)
        requires
            old(self).wf(),
        ensures
            final(self).wf(),
    ;

    /// The next compaction to run, or `None` once settled.
    fn next_compaction(&mut self, tree: &TreeShape) -> (request: Option<CompactionRequest>)
        requires
            old(self).wf(),
        ensures
            final(self).wf(),
            request matches Some(request) ==> orderly(request),
    ;

    /// The number of levels, if the scheme fixes one.
    fn max_levels(&self) -> Option<usize>
        requires
            self.wf(),
    ;
}

/// The number of ways to choose `k` out of `n`.
pub open spec fn choices(n: nat, k: nat) -> nat
    decreases n,
{
    if k == 0 {
        1
    } else if n == 0 {
        0
    } else {
        choices((n - 1) as nat, (k - 1) as nat) + choices((n - 1) as nat, k)
    }
}

/// The most that a `u64` holds of a number.
pub open spec fn capped(value: nat) -> u64 {
    if value > u64::MAX {
        u64::MAX
    } else {
        value as u64
    }
}

/// There is no way to choose more than there are, and one to choose all.
pub proof fn lemma_choices_edges(n: nat, k: nat)
    ensures
        k > n ==> choices(n, k) == 0,
        choices(n, n) == 1,
        k <= n ==> choices(n, k) >= 1,
    decreases n,
{
    if n > 0 {
        lemma_choices_edges((n - 1) as nat, k);
        if k > 0 {
            lemma_choices_edges((n - 1) as nat, (k - 1) as nat);
        }
        lemma_choices_edges((n - 1) as nat, n);
        lemma_choices_edges((n - 1) as nat, (n - 1) as nat);
    }
}

/// Each coefficient from the one before it in its row.
pub proof fn lemma_choices_step(n: nat, k: nat)
    requires
        k <= n,
    ensures
        (k + 1) * choices(n, k + 1) == (n - k) * choices(n, k),
    decreases n,
{
    if n == 0 {
        assert(choices(0, 1) == 0);
    } else {
        let m = (n - 1) as nat;
        let a = choices(m, k);
        let b = choices(m, k + 1);
        assert(choices(n, k + 1) == a + b);
        if k == n {
            lemma_choices_edges(n, k + 1);
            assert((k + 1) * 0 == 0) by (nonlinear_arith);
            assert((n - k) * choices(n, k) == 0) by (nonlinear_arith)
                requires
                    n - k == 0,
            ;
        } else {
            lemma_choices_step(m, k);
            if k == 0 {
                assert((m - k) * a == m * a);
                assert(1 * choices(n, 1) == choices(n, 1));
                assert(n * 1 == n);
                assert(a == 1);
                assert((k + 1) * b == b) by (nonlinear_arith)
                    requires
                        k == 0,
                ;
                assert(m * a == m) by (nonlinear_arith)
                    requires
                        a == 1,
                ;
            } else {
                let c = choices(m, (k - 1) as nat);
                lemma_choices_step(m, (k - 1) as nat);
                assert(choices(n, k) == c + a);
                assert(k * a == (n - k) * c);
                assert((k + 1) * b == (m - k) * a);
                assert((k + 1) * (a + b) == (n - k) * (c + a)) by (nonlinear_arith)
                    requires
                        k * a == (n - k) * c,
                        (k + 1) * b == (m - k) * a,
                        m == n - 1,
                ;
            }
        }
    }
}

/// Choosing `k` is leaving out `n - k`.
pub proof fn lemma_choices_symmetric(n: nat, k: nat)
    requires
        k <= n,
    ensures
        choices(n, k) == choices(n, (n - k) as nat),
    decreases n,
{
    lemma_choices_edges(n, k);
    if k == 0 || k == n {
        lemma_choices_edges(n, n);
    } else {
        let m = (n - 1) as nat;
        lemma_choices_symmetric(m, (k - 1) as nat);
        lemma_choices_symmetric(m, k);
        assert(m - (k - 1) == n - k);
        assert(m - k == n - k - 1);
    }
}

/// Up to the middle of a row the coefficients do not shrink.
pub proof fn lemma_choices_rise(n: nat, j: nat, k: nat)
    requires
        j <= k,
        2 * k <= n,
    ensures
        choices(n, j) <= choices(n, k),
    decreases k - j,
{
    if j < k {
        lemma_choices_rise(n, j, (k - 1) as nat);
        let i = (k - 1) as nat;
        lemma_choices_step(n, i);
        let a = choices(n, i);
        let b = choices(n, k);
        assert(a <= b) by (nonlinear_arith)
            requires
                (i + 1) * b == (n - i) * a,
                n - i >= i + 1,
                i >= 0,
                a >= 0,
        ;
    }
}

/// There are no fewer ways to choose out of more.
pub proof fn lemma_choices_grow(n: nat, more: nat, k: nat)
    requires
        n <= more,
    ensures
        choices(n, k) <= choices(more, k),
    decreases more,
{
    if n < more && k > 0 {
        lemma_choices_grow(n, (more - 1) as nat, k);
    }
}

/// Choosing one.
pub proof fn lemma_choose_one(n: nat)
    ensures
        choices(n, 1) == n,
    decreases n,
{
    if n > 0 {
        lemma_choose_one((n - 1) as nat);
        assert(choices((n - 1) as nat, 0) == 1);
    }
}

/// The ways to choose two are the triangular numbers.
pub proof fn lemma_triangular(c: nat)
    ensures
        2 * choices(c + 1, 2) == c * (c + 1),
    decreases c,
{
    assert(choices(c + 1, 2) == choices(c, 1) + choices(c, 2));
    lemma_choose_one(c);
    if c == 0 {
        assert(choices(0, 2) == 0);
        assert(c * (c + 1) == 0) by (nonlinear_arith)
            requires
                c == 0,
        ;
    } else {
        let d = (c - 1) as nat;
        lemma_triangular(d);
        assert(d + 1 == c);
        assert(2 * choices(c, 2) == d * c);
        assert(c * (c + 1) == d * c + 2 * c) by (nonlinear_arith)
            requires
                d == c - 1,
        ;
    }
}

/// The binomial coefficient, saturating at [`u64::MAX`].
///
/// Multiplies and divides in turn, so that what is held on the way is itself a
/// coefficient.
pub fn binomial(n: u64, k: u64) -> (count: u64)
    ensures
        count == capped(choices(n as nat, k as nat)),
{
    if k > n {
        proof {
            lemma_choices_edges(n as nat, k as nat);
        }
        return 0;
    }
    let fewer: u64 = if k < n - k {
        k
    } else {
        n - k
    };
    proof {
        lemma_choices_symmetric(n as nat, k as nat);
        lemma_choices_edges(n as nat, 0);
    }
    let mut result: u128 = 1;
    let mut step: u64 = 0;
    while step < fewer
        invariant
            step <= fewer,
            2 * fewer <= n,
            choices(n as nat, fewer as nat) == choices(n as nat, k as nat),
            result == choices(n as nat, step as nat),
            result <= u64::MAX,
        decreases fewer - step,
    {
        let ghost next = choices(n as nat, (step + 1) as nat);
        proof {
            lemma_choices_step(n as nat, step as nat);
            lemma_choices_rise(n as nat, (step + 1) as nat, fewer as nat);
            assert(0 <= result * (n - step) <= 0xffff_ffff_ffff_ffff * 0xffff_ffff_ffff_ffff)
                by (nonlinear_arith)
                requires
                    0 <= result <= 0xffff_ffff_ffff_ffff,
                    0 <= n - step <= 0xffff_ffff_ffff_ffff,
            ;
            assert((result * (n - step)) / (step + 1) == next) by (nonlinear_arith)
                requires
                    (step + 1) * next == (n - step) * result,
                    step >= 0,
            ;
        }
        result = result * (n - step) as u128 / (step as u128 + 1);
        if result > u64::MAX as u128 {
            return u64::MAX;
        }
        step = step + 1;
    }
    result as u64
}

/// `base * ratio^exponent`.
pub open spec fn geometric(base: nat, ratio: nat, exponent: nat) -> nat
    decreases exponent,
{
    if exponent == 0 {
        base
    } else {
        geometric(base, ratio, (exponent - 1) as nat) * ratio
    }
}

/// With a ratio of at least one a geometric sequence does not shrink.
pub proof fn lemma_geometric_rises(base: nat, ratio: nat, a: nat, b: nat)
    requires
        ratio >= 1,
        a <= b,
    ensures
        geometric(base, ratio, a) <= geometric(base, ratio, b),
    decreases b - a,
{
    if a < b {
        lemma_geometric_rises(base, ratio, a, (b - 1) as nat);
        let g = geometric(base, ratio, (b - 1) as nat);
        assert(g <= g * ratio) by (nonlinear_arith)
            requires
                g >= 0,
                ratio >= 1,
        ;
    }
}

/// A geometric sequence that has reached zero stays there.
proof fn lemma_geometric_zero(base: nat, ratio: nat, a: nat, b: nat)
    requires
        a <= b,
        geometric(base, ratio, a) == 0,
    ensures
        geometric(base, ratio, b) == 0,
    decreases b - a,
{
    if a < b {
        lemma_geometric_zero(base, ratio, a, (b - 1) as nat);
        assert(0 * ratio == 0) by (nonlinear_arith);
    }
}

/// `base * ratio^exponent`, saturating at [`u64::MAX`].
pub fn saturating_geometric(base: u64, ratio: u64, exponent: usize) -> (value: u64)
    requires
        ratio >= 1,
    ensures
        value == capped(geometric(base as nat, ratio as nat, exponent as nat)),
{
    let mut value: u128 = base as u128;
    let mut i: usize = 0;
    while i < exponent
        invariant
            i <= exponent,
            ratio >= 1,
            value <= u64::MAX,
            value == geometric(base as nat, ratio as nat, i as nat),
        decreases exponent - i,
    {
        proof {
            assert(0 <= value * ratio <= 0xffff_ffff_ffff_ffff * 0xffff_ffff_ffff_ffff)
                by (nonlinear_arith)
                requires
                    0 <= value <= 0xffff_ffff_ffff_ffff,
                    0 <= ratio <= 0xffff_ffff_ffff_ffff,
            ;
        }
        value = value * ratio as u128;
        i = i + 1;
        if value > u64::MAX as u128 {
            proof {
                lemma_geometric_rises(base as nat, ratio as nat, i as nat, exponent as nat);
            }
            return u64::MAX;
        }
    }
    value as u64
}

} // verus!
