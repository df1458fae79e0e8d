//! Vertiorizon: a horizontal part above two vertical levels.
//!
//! ```text
//!   levels 0 .. l-1   horizontal part, n*B bytes in all: nearly all compactions
//!                     happen here, on the horizontal schedule, and a full merge
//!                     of the part is cheap because the part is small
//!   levels l, l+1     vertical part: most of the data, compacted partially
//! ```
//!
//! When the horizontal part is full, one full compaction drains all of it into
//! the first vertical level. When that overflows, slices of it move into the
//! largest level. With an overall ratio `T` the first vertical level holds
//! `T / sqrt 2` times the horizontal part, which makes the sum of the two write
//! costs smallest, and the largest level holds `T^2` times the horizontal part
//! either way.
//!
//! Once the largest level is full the horizontal part grows, by a factor of
//! `1 + 1/T`, with the next drain.

use vstd::prelude::*;

use super::horizontal::HorizontalLeveling;
use super::horizontal_tiering::{HorizontalTiering, MAX_LEVELS};
use super::{
    capped, geometric, one_level, saturating_geometric, CompactionRequest, Granularity,
    GrowthScheme,
};
use crate::storage::shape::TreeShape;

verus! {

/// Which merge policy the horizontal part schedules for.
#[derive(Debug, Clone, Copy, PartialEq, Eq, Structural)]
pub enum HorizontalPolicy {
    Leveling,
    Tiering,
}

/// Levels in the vertical part.
pub const VERTICAL_LEVELS: usize = 2;

/// The schedule of the horizontal part.
#[derive(Debug, Clone)]
pub enum HorizontalPart {
    Leveling(HorizontalLeveling),
    Tiering(HorizontalTiering),
}

impl HorizontalPart {
    /// The number of levels scheduled.
    pub open spec fn level_count(self) -> nat {
        match self {
            HorizontalPart::Leveling(scheme) => scheme.counters@.len(),
            HorizontalPart::Tiering(scheme) => scheme.counters@.len(),
        }
    }

    /// What asking for the next compaction gives and leaves.
    pub open spec fn steps_to(
        self,
        tree: TreeShape,
        after: Self,
        request: Option<CompactionRequest>,
    ) -> bool {
        match (self, after) {
            (HorizontalPart::Leveling(was), HorizontalPart::Leveling(is)) => was.steps_to(
                tree,
                is,
                request,
            ),
            (HorizontalPart::Tiering(was), HorizontalPart::Tiering(is)) => was.steps_to(
                tree,
                is,
                request,
            ),
            _ => false,
        }
    }

    /// What a flush leaves.
    pub open spec fn flushes_to(self, after: Self) -> bool {
        match (self, after) {
            (HorizontalPart::Leveling(was), HorizontalPart::Leveling(is)) => was.flushes_to(is),
            (HorizontalPart::Tiering(was), HorizontalPart::Tiering(is)) => was.flushes_to(is),
            _ => false,
        }
    }
}

impl GrowthScheme for HorizontalPart {
    open spec fn wf(&self) -> bool {
        match self {
            HorizontalPart::Leveling(scheme) => scheme.wf(),
            HorizontalPart::Tiering(scheme) => scheme.wf(),
        }
    }

    fn name(&self) -> (name: &'static str)
        ensures
            name@ == match self {
                HorizontalPart::Leveling(_) => "horizontal-leveling"@,
                HorizontalPart::Tiering(_) => "horizontal-tiering"@,
            },
    {
        match self {
            HorizontalPart::Leveling(scheme) => scheme.name(),
            HorizontalPart::Tiering(scheme) => scheme.name(),
        }
    }

    fn note_flush(&mut self)
        ensures
            old(self).flushes_to(*final(self)),
    {
        match self {
            HorizontalPart::Leveling(scheme) => scheme.note_flush(),
            HorizontalPart::Tiering(scheme) => scheme.note_flush(),
        }
    }

    fn next_compaction(&mut self, tree: &TreeShape) -> (request: Option<CompactionRequest>)
        ensures
            old(self).steps_to(*tree, *final(self), request),
    {
        match self {
            HorizontalPart::Leveling(scheme) => scheme.next_compaction(tree),
            HorizontalPart::Tiering(scheme) => scheme.next_compaction(tree),
        }
    }

    fn max_levels(&self) -> (levels: Option<usize>)
        ensures
            levels == Some(self.level_count() as usize),
    {
        match self {
            HorizontalPart::Leveling(scheme) => scheme.max_levels(),
            HorizontalPart::Tiering(scheme) => scheme.max_levels(),
        }
    }
}

/// `value` is no more than `scaled / sqrt 2`.
pub open spec fn within_root_half(value: nat, scaled: nat) -> bool {
    2 * (value * value) <= scaled * scaled
}

/// `scaled / sqrt 2`, rounded down and as a `u64` holds it.
pub open spec fn is_root_half(value: u64, scaled: nat) -> bool {
    &&& within_root_half(value as nat, scaled)
    &&& value < u64::MAX ==> !within_root_half((value + 1) as nat, scaled)
}

/// The bytes that the first `levels` levels hold together.
pub open spec fn held_above(tree: TreeShape, levels: nat) -> nat
    decreases levels,
{
    if levels == 0 {
        0
    } else {
        held_above(tree, (levels - 1) as nat) + tree.bytes_at(levels - 1) as nat
    }
}

/// A horizontal part over two vertical levels.
#[derive(Debug, Clone)]
pub struct Vertiorizon {
    /// Schedules compactions within the horizontal part.
    pub horizontal: HorizontalPart,
    /// The number of levels of the horizontal part.
    pub horizontal_levels: usize,
    /// The buffer size.
    pub buffer_bytes: u64,
    /// The capacity of the horizontal part, in buffers.
    pub n: u64,
    /// The overall ratio.
    pub size_ratio: u64,
    /// Whether the largest level has filled, so that the horizontal part grows
    /// with the next drain.
    pub resize_pending: bool,
}

impl Vertiorizon {
    /// The capacity of the horizontal part.
    pub open spec fn horizontal_capacity(&self) -> u64 {
        capped(self.n as nat * self.buffer_bytes as nat)
    }

    /// The capacity of the first vertical level.
    pub open spec fn is_first_vertical_capacity(&self, bytes: u64) -> bool {
        is_root_half(bytes, self.horizontal_capacity() as nat * self.size_ratio as nat)
    }

    /// The capacity of the largest level.
    pub open spec fn largest_capacity(&self) -> u64 {
        capped(geometric(self.horizontal_capacity() as nat, self.size_ratio as nat, 2))
    }

    /// The horizontal part holds no less than it may.
    pub open spec fn part_full(&self, tree: TreeShape) -> bool {
        capped(held_above(tree, self.horizontal_levels as nat)) >= self.horizontal_capacity()
    }

    /// The capacity of the horizontal part once it has grown.
    pub open spec fn grown(&self) -> u64 {
        let growth = self.n / self.size_ratio;
        capped(
            (self.n + if growth == 0 {
                1
            } else {
                growth as int
            }) as nat,
        )
    }

    /// The whole horizontal part into the first vertical level.
    pub open spec fn drain(&self) -> CompactionRequest {
        CompactionRequest {
            first_level: 0,
            last_level: (self.horizontal_levels - 1) as usize,
            target_level: self.horizontal_levels,
            granularity: Granularity::Full,
            merge_units: None,
        }
    }

    /// The first vertical level holds something, and no less than it may.
    pub open spec fn first_vertical_full(&self, tree: TreeShape) -> bool {
        let held = tree.bytes_at(self.horizontal_levels as int);
        held > 0 && exists|capacity: u64| #[trigger]
            self.is_first_vertical_capacity(capacity) && held >= capacity
    }

    /// What asking for the next compaction gives and leaves.
    pub open spec fn steps_to(
        self,
        tree: TreeShape,
        after: Self,
        request: Option<CompactionRequest>,
    ) -> bool {
        &&& after.horizontal_levels == self.horizontal_levels
        &&& after.buffer_bytes == self.buffer_bytes
        &&& after.size_ratio == self.size_ratio
        &&& if self.part_full(tree) {
            // Full: everything has to go down, and a pending resize lands.
            &&& request == Some(self.drain())
            &&& after.horizontal == self.horizontal
            &&& after.n == if self.resize_pending {
                self.grown()
            } else {
                self.n
            }
            &&& !after.resize_pending
        } else {
            &&& after.n == self.n
            &&& exists|inner: Option<CompactionRequest>|
                {
                    &&& #[trigger] self.horizontal.steps_to(tree, after.horizontal, inner)
                    &&& match inner {
                        // The horizontal part runs its own schedule.
                        Some(inner) => request == Some(inner) && after.resize_pending
                            == self.resize_pending,
                        None => if self.first_vertical_full(tree) {
                            &&& request == Some(
                                one_level(self.horizontal_levels as nat, Granularity::Partial),
                            )
                            &&& after.resize_pending == self.resize_pending
                        } else {
                            // A full largest level means that the tree has to
                            // grow.
                            &&& request is None
                            &&& after.resize_pending == (self.resize_pending || tree.bytes_at(
                                self.horizontal_levels + 1,
                            ) >= self.largest_capacity())
                        },
                    }
                }
        }
    }

    /// What a flush leaves: the horizontal part counts it.
    pub open spec fn flushes_to(self, after: Self) -> bool {
        &&& self.horizontal.flushes_to(after.horizontal)
        &&& after.horizontal_levels == self.horizontal_levels
        &&& after.buffer_bytes == self.buffer_bytes
        &&& after.n == self.n
        &&& after.size_ratio == self.size_ratio
        &&& after.resize_pending == self.resize_pending
    }

    /// A scheme with a horizontal part of `horizontal_levels` levels and
    /// `initial_n` buffers.
    pub fn new(
        horizontal_levels: usize,
        size_ratio: u64,
        buffer_bytes: u64,
        initial_n: u64,
        policy: HorizontalPolicy,
    ) -> (scheme: Self)
        requires
            2 <= horizontal_levels <= MAX_LEVELS,
            size_ratio >= 2,
            buffer_bytes > 0,
        ensures
            scheme.wf(),
            scheme.horizontal_levels == horizontal_levels,
            scheme.size_ratio == size_ratio,
            scheme.buffer_bytes == buffer_bytes,
            scheme.n == if initial_n == 0 {
                1
            } else {
                initial_n
            },
            !scheme.resize_pending,
            scheme.horizontal is Leveling <==> policy is Leveling,
            scheme.horizontal matches HorizontalPart::Leveling(part) ==> part.counters@ == Seq::new(
                horizontal_levels as nat,
                |i: int| 0u64,
            ) && part.cursor() == horizontal_levels,
            scheme.horizontal matches HorizontalPart::Tiering(part) ==> {
                &&& super::horizontal_tiering::is_initial_counter(
                    horizontal_levels as nat,
                    super::horizontal_tiering::flushes_for(
                        buffer_bytes as nat,
                        scheme.horizontal_capacity() as nat,
                    ),
                    part.k as nat,
                )
                &&& part.counters@ == Seq::new(horizontal_levels as nat, |i: int| part.k)
                &&& part.cursor() == horizontal_levels
            },
    {
        let n: u64 = if initial_n == 0 {
            1
        } else {
            initial_n
        };
        let horizontal: HorizontalPart = match policy {
            HorizontalPolicy::Leveling => HorizontalPart::Leveling(
                HorizontalLeveling::new(horizontal_levels),
            ),
            HorizontalPolicy::Tiering => HorizontalPart::Tiering(
                HorizontalTiering::new(
                    horizontal_levels,
                    buffer_bytes,
                    capped_product(n, buffer_bytes),
                ),
            ),
        };
        Vertiorizon {
            horizontal,
            horizontal_levels,
            buffer_bytes,
            n,
            size_ratio,
            resize_pending: false,
        }
    }

    /// The index of the first vertical level.
    pub fn first_vertical_level(&self) -> (level: usize)
        ensures
            level == self.horizontal_levels,
    {
        self.horizontal_levels
    }

    /// The index of the largest level.
    pub fn largest_level(&self) -> (level: usize)
        requires
            self.wf(),
        ensures
            level == self.horizontal_levels + 1,
    {
        self.horizontal_levels + VERTICAL_LEVELS - 1
    }

    /// The capacity of the whole horizontal part.
    pub fn horizontal_capacity_bytes(&self) -> (bytes: u64)
        ensures
            bytes == self.horizontal_capacity(),
    {
        capped_product(self.n, self.buffer_bytes)
    }

    /// The capacity of the first vertical level.
    pub fn first_vertical_capacity_bytes(&self) -> (bytes: u64)
        ensures
            self.is_first_vertical_capacity(bytes),
    {
        let part: u64 = self.horizontal_capacity_bytes();
        proof {
            lemma_product_fits(part, self.size_ratio);
        }
        root_half(part as u128 * self.size_ratio as u128)
    }

    /// The capacity of the largest level.
    pub fn largest_capacity_bytes(&self) -> (bytes: u64)
        requires
            self.wf(),
        ensures
            bytes == self.largest_capacity(),
    {
        saturating_geometric(self.horizontal_capacity_bytes(), self.size_ratio, 2)
    }

    /// The capacity of the horizontal part, in buffers.
    pub fn n(&self) -> (n: u64)
        ensures
            n == self.n,
    {
        self.n
    }

    fn horizontal_bytes(&self, tree: &TreeShape) -> (bytes: u64)
        ensures
            bytes == capped(held_above(*tree, self.horizontal_levels as nat)),
    {
        let mut bytes: u64 = 0;
        let mut level: usize = 0;
        while level < self.horizontal_levels
            invariant
                level <= self.horizontal_levels,
                bytes == capped(held_above(*tree, level as nat)),
            decreases self.horizontal_levels - level,
        {
            bytes = bytes.saturating_add(tree.level_bytes(level));
            level = level + 1;
        }
        bytes
    }

    /// Grows the horizontal part, and with it the capacity of the whole tree.
    pub fn apply_resize(&mut self)
        requires
            old(self).wf(),
        ensures
            final(self).wf(),
            final(self).n == old(self).grown(),
            !final(self).resize_pending,
            final(self).horizontal == old(self).horizontal,
            final(self).horizontal_levels == old(self).horizontal_levels,
            final(self).buffer_bytes == old(self).buffer_bytes,
            final(self).size_ratio == old(self).size_ratio,
    {
        let growth: u64 = self.n / self.size_ratio;
        let step: u64 = if growth == 0 {
            1
        } else {
            growth
        };
        self.n = self.n.saturating_add(step);
        self.resize_pending = false;
    }
}

proof fn lemma_product_fits(a: u64, b: u64)
    ensures
        0 <= a * b <= 0xffff_ffff_ffff_ffff * 0xffff_ffff_ffff_ffff,
{
    assert(0 <= a * b <= 0xffff_ffff_ffff_ffff * 0xffff_ffff_ffff_ffff) by (nonlinear_arith)
        requires
            0 <= a <= 0xffff_ffff_ffff_ffff,
            0 <= b <= 0xffff_ffff_ffff_ffff,
    ;
}

fn capped_product(a: u64, b: u64) -> (product: u64)
    ensures
        product == capped(a as nat * b as nat),
{
    proof {
        lemma_product_fits(a, b);
    }
    let whole: u128 = a as u128 * b as u128;
    if whole > u64::MAX as u128 {
        u64::MAX
    } else {
        whole as u64
    }
}

/// Whether `value` is no more than `scaled / sqrt 2`.
fn fits_root_half(value: u64, scaled: u128) -> (fits: bool)
    requires
        scaled < 0x2_0000_0000_0000_0000,
    ensures
        fits == within_root_half(value as nat, scaled as nat),
{
    let half: u64 = (scaled / 2) as u64;
    let odd: u128 = scaled % 2;
    proof {
        lemma_product_fits(value, value);
        lemma_product_fits(half, half);
        assert(scaled == 2 * half + odd);
        assert(scaled * scaled == 4 * (half * half) + 4 * (half * odd) + odd * odd)
            by (nonlinear_arith)
            requires
                scaled == 2 * half + odd,
        ;
        if odd == 0 {
            assert(half * odd == 0 && odd * odd == 0) by (nonlinear_arith)
                requires
                    odd == 0,
            ;
        } else {
            assert(half * odd == half && odd * odd == 1) by (nonlinear_arith)
                requires
                    odd == 1,
            ;
        }
    }
    let square: u128 = value as u128 * value as u128;
    let base: u128 = half as u128 * half as u128;
    if square <= base {
        return true;
    }
    let slack: u128 = if odd == 0 {
        0
    } else {
        2 * half as u128
    };
    square - base <= base + slack
}

/// `scaled / sqrt 2`, rounded down, saturating at [`u64::MAX`].
fn root_half(scaled: u128) -> (value: u64)
    ensures
        is_root_half(value, scaled as nat),
{
    if scaled >= 0x2_0000_0000_0000_0000 {
        proof {
            assert(2 * (0xffff_ffff_ffff_ffff * 0xffff_ffff_ffff_ffff) <= scaled * scaled)
                by (nonlinear_arith)
                requires
                    scaled >= 0x2_0000_0000_0000_0000,
            ;
        }
        return u64::MAX;
    }
    let mut low: u64 = 0;
    let mut high: u64 = u64::MAX;
    if fits_root_half(u64::MAX, scaled) {
        return u64::MAX;
    }
    proof {
        assert(0 <= scaled * scaled) by (nonlinear_arith)
            requires
                0 <= scaled,
        ;
    }
    while high - low > 1
        invariant
            low < high,
            scaled < 0x2_0000_0000_0000_0000,
            within_root_half(low as nat, scaled as nat),
            !within_root_half(high as nat, scaled as nat),
        decreases high - low,
    {
        let middle: u64 = low + (high - low) / 2;
        if fits_root_half(middle, scaled) {
            low = middle;
        } else {
            high = middle;
        }
    }
    low
}

/// The capacity of the first vertical level is a definite number.
proof fn lemma_one_root_half(a: u64, b: u64, scaled: nat)
    requires
        is_root_half(a, scaled),
        is_root_half(b, scaled),
    ensures
        a == b,
{
    if a < b {
        assert((a + 1) * (a + 1) <= b * b) by (nonlinear_arith)
            requires
                0 <= a < b,
        ;
    }
    if b < a {
        assert((b + 1) * (b + 1) <= a * a) by (nonlinear_arith)
            requires
                0 <= b < a,
        ;
    }
}

/// There is a capacity for every first vertical level.
pub proof fn lemma_root_half_exists(scaled: nat) -> (value: u64)
    ensures
        is_root_half(value, scaled),
{
    lemma_root_half_below(scaled, u64::MAX)
}

proof fn lemma_root_half_below(scaled: nat, high: u64) -> (value: u64)
    requires
        high < u64::MAX ==> !within_root_half((high + 1) as nat, scaled),
    ensures
        is_root_half(value, scaled),
    decreases high,
{
    if within_root_half(high as nat, scaled) {
        high
    } else {
        assert(0 * 0 == 0 && 0 <= scaled * scaled) by (nonlinear_arith);
        assert(within_root_half(0, scaled));
        lemma_root_half_below(scaled, (high - 1) as u64)
    }
}

/// The two vertical ratios multiply to the square of the overall ratio: however
/// the first vertical level is sized, the largest holds `T^2` times the
/// horizontal part, as far as a `u64` reaches.
pub proof fn law_the_largest_level_is_the_ratio_squared(scheme: Vertiorizon)
    ensures
        scheme.largest_capacity() == capped(
            scheme.horizontal_capacity() as nat * scheme.size_ratio as nat
                * scheme.size_ratio as nat,
        ),
{
    reveal_with_fuel(geometric, 3);
}

impl GrowthScheme for Vertiorizon {
    open spec fn wf(&self) -> bool {
        &&& self.horizontal.wf()
        &&& self.horizontal.level_count() == self.horizontal_levels
        &&& 2 <= self.horizontal_levels <= MAX_LEVELS
        &&& self.size_ratio >= 2
        &&& self.buffer_bytes > 0
        &&& self.n > 0
    }

    fn name(&self) -> (name: &'static str)
        ensures
            name@ == "vertiorizon"@,
    {
        proof {
            reveal_strlit("vertiorizon");
        }
        "vertiorizon"
    }

    fn note_flush(&mut self)
        ensures
            old(self).flushes_to(*final(self)),
    {
        self.horizontal.note_flush();
    }

    fn next_compaction(&mut self, tree: &TreeShape) -> (request: Option<CompactionRequest>)
        ensures
            old(self).steps_to(*tree, *final(self), request),
    {
        let first_vertical: usize = self.first_vertical_level();
        let largest: usize = self.largest_level();
        if self.horizontal_bytes(tree) >= self.horizontal_capacity_bytes() {
            if self.resize_pending {
                self.apply_resize();
            }
            return Some(
                CompactionRequest {
                    first_level: 0,
                    last_level: self.horizontal_levels - 1,
                    target_level: first_vertical,
                    granularity: Granularity::Full,
                    merge_units: None,
                },
            );
        }
        let inner: Option<CompactionRequest> = self.horizontal.next_compaction(tree);
        proof {
            assert(old(self).horizontal.steps_to(*tree, self.horizontal, inner));
        }
        if let Some(request) = inner {
            return Some(request);
        }
        let held: u64 = tree.level_bytes(first_vertical);
        let capacity: u64 = self.first_vertical_capacity_bytes();
        proof {
            assert(old(self).is_first_vertical_capacity(capacity));
            if old(self).first_vertical_full(*tree) {
                let other = choose|other: u64| #[trigger]
                    old(self).is_first_vertical_capacity(other) && held >= other;
                lemma_one_root_half(
                    capacity,
                    other,
                    self.horizontal_capacity() as nat * self.size_ratio as nat,
                );
            }
        }
        if held >= capacity && held > 0 {
            return Some(CompactionRequest::single(first_vertical, Granularity::Partial));
        }
        if tree.level_bytes(largest) >= self.largest_capacity_bytes() {
            self.resize_pending = true;
        }
        None
    }

    fn max_levels(&self) -> (levels: Option<usize>)
        ensures
            levels == Some((self.horizontal_levels + 2) as usize),
    {
        Some(self.horizontal_levels + VERTICAL_LEVELS)
    }
}

} // verus!
