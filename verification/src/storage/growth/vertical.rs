//! Vertical growth: fixed level capacities, levels added as data grows.
//!
//! Level `i` may hold `B * T^(i+1)` bytes, for a buffer of `B` bytes and a size
//! ratio `T`, and compacts once it holds that much. Below level 0 a compaction
//! is partial, a slice of a level at a time. Level 0 is the exception: its runs
//! come straight from memtable flushes and meet each other anywhere, so they
//! are merged whole.

use vstd::prelude::*;

use super::{
    capped, geometric, one_level, saturating_geometric, CompactionRequest, Granularity,
    GrowthScheme,
};
use crate::storage::shape::TreeShape;

verus! {

/// Fixed level capacities; the tree gains levels as it grows.
#[derive(Debug, Clone, Copy)]
pub struct Vertical {
    buffer_bytes: u64,
    size_ratio: u64,
}

impl Vertical {
    /// The buffer size.
    pub closed spec fn buffer(&self) -> nat {
        self.buffer_bytes as nat
    }

    /// The ratio between the capacities of consecutive levels.
    pub closed spec fn ratio(&self) -> nat {
        self.size_ratio as nat
    }

    /// A buffer, and a ratio that lets the tree grow.
    pub closed spec fn valid(&self) -> bool {
        self.buffer_bytes > 0 && self.size_ratio >= 2
    }

    /// What a level may hold.
    pub open spec fn capacity(&self, level: nat) -> u64 {
        capped(geometric(self.buffer(), self.ratio(), level + 1))
    }

    /// A level holds something, and no less than it may.
    pub open spec fn full(&self, tree: TreeShape, level: int) -> bool {
        &&& 0 <= level < tree.levels@.len()
        &&& tree.bytes_at(level) > 0
        &&& tree.bytes_at(level) >= self.capacity(level as nat)
    }

    /// What asking for the next compaction gives and leaves: the shallowest
    /// level that is full, and no change.
    pub open spec fn steps_to(
        self,
        tree: TreeShape,
        after: Self,
        request: Option<CompactionRequest>,
    ) -> bool {
        &&& after == self
        &&& match request {
            Some(request) => {
                let level = request.first_level as int;
                &&& self.full(tree, level)
                &&& forall|above: int| above < level ==> !#[trigger] self.full(tree, above)
                &&& request == one_level(
                    level as nat,
                    if level == 0 {
                        Granularity::Full
                    } else {
                        Granularity::Partial
                    },
                )
            },
            None => forall|level: int| !#[trigger] self.full(tree, level),
        }
    }

    /// A scheme for a buffer of `buffer_bytes` and a ratio of `size_ratio`.
    pub fn new(buffer_bytes: u64, size_ratio: u64) -> (scheme: Self)
        requires
            size_ratio >= 2,
            buffer_bytes > 0,
        ensures
            scheme.valid(),
            scheme.buffer() == buffer_bytes,
            scheme.ratio() == size_ratio,
    {
        Vertical { buffer_bytes, size_ratio }
    }

    /// The bytes that level `level` may hold.
    pub fn level_capacity_bytes(&self, level: usize) -> (bytes: u64)
        requires
            self.valid(),
            level < usize::MAX,
        ensures
            bytes == self.capacity(level as nat),
    {
        saturating_geometric(self.buffer_bytes, self.size_ratio, level + 1)
    }

    /// The number of levels needed for the deepest to hold `total_bytes`.
    pub fn levels_needed(&self, total_bytes: u64) -> (levels: usize)
        requires
            self.valid(),
        ensures
            levels >= 1,
            self.capacity((levels - 1) as nat) >= total_bytes || total_bytes == 0,
            total_bytes == 0 ==> levels == 1,
            forall|level: nat|
                level < levels - 1 ==> #[trigger] self.capacity(level) < total_bytes,
    {
        if total_bytes == 0 {
            return 1;
        }
        let mut levels: usize = 1;
        let mut bottom: u64 = self.level_capacity_bytes(0);
        proof {
            reveal_with_fuel(geometric, 2);
            vstd::arithmetic::power2::lemma2_to64();
            assert(self.buffer() * self.ratio() >= 2) by (nonlinear_arith)
                requires
                    self.buffer() >= 1,
                    self.ratio() >= 2,
            ;
        }
        while bottom < total_bytes
            invariant
                self.valid(),
                1 <= levels <= 64,
                bottom == self.capacity((levels - 1) as nat),
                bottom < u64::MAX ==> bottom >= vstd::arithmetic::power2::pow2(levels as nat),
                forall|level: nat|
                    level < levels - 1 ==> #[trigger] self.capacity(level) < total_bytes,
            decreases u64::MAX - bottom,
        {
            let ghost held = geometric(self.buffer(), self.ratio(), levels as nat);
            proof {
                assert(bottom == held);
                assert(held * self.ratio() >= 2 * held) by (nonlinear_arith)
                    requires
                        self.ratio() >= 2,
                        held >= 0,
                ;
                vstd::arithmetic::power2::lemma_pow2_unfold((levels + 1) as nat);
                vstd::arithmetic::power2::lemma2_to64();
                vstd::arithmetic::power2::lemma_pow2_pos(levels as nat);
                assert(bottom * self.size_ratio <= 0xffff_ffff_ffff_ffff * 0xffff_ffff_ffff_ffff)
                    by (nonlinear_arith)
                    requires
                        0 <= bottom <= 0xffff_ffff_ffff_ffff,
                        0 <= self.size_ratio <= 0xffff_ffff_ffff_ffff,
                ;
            }
            let product: u128 = bottom as u128 * self.size_ratio as u128;
            bottom = if product > u64::MAX as u128 {
                u64::MAX
            } else {
                product as u64
            };
            proof {
                assert forall|level: nat| level < levels implies #[trigger] self.capacity(level)
                    < total_bytes by {
                    if level == levels - 1 {
                    }
                }
            }
            levels = levels + 1;
        }
        levels
    }

    /// The ratio between the capacities of consecutive levels.
    pub fn size_ratio(&self) -> (ratio: u64)
        ensures
            ratio == self.ratio(),
    {
        self.size_ratio
    }
}

/// Every level may hold something.
pub proof fn lemma_capacity_is_positive(scheme: Vertical, level: nat)
    requires
        scheme.valid(),
    ensures
        scheme.capacity(level) > 0,
{
    super::lemma_geometric_rises(scheme.buffer(), scheme.ratio(), 0, level + 1);
}

impl GrowthScheme for Vertical {
    open spec fn wf(&self) -> bool {
        self.valid()
    }

    fn name(&self) -> (name: &'static str)
        ensures
            name@ == "vertical"@,
    {
        proof {
            reveal_strlit("vertical");
        }
        "vertical"
    }

    /// Nothing to record: the trigger reads the sizes of the levels.
    fn note_flush(&mut self)
        ensures
            *final(self) == *old(self),
    {
    }

    /// The shallowest level that holds no less than it may.
    fn next_compaction(&mut self, tree: &TreeShape) -> (request: Option<CompactionRequest>)
        ensures
            old(self).steps_to(*tree, *final(self), request),
    {
        let mut level: usize = 0;
        while level < tree.levels.len()
            invariant
                level <= tree.levels@.len(),
                self.valid(),
                *self == *old(self),
                forall|above: int| above < level ==> !#[trigger] self.full(*tree, above),
            decreases tree.levels@.len() - level,
        {
            let bytes: u64 = tree.level_bytes(level);
            if bytes > 0 && bytes >= self.level_capacity_bytes(level) {
                proof {
                    assert(self.full(*tree, level as int));
                }
                return Some(
                    CompactionRequest::single(
                        level,
                        if level == 0 {
                            Granularity::Full
                        } else {
                            Granularity::Partial
                        },
                    ),
                );
            }
            level = level + 1;
        }
        None
    }

    /// Unbounded: levels are added as needed.
    fn max_levels(&self) -> (levels: Option<usize>)
        ensures
            levels is None,
    {
        None
    }
}

} // verus!
