//! Tuning knobs, and the growth scheme and merge policy that they name.

use vstd::prelude::*;

use super::compaction::leveling::{is_leveling_job, sliced};
use super::compaction::tiering::{is_tiering_job, nothing_to_move};
use super::compaction::{CompactionJob, EcoTuneConfig, Leveling, MergePolicy, Tiering};
use super::growth::horizontal_tiering::{flushes_for, is_initial_counter, MAX_LEVELS};
use super::growth::vertiorizon::HorizontalPart;
use super::growth::{
    CompactionRequest, EcoTune, GrowthScheme, HorizontalLeveling, HorizontalPolicy, HorizontalTiering,
    Vertical, Vertiorizon,
};
use super::run::TableOptions;
use super::shape::TreeShape;
use super::sstable::{DEFAULT_BLOCK_TARGET_BYTES, DEFAULT_BLOOM_BITS_PER_KEY};
use super::SyncPolicy;

verus! {

/// Tuning knobs.
#[derive(Debug, Clone, Copy, PartialEq, Eq)]
pub struct LsmConfig {
    /// The memtable size that triggers a flush.
    pub memtable_threshold_bytes: usize,
    /// Whether each write is forced down to the device.
    pub sync_policy: SyncPolicy,
    /// The size at which a block of a table is closed.
    pub block_target_bytes: usize,
    /// Bits of filter per key, in units of 2^-52; zero leaves filters out.
    pub bloom_bits_per_key: u64,
    /// The size at which a run goes on in another table.
    pub target_file_size_bytes: u64,
    /// When a level compacts into the next.
    pub growth: GrowthKind,
    /// How the merge is performed.
    pub merge: MergeKind,
    /// The most compactions after a single flush: a safety net against a scheme
    /// that never settles. The next flush goes on with the work.
    pub max_compactions_per_flush: usize,
}

impl LsmConfig {
    /// How tables are written.
    pub open spec fn options(self) -> TableOptions {
        TableOptions {
            block_target_bytes: self.block_target_bytes,
            bloom_bits_per_key: self.bloom_bits_per_key,
            target_file_size_bytes: self.target_file_size_bytes,
        }
    }

    /// The parts accept their parameters.
    pub open spec fn valid(self) -> bool {
        &&& self.block_target_bytes > 0
        &&& self.growth.valid()
        &&& self.merge.valid()
    }

    /// Whether a tree can be built with this.
    pub fn is_valid(&self) -> (valid: bool)
        ensures
            valid == self.valid(),
    {
        self.block_target_bytes > 0 && self.growth.is_valid() && self.merge.is_valid()
    }

    /// How tables are written.
    pub fn table_options(&self) -> (options: TableOptions)
        ensures
            options == self.options(),
    {
        TableOptions {
            block_target_bytes: self.block_target_bytes,
            bloom_bits_per_key: self.bloom_bits_per_key,
            target_file_size_bytes: self.target_file_size_bytes,
        }
    }
}

impl Default for LsmConfig {
    /// Vertical growth at a fanout of ten, with leveling below level 0.
    fn default() -> (config: Self)
        ensures
            config.valid(),
            config.memtable_threshold_bytes == 4 * 1024 * 1024,
            config.sync_policy is EveryWrite,
            config.block_target_bytes == DEFAULT_BLOCK_TARGET_BYTES,
            config.bloom_bits_per_key == DEFAULT_BLOOM_BITS_PER_KEY,
            config.target_file_size_bytes == 8 * 1024 * 1024,
            config.growth == (GrowthKind::Vertical {
                buffer_bytes: 0x40_0000,
                size_ratio: 10,
            }),
            config.merge == MergeKind::Leveling,
            config.max_compactions_per_flush == 64,
    {
        LsmConfig {
            memtable_threshold_bytes: 4 * 1024 * 1024,
            sync_policy: SyncPolicy::EveryWrite,
            block_target_bytes: DEFAULT_BLOCK_TARGET_BYTES,
            bloom_bits_per_key: DEFAULT_BLOOM_BITS_PER_KEY,
            target_file_size_bytes: 8 * 1024 * 1024,
            growth: GrowthKind::Vertical { buffer_bytes: 4 * 1024 * 1024, size_ratio: 10 },
            merge: MergeKind::Leveling,
            max_compactions_per_flush: 64,
        }
    }
}

/// Which growth scheme to run: a value that says what to build.
#[derive(Debug, Clone, Copy, PartialEq, Eq)]
pub enum GrowthKind {
    /// Fixed capacities, levels added as data grows.
    Vertical { buffer_bytes: u64, size_ratio: u64 },
    /// A fixed number of levels, compaction counters.
    HorizontalLeveling { levels: usize },
    /// A fixed number of levels, counters that count down.
    HorizontalTiering { levels: usize, buffer_bytes: u64, expected_data_bytes: u64 },
    /// A horizontal part above two vertical levels.
    Vertiorizon {
        /// The levels of the horizontal part.
        horizontal_levels: usize,
        size_ratio: u64,
        buffer_bytes: u64,
        /// The capacity of the horizontal part in buffers; it grows with the
        /// data.
        initial_n: u64,
        policy: HorizontalPolicy,
    },
    /// Three levels, run by a solved schedule.
    EcoTune {
        config: EcoTuneConfig,
        /// What the top level may hold.
        top_capacity_bytes: u64,
    },
}

impl GrowthKind {
    /// The scheme accepts its parameters.
    pub open spec fn valid(self) -> bool {
        match self {
            GrowthKind::Vertical { buffer_bytes, size_ratio } => buffer_bytes > 0 && size_ratio
                >= 2,
            GrowthKind::HorizontalLeveling { levels } => levels >= 2,
            GrowthKind::HorizontalTiering { levels, buffer_bytes, .. } => 2 <= levels
                <= MAX_LEVELS && buffer_bytes > 0,
            GrowthKind::Vertiorizon { horizontal_levels, size_ratio, buffer_bytes, .. } => 2
                <= horizontal_levels <= MAX_LEVELS && size_ratio >= 2 && buffer_bytes > 0,
            GrowthKind::EcoTune { config, top_capacity_bytes } => config.valid()
                && top_capacity_bytes > 0,
        }
    }

    /// Whether a scheme can be built with this.
    pub fn is_valid(&self) -> (valid: bool)
        ensures
            valid == self.valid(),
    {
        match *self {
            GrowthKind::Vertical { buffer_bytes, size_ratio } => buffer_bytes > 0 && size_ratio
                >= 2,
            GrowthKind::HorizontalLeveling { levels } => levels >= 2,
            GrowthKind::HorizontalTiering { levels, buffer_bytes, .. } => 2 <= levels && levels
                <= MAX_LEVELS && buffer_bytes > 0,
            GrowthKind::Vertiorizon { horizontal_levels, size_ratio, buffer_bytes, .. } => 2
                <= horizontal_levels && horizontal_levels <= MAX_LEVELS && size_ratio >= 2
                && buffer_bytes > 0,
            GrowthKind::EcoTune { config, top_capacity_bytes } => config.is_valid()
                && top_capacity_bytes > 0,
        }
    }

    /// The name of the scheme.
    pub open spec fn label(self) -> Seq<char> {
        match self {
            GrowthKind::Vertical { .. } => "vertical"@,
            GrowthKind::HorizontalLeveling { .. } => "horizontal-leveling"@,
            GrowthKind::HorizontalTiering { .. } => "horizontal-tiering"@,
            GrowthKind::Vertiorizon { .. } => "vertiorizon"@,
            GrowthKind::EcoTune { .. } => "ecotune"@,
        }
    }

    /// A short name, without building the scheme.
    pub fn name(&self) -> (name: &'static str)
        ensures
            name@ == self.label(),
    {
        match self {
            GrowthKind::Vertical { .. } => "vertical",
            GrowthKind::HorizontalLeveling { .. } => "horizontal-leveling",
            GrowthKind::HorizontalTiering { .. } => "horizontal-tiering",
            GrowthKind::Vertiorizon { .. } => "vertiorizon",
            GrowthKind::EcoTune { .. } => "ecotune",
        }
    }

    /// The scheme, at the beginning of its schedule.
    pub fn build(&self) -> (growth: Growth)
        requires
            self.valid(),
        ensures
            growth.wf(),
            growth.begins_as(*self),
    {
        proof {
            reveal(Growth::begins_as);
        }
        match *self {
            GrowthKind::Vertical { buffer_bytes, size_ratio } => Growth::Vertical(
                Vertical::new(buffer_bytes, size_ratio),
            ),
            GrowthKind::HorizontalLeveling { levels } => Growth::HorizontalLeveling(
                HorizontalLeveling::new(levels),
            ),
            GrowthKind::HorizontalTiering {
                levels,
                buffer_bytes,
                expected_data_bytes,
            } => Growth::HorizontalTiering(
                HorizontalTiering::new(levels, buffer_bytes, expected_data_bytes),
            ),
            GrowthKind::Vertiorizon {
                horizontal_levels,
                size_ratio,
                buffer_bytes,
                initial_n,
                policy,
            } => Growth::Vertiorizon(
                Vertiorizon::new(horizontal_levels, size_ratio, buffer_bytes, initial_n, policy),
            ),
            GrowthKind::EcoTune { config, top_capacity_bytes } => Growth::EcoTune(
                EcoTune::new(config, top_capacity_bytes),
            ),
        }
    }
}

/// A growth scheme at work.
#[derive(Debug, Clone)]
pub enum Growth {
    Vertical(Vertical),
    HorizontalLeveling(HorizontalLeveling),
    HorizontalTiering(HorizontalTiering),
    Vertiorizon(Vertiorizon),
    EcoTune(EcoTune),
}

impl Growth {
    /// The name of the scheme.
    pub open spec fn label(self) -> Seq<char> {
        match self {
            Growth::Vertical(_) => "vertical"@,
            Growth::HorizontalLeveling(_) => "horizontal-leveling"@,
            Growth::HorizontalTiering(_) => "horizontal-tiering"@,
            Growth::Vertiorizon(_) => "vertiorizon"@,
            Growth::EcoTune(_) => "ecotune"@,
        }
    }

    /// The scheme is what a kind builds.
    #[verifier::opaque]
    pub open spec fn begins_as(self, kind: GrowthKind) -> bool {
        match (self, kind) {
            (
                Growth::Vertical(scheme),
                GrowthKind::Vertical { buffer_bytes, size_ratio },
            ) => scheme.buffer() == buffer_bytes && scheme.ratio() == size_ratio,
            (
                Growth::HorizontalLeveling(scheme),
                GrowthKind::HorizontalLeveling { levels },
            ) => scheme.counters@ == Seq::new(levels as nat, |i: int| 0u64) && scheme.cursor()
                == levels,
            (
                Growth::HorizontalTiering(scheme),
                GrowthKind::HorizontalTiering { levels, buffer_bytes, expected_data_bytes },
            ) => {
                &&& is_initial_counter(
                    levels as nat,
                    flushes_for(buffer_bytes as nat, expected_data_bytes as nat),
                    scheme.k as nat,
                )
                &&& scheme.counters@ == Seq::new(levels as nat, |i: int| scheme.k)
                &&& scheme.buffer() == buffer_bytes
                &&& scheme.horizon() == expected_data_bytes
                &&& scheme.cursor() == levels
            },
            (
                Growth::Vertiorizon(scheme),
                GrowthKind::Vertiorizon {
                    horizontal_levels,
                    size_ratio,
                    buffer_bytes,
                    initial_n,
                    policy,
                },
            ) => {
                &&& scheme.horizontal_levels == horizontal_levels
                &&& scheme.size_ratio == size_ratio
                &&& scheme.buffer_bytes == buffer_bytes
                &&& scheme.n == if initial_n == 0 {
                    1
                } else {
                    initial_n
                }
                &&& !scheme.resize_pending
                &&& scheme.horizontal is Leveling <==> policy is Leveling
                &&& scheme.horizontal matches HorizontalPart::Leveling(part) ==> part.counters@
                    == Seq::new(horizontal_levels as nat, |i: int| 0u64) && part.cursor()
                    == horizontal_levels
                &&& scheme.horizontal matches HorizontalPart::Tiering(part) ==> {
                    &&& is_initial_counter(
                        horizontal_levels as nat,
                        flushes_for(
                            buffer_bytes as nat,
                            scheme.horizontal_capacity() as nat,
                        ),
                        part.k as nat,
                    )
                    &&& part.counters@ == Seq::new(horizontal_levels as nat, |i: int| part.k)
                    &&& part.cursor() == horizontal_levels
                }
            },
            (
                Growth::EcoTune(scheme),
                GrowthKind::EcoTune { config, top_capacity_bytes },
            ) => scheme.begins(config, top_capacity_bytes),
            _ => false,
        }
    }

    /// What asking for the next compaction gives and leaves.
    #[verifier::opaque]
    pub open spec fn steps_to(
        self,
        tree: TreeShape,
        after: Self,
        request: Option<CompactionRequest>,
    ) -> bool {
        match (self, after) {
            (Growth::Vertical(was), Growth::Vertical(is)) => was.steps_to(tree, is, request),
            (
                Growth::HorizontalLeveling(was),
                Growth::HorizontalLeveling(is),
            ) => was.steps_to(tree, is, request),
            (
                Growth::HorizontalTiering(was),
                Growth::HorizontalTiering(is),
            ) => was.steps_to(tree, is, request),
            (Growth::Vertiorizon(was), Growth::Vertiorizon(is)) => was.steps_to(tree, is, request),
            (Growth::EcoTune(was), Growth::EcoTune(is)) => was.steps_to(tree, is, request),
            _ => false,
        }
    }

    /// What a flush leaves.
    #[verifier::opaque]
    pub open spec fn flushes_to(self, after: Self) -> bool {
        match (self, after) {
            (Growth::Vertical(was), Growth::Vertical(is)) => is == was,
            (Growth::HorizontalLeveling(was), Growth::HorizontalLeveling(is)) => was.flushes_to(
                is,
            ),
            (Growth::HorizontalTiering(was), Growth::HorizontalTiering(is)) => was.flushes_to(is),
            (Growth::Vertiorizon(was), Growth::Vertiorizon(is)) => was.flushes_to(is),
            (Growth::EcoTune(was), Growth::EcoTune(is)) => was.flushes_to(is),
            _ => false,
        }
    }
}

impl GrowthScheme for Growth {
    open spec fn wf(&self) -> bool {
        match self {
            Growth::Vertical(scheme) => scheme.wf(),
            Growth::HorizontalLeveling(scheme) => scheme.wf(),
            Growth::HorizontalTiering(scheme) => scheme.wf(),
            Growth::Vertiorizon(scheme) => scheme.wf(),
            Growth::EcoTune(scheme) => scheme.wf(),
        }
    }

    fn name(&self) -> (name: &'static str)
        ensures
            name@ == self.label(),
    {
        match self {
            Growth::Vertical(scheme) => scheme.name(),
            Growth::HorizontalLeveling(scheme) => scheme.name(),
            Growth::HorizontalTiering(scheme) => scheme.name(),
            Growth::Vertiorizon(scheme) => scheme.name(),
            Growth::EcoTune(scheme) => scheme.name(),
        }
    }

    fn note_flush(&mut self)
        ensures
            old(self).flushes_to(*final(self)),
    {
        proof {
            reveal(Growth::flushes_to);
        }
        match self {
            Growth::Vertical(scheme) => scheme.note_flush(),
            Growth::HorizontalLeveling(scheme) => scheme.note_flush(),
            Growth::HorizontalTiering(scheme) => scheme.note_flush(),
            Growth::Vertiorizon(scheme) => scheme.note_flush(),
            Growth::EcoTune(scheme) => scheme.note_flush(),
        }
    }

    fn next_compaction(&mut self, tree: &TreeShape) -> (request: Option<CompactionRequest>)
        ensures
            old(self).steps_to(*tree, *final(self), request),
    {
        proof {
            reveal(Growth::steps_to);
        }
        match self {
            Growth::Vertical(scheme) => scheme.next_compaction(tree),
            Growth::HorizontalLeveling(scheme) => scheme.next_compaction(tree),
            Growth::HorizontalTiering(scheme) => scheme.next_compaction(tree),
            Growth::Vertiorizon(scheme) => scheme.next_compaction(tree),
            Growth::EcoTune(scheme) => scheme.next_compaction(tree),
        }
    }

    fn max_levels(&self) -> (levels: Option<usize>)
        ensures
            match self {
                Growth::Vertical(_) => levels is None,
                Growth::HorizontalLeveling(scheme) => levels == Some(
                    scheme.counters@.len() as usize,
                ),
                Growth::HorizontalTiering(scheme) => levels == Some(
                    scheme.counters@.len() as usize,
                ),
                Growth::Vertiorizon(scheme) => levels == Some(
                    (scheme.horizontal_levels + 2) as usize,
                ),
                Growth::EcoTune(_) => levels == Some(3usize),
            },
    {
        match self {
            Growth::Vertical(scheme) => scheme.max_levels(),
            Growth::HorizontalLeveling(scheme) => scheme.max_levels(),
            Growth::HorizontalTiering(scheme) => scheme.max_levels(),
            Growth::Vertiorizon(scheme) => scheme.max_levels(),
            Growth::EcoTune(scheme) => scheme.max_levels(),
        }
    }
}

/// Which merge policy to run.
#[derive(Debug, Clone, Copy, PartialEq, Eq)]
pub enum MergeKind {
    Leveling,
    Tiering { runs_per_level: usize },
}

impl MergeKind {
    /// The policy accepts its parameters.
    pub open spec fn valid(self) -> bool {
        match self {
            MergeKind::Leveling => true,
            MergeKind::Tiering { runs_per_level } => runs_per_level >= 2,
        }
    }

    /// Whether a policy can be built with this.
    pub fn is_valid(&self) -> (valid: bool)
        ensures
            valid == self.valid(),
    {
        match *self {
            MergeKind::Leveling => true,
            MergeKind::Tiering { runs_per_level } => runs_per_level >= 2,
        }
    }

    /// The name of the policy.
    pub open spec fn label(self) -> Seq<char> {
        match self {
            MergeKind::Leveling => "leveling"@,
            MergeKind::Tiering { .. } => "tiering"@,
        }
    }

    /// How many runs the policy lets a level hold.
    pub open spec fn run_limit(self) -> nat {
        match self {
            MergeKind::Leveling => 1,
            MergeKind::Tiering { runs_per_level } => runs_per_level as nat,
        }
    }

    /// What the policy makes of a request.
    #[verifier::opaque]
    pub open spec fn plans(
        self,
        tree: TreeShape,
        request: CompactionRequest,
        job: Option<CompactionJob>,
    ) -> bool {
        match (self, job) {
            (MergeKind::Leveling, Some(job)) => is_leveling_job(tree, request, job)
                && job.sources@.len() > 0,
            (MergeKind::Leveling, None) => !sliced(tree, request) && nothing_to_move(
                tree,
                request,
            ),
            (MergeKind::Tiering { .. }, Some(job)) => is_tiering_job(tree, request, job)
                && !nothing_to_move(tree, request),
            (MergeKind::Tiering { .. }, None) => nothing_to_move(tree, request),
        }
    }

    /// A short name.
    pub fn name(&self) -> (name: &'static str)
        ensures
            name@ == self.label(),
    {
        match self {
            MergeKind::Leveling => "leveling",
            MergeKind::Tiering { .. } => "tiering",
        }
    }

    /// The policy.
    pub fn build(&self) -> (merge: Merge)
        requires
            self.valid(),
        ensures
            merge.kind() == *self,
    {
        match *self {
            MergeKind::Leveling => Merge::Leveling(Leveling::default()),
            MergeKind::Tiering { runs_per_level } => Merge::Tiering(Tiering::new(runs_per_level)),
        }
    }
}

/// A merge policy at work.
#[derive(Debug, Clone)]
pub enum Merge {
    Leveling(Leveling),
    Tiering(Tiering),
}

impl Merge {
    /// What the policy was built from.
    pub open spec fn kind(self) -> MergeKind {
        match self {
            Merge::Leveling(_) => MergeKind::Leveling,
            Merge::Tiering(policy) => MergeKind::Tiering {
                runs_per_level: policy.limit() as usize,
            },
        }
    }
}

impl MergePolicy for Merge {
    open spec fn ready(&self) -> bool {
        true
    }

    fn name(&self) -> (name: &'static str)
        ensures
            name@ == self.kind().label(),
    {
        match self {
            Merge::Leveling(policy) => policy.name(),
            Merge::Tiering(policy) => policy.name(),
        }
    }

    fn plan(&self, tree: &TreeShape, request: CompactionRequest) -> (job: Option<CompactionJob>)
        ensures
            self.kind().plans(*tree, request, job),
    {
        proof {
            reveal(MergeKind::plans);
        }
        match self {
            Merge::Leveling(policy) => policy.plan(tree, request),
            Merge::Tiering(policy) => policy.plan(tree, request),
        }
    }

    fn runs_per_level(&self) -> (limit: usize)
        ensures
            limit == self.kind().run_limit(),
    {
        match self {
            Merge::Leveling(policy) => policy.runs_per_level(),
            Merge::Tiering(policy) => policy.runs_per_level(),
        }
    }
}

} // verus!
