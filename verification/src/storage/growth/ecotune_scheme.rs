//! A tree of three levels, run by a solved schedule.
//!
//! Level 0 is the top level: it is never compacted into itself, and is drained
//! when it is full, which makes a unit run. Level 1 is the main level, where the
//! schedule places merges. Level 2 is the last level, which holds one run.
//!
//! Widths count unit runs, and merges nest: a merge of width four may take one
//! run that two unit runs went into and two fresh ones. So runs carry a count of
//! units, and a request asks for a number of units.

use vstd::prelude::*;

use super::{one_level, CompactionRequest, Granularity, GrowthScheme};
use crate::storage::compaction::ecotune::{
    chosen, round_merges, EcoTuneConfig, EcoTunePolicy, ScheduledMerge,
};
use crate::storage::shape::TreeShape;

verus! {

const TOP_LEVEL: usize = 0;

const MAIN_LEVEL: usize = 1;

const LAST_LEVEL: usize = 2;

/// Runs a tree of three levels from a solved schedule.
#[derive(Debug, Clone)]
pub struct EcoTune {
    /// The solved schedule.
    pub policy: EcoTunePolicy,
    /// What the top level may hold, in bytes.
    pub top_capacity_bytes: u64,
    /// Unit runs made so far in this round.
    pub position: usize,
    /// Where the schedule places merges, and their widths.
    pub schedule: Vec<(usize, usize)>,
    /// Whether the scan of this flush was served.
    pub scanned: bool,
}

/// Merges by place and width.
pub open spec fn placed(merges: Seq<ScheduledMerge>) -> Seq<(usize, usize)> {
    Seq::new(merges.len(), |i: int| (merges[i].after_unit_runs, merges[i].width))
}

/// The width of the first merge at a place.
pub open spec fn width_at(schedule: Seq<(usize, usize)>, position: usize) -> Option<usize>
    decreases schedule.len(),
{
    if schedule.len() == 0 {
        None
    } else if schedule[0].0 == position {
        Some(schedule[0].1)
    } else {
        width_at(schedule.drop_first(), position)
    }
}

impl EcoTune {
    /// What the schedule was made for.
    pub open spec fn made_for(&self) -> EcoTuneConfig {
        self.policy.made_for()
    }

    /// The compaction that ends a round: everything goes into the last level,
    /// which is a source as well, so that it stays one run.
    pub open spec fn global() -> CompactionRequest {
        CompactionRequest {
            first_level: 0,
            last_level: 2,
            target_level: 2,
            granularity: Granularity::Full,
            merge_units: None,
        }
    }

    /// A merge within the main level.
    pub open spec fn main_merge(width: usize) -> CompactionRequest {
        CompactionRequest {
            first_level: 1,
            last_level: 1,
            target_level: 1,
            granularity: Granularity::Full,
            merge_units: Some(width),
        }
    }

    /// The schedule places a merge here, and there is something to merge.
    pub open spec fn merge_is_due(self, tree: TreeShape) -> bool {
        width_at(self.schedule@, self.position) is Some && tree.runs_at(1).len() > 1
    }

    /// What asking for the next compaction gives and leaves: once per flush, the
    /// end of the round, a merge of the schedule, or a drain of the top level.
    pub open spec fn steps_to(
        self,
        tree: TreeShape,
        after: Self,
        request: Option<CompactionRequest>,
    ) -> bool {
        &&& after.policy == self.policy
        &&& after.top_capacity_bytes == self.top_capacity_bytes
        &&& after.schedule == self.schedule
        &&& after.scanned
        &&& if self.scanned {
            request is None && after.position == self.position
        } else if self.position >= self.made_for().round() {
            &&& after.position == 0
            &&& request == if tree.bytes_at(0) == 0 && tree.bytes_at(1) == 0 {
                None
            } else {
                Some(Self::global())
            }
        } else if self.merge_is_due(tree) {
            &&& after.position == self.position
            &&& request == Some(Self::main_merge(width_at(self.schedule@, self.position)->0))
        } else if tree.bytes_at(0) >= self.top_capacity_bytes {
            // A drain makes a unit run.
            &&& after.position == self.position + 1
            &&& request == Some(one_level(0, Granularity::Full))
        } else {
            request is None && after.position == self.position
        }
    }

    /// What a flush leaves: a scan to be served.
    pub open spec fn flushes_to(self, after: Self) -> bool {
        &&& after.policy == self.policy
        &&& after.top_capacity_bytes == self.top_capacity_bytes
        &&& after.schedule == self.schedule
        &&& after.position == self.position
        &&& !after.scanned
    }

    /// A scheme at the beginning of a round.
    pub open spec fn begins(self, config: EcoTuneConfig, top_capacity_bytes: u64) -> bool {
        &&& self.made_for() == config
        &&& self.top_capacity_bytes == top_capacity_bytes
        &&& self.position == 0
        &&& self.schedule@ == placed(chosen(round_merges(config)))
        &&& self.scanned
    }

    /// A scheme for a workload, with a top level of `top_capacity_bytes`.
    pub fn new(config: EcoTuneConfig, top_capacity_bytes: u64) -> (scheme: Self)
        requires
            config.valid(),
            top_capacity_bytes > 0,
        ensures
            scheme.wf(),
            scheme.begins(config, top_capacity_bytes),
    {
        let policy: EcoTunePolicy = EcoTunePolicy::solve(config);
        let merges: Vec<ScheduledMerge> = policy.chosen_merges();
        let mut schedule: Vec<(usize, usize)> = Vec::new();
        let mut i: usize = 0;
        while i < merges.len()
            invariant
                i <= merges@.len(),
                schedule@ == placed(merges@).take(i as int),
            decreases merges@.len() - i,
        {
            schedule.push((merges[i].after_unit_runs, merges[i].width));
            i = i + 1;
            proof {
                assert(schedule@ =~= placed(merges@).take(i as int));
            }
        }
        proof {
            assert(placed(merges@).take(i as int) =~= placed(merges@));
        }
        EcoTune { policy, top_capacity_bytes, position: 0, schedule, scanned: true }
    }

    /// What the schedule was made for.
    pub fn config(&self) -> (config: &EcoTuneConfig)
        ensures
            *config == self.made_for(),
    {
        self.policy.config()
    }

    /// Unit runs made so far in this round.
    pub fn position(&self) -> (position: usize)
        ensures
            position == self.position,
    {
        self.position
    }

    /// The width of the merge that the schedule places here, if there is one.
    fn merge_at_position(&self) -> (width: Option<usize>)
        ensures
            width == width_at(self.schedule@, self.position),
    {
        let mut i: usize = 0;
        proof {
            assert(self.schedule@.skip(0) =~= self.schedule@);
        }
        while i < self.schedule.len()
            invariant
                i <= self.schedule@.len(),
                width_at(self.schedule@, self.position) == width_at(
                    self.schedule@.skip(i as int),
                    self.position,
                ),
            decreases self.schedule@.len() - i,
        {
            proof {
                assert(self.schedule@.skip(i as int)[0] == self.schedule@[i as int]);
                assert(self.schedule@.skip(i as int).drop_first() =~= self.schedule@.skip(i + 1));
            }
            if self.schedule[i].0 == self.position {
                return Some(self.schedule[i].1);
            }
            i = i + 1;
        }
        None
    }

    /// Unit runs in a round.
    pub fn round_length(&self) -> (length: usize)
        ensures
            length == self.made_for().round(),
    {
        let runs: usize = self.policy.config().runs_per_round;
        if runs == 0 {
            1
        } else {
            runs
        }
    }
}

impl GrowthScheme for EcoTune {
    open spec fn wf(&self) -> bool {
        &&& self.policy.wf()
        &&& self.top_capacity_bytes > 0
        // The schedule starts again with each round.
        &&& self.position <= self.made_for().round()
    }

    fn name(&self) -> (name: &'static str)
        ensures
            name@ == "ecotune"@,
    {
        proof {
            reveal_strlit("ecotune");
        }
        "ecotune"
    }

    fn note_flush(&mut self)
        ensures
            old(self).flushes_to(*final(self)),
    {
        self.scanned = false;
    }

    fn next_compaction(&mut self, tree: &TreeShape) -> (request: Option<CompactionRequest>)
        ensures
            old(self).steps_to(*tree, *final(self), request),
    {
        if self.scanned {
            return None;
        }
        self.scanned = true;
        if self.position >= self.round_length() {
            self.position = 0;
            if tree.level_bytes(TOP_LEVEL) == 0 && tree.level_bytes(MAIN_LEVEL) == 0 {
                return None;
            }
            return Some(
                CompactionRequest {
                    first_level: TOP_LEVEL,
                    last_level: LAST_LEVEL,
                    target_level: LAST_LEVEL,
                    granularity: Granularity::Full,
                    merge_units: None,
                },
            );
        }
        if let Some(width) = self.merge_at_position() {
            if tree.run_count(MAIN_LEVEL) > 1 {
                return Some(
                    CompactionRequest {
                        first_level: MAIN_LEVEL,
                        last_level: MAIN_LEVEL,
                        target_level: MAIN_LEVEL,
                        granularity: Granularity::Full,
                        merge_units: Some(width),
                    },
                );
            }
        }
        if tree.level_bytes(TOP_LEVEL) >= self.top_capacity_bytes {
            self.position = self.position + 1;
            return Some(CompactionRequest::single(TOP_LEVEL, Granularity::Full));
        }
        None
    }

    fn max_levels(&self) -> (levels: Option<usize>)
        ensures
            levels == Some(3usize),
    {
        Some(3)
    }
}

} // verus!
