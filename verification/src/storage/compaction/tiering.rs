//! Tiering: the sources become a new run at the target level.
//!
//! Nothing already at the target is read or rewritten, so an entry moves down
//! each level once; in exchange a level holds several runs, each of which a
//! read may have to probe. Granularity does not matter: with nothing rewritten
//! below there is no slice to bound.
//!
//! Tombstones may be dropped only if nothing at the target survives the merge
//! and nothing lies below it: a run that stays at the target may hold an older
//! version of any key.

use vstd::prelude::*;

use super::{
    all_source_levels, clears_below, leaves_nothing_older, lemma_whole_levels_are_safe, orderly,
    takes_request, well_indexed, CompactionJob, LevelFiles, MergePolicy,
};
use crate::storage::growth::CompactionRequest;
use crate::storage::shape::TreeShape;

verus! {

/// Runs per level unless told otherwise.
pub const DEFAULT_RUNS_PER_LEVEL: usize = 4;

/// Appends the sources as a new run.
#[derive(Debug, Clone, Copy, PartialEq, Eq, Structural)]
pub struct Tiering {
    runs_per_level: usize,
}

/// A job is what tiering makes of a request.
pub open spec fn is_tiering_job(
    tree: TreeShape,
    request: CompactionRequest,
    job: CompactionJob,
) -> bool {
    &&& takes_request(job.sources@, tree, request)
    &&& job.target_level == request.target_level
    &&& job.targets@.len() == 0
    &&& job.drop_tombstones == clears_below(tree, request)
}

/// A request names nothing to move.
pub open spec fn nothing_to_move(tree: TreeShape, request: CompactionRequest) -> bool {
    super::requested_levels(
        tree,
        request.first_level as int,
        request.last_level + 1,
        request.merge_units,
    ).len() == 0
}

impl Tiering {
    /// How many runs a level may hold.
    pub closed spec fn limit(&self) -> nat {
        self.runs_per_level as nat
    }

    /// Lets a level hold `runs_per_level` runs, of which there have to be at
    /// least two: with one it would be leveling.
    pub fn new(runs_per_level: usize) -> (policy: Self)
        requires
            runs_per_level >= 2,
        ensures
            policy.limit() == runs_per_level,
    {
        Tiering { runs_per_level }
    }
}

impl Default for Tiering {
    fn default() -> (policy: Self)
        ensures
            policy.limit() == DEFAULT_RUNS_PER_LEVEL,
    {
        Tiering { runs_per_level: DEFAULT_RUNS_PER_LEVEL }
    }
}

impl MergePolicy for Tiering {
    open spec fn ready(&self) -> bool {
        true
    }

    fn name(&self) -> (name: &'static str)
        ensures
            name@ == "tiering"@,
    {
        proof {
            reveal_strlit("tiering");
        }
        "tiering"
    }

    /// Everything that the request names becomes one new run at the target.
    fn plan(&self, tree: &TreeShape, request: CompactionRequest) -> (job: Option<CompactionJob>)
        ensures
            match job {
                Some(job) => is_tiering_job(*tree, request, job) && !nothing_to_move(
                    *tree,
                    request,
                ),
                None => nothing_to_move(*tree, request),
            },
    {
        let sources: Vec<LevelFiles> = all_source_levels(tree, request);
        if sources.len() == 0 {
            return None;
        }
        let job = CompactionJob {
            sources,
            target_level: request.target_level,
            targets: Vec::new(),
            drop_tombstones: leaves_nothing_older(tree, request),
        };
        proof {
            if well_indexed(*tree) && orderly(request) {
                lemma_whole_levels_are_safe(*tree, request, job);
            }
        }
        Some(job)
    }

    fn runs_per_level(&self) -> (limit: usize)
        ensures
            limit == self.limit(),
    {
        self.runs_per_level
    }
}

} // verus!
