//! The merge policy as a dial: how many runs each level may hold.
//!
//! A level that may hold one run is leveled, one that may hold more is tiered.
//! It is the target level's number that decides: a compaction deposits its
//! output there, so what matters is whether the target may gather runs. The
//! work itself is done by [`Leveling`] and [`Tiering`], so that the rules about
//! tombstones are theirs and are the same everywhere.

use vstd::prelude::*;

use super::leveling::{is_leveling_job, sliced};
use super::propagation::{bounded, Policy};
use super::tiering::{is_tiering_job, nothing_to_move};
use super::{CompactionJob, Leveling, MergePolicy, Tiering};
use crate::storage::growth::CompactionRequest;
use crate::storage::shape::TreeShape;

verus! {

/// A merge policy with its own number of runs for each level.
#[derive(Debug, Clone)]
pub struct Fluid {
    policies: Vec<Policy>,
    default_policy: Policy,
    size_ratio: usize,
    leveling: Leveling,
    tiering: Tiering,
}

/// Policies kept between 1 and the size ratio.
pub open spec fn bounded_all(policies: Seq<Policy>, size_ratio: nat) -> Seq<Policy> {
    Seq::new(policies.len(), |i: int| bounded(policies[i] as nat, size_ratio) as usize)
}

/// `limit` is the largest of the policies and of the default.
pub open spec fn is_largest_policy(policies: Seq<Policy>, default: Policy, limit: usize) -> bool {
    &&& limit == default || policies.contains(limit)
    &&& default <= limit
    &&& forall|i: int| 0 <= i < policies.len() ==> #[trigger] policies[i] <= limit
}

impl Fluid {
    /// The policies of the levels that have one of their own.
    pub closed spec fn own_policies(&self) -> Seq<Policy> {
        self.policies@
    }

    /// The policy of every other level.
    pub closed spec fn default(&self) -> Policy {
        self.default_policy
    }

    /// The ratio, which no policy exceeds.
    pub closed spec fn ratio(&self) -> nat {
        self.size_ratio as nat
    }

    /// Every policy lies between 1 and the ratio.
    pub closed spec fn wf(&self) -> bool {
        &&& self.size_ratio >= 2
        &&& 1 <= self.default_policy <= self.size_ratio
        &&& forall|i: int|
            0 <= i < self.policies@.len() ==> 1 <= #[trigger] self.policies@[i] <= self.size_ratio
        &&& self.tiering.limit() == self.size_ratio
    }

    /// The policy of a level.
    pub open spec fn policy(&self, level: int) -> Policy {
        if 0 <= level < self.own_policies().len() {
            self.own_policies()[level]
        } else {
            self.default()
        }
    }

    /// What leveling plans where the target may hold one run, and what tiering plans
    /// where it may hold more.
    pub open spec fn plans(
        &self,
        tree: TreeShape,
        request: CompactionRequest,
        job: Option<CompactionJob>,
    ) -> bool {
        if self.policy(request.target_level as int) <= 1 {
            match job {
                Some(job) => is_leveling_job(tree, request, job) && job.sources@.len() > 0,
                None => !sliced(tree, request) && nothing_to_move(tree, request),
            }
        } else {
            match job {
                Some(job) => is_tiering_job(tree, request, job) && !nothing_to_move(tree, request),
                None => nothing_to_move(tree, request),
            }
        }
    }

    /// Policies for the first levels; 1 for every other level.
    pub fn new(policies: Vec<Policy>, size_ratio: usize) -> (fluid: Self)
        requires
            size_ratio >= 2,
        ensures
            fluid.wf(),
            fluid.own_policies() == bounded_all(policies@, size_ratio as nat),
            fluid.default() == 1,
            fluid.ratio() == size_ratio,
    {
        let mut kept: Vec<Policy> = Vec::new();
        let mut i: usize = 0;
        while i < policies.len()
            invariant
                i <= policies@.len(),
                size_ratio >= 2,
                kept@ == bounded_all(policies@.take(i as int), size_ratio as nat),
                forall|j: int| 0 <= j < kept@.len() ==> 1 <= #[trigger] kept@[j] <= size_ratio,
            decreases policies@.len() - i,
        {
            let k: Policy = policies[i];
            kept.push(clamp(k, size_ratio));
            i = i + 1;
            proof {
                assert(kept@ =~= bounded_all(policies@.take(i as int), size_ratio as nat));
            }
        }
        proof {
            assert(policies@.take(i as int) =~= policies@);
        }
        Fluid {
            policies: kept,
            default_policy: 1,
            size_ratio,
            leveling: Leveling::default(),
            tiering: Tiering::new(size_ratio),
        }
    }

    /// The same policy at every level.
    pub fn uniform(policy: Policy, size_ratio: usize) -> (fluid: Self)
        requires
            size_ratio >= 2,
        ensures
            fluid.wf(),
            fluid.ratio() == size_ratio,
            fluid.own_policies() == seq![bounded(policy as nat, size_ratio as nat) as usize],
            fluid.default() == bounded(policy as nat, size_ratio as nat),
            forall|level: int| #[trigger]
                fluid.policy(level) == bounded(policy as nat, size_ratio as nat),
    {
        let mut policies: Vec<Policy> = Vec::new();
        policies.push(clamp(policy, size_ratio));
        let fluid: Fluid = Self::new(policies, size_ratio).with_default(policy);
        proof {
            assert(fluid.own_policies() =~= seq![
                bounded(policy as nat, size_ratio as nat) as usize,
            ]);
        }
        fluid
    }

    /// Sets the policy of the levels that have none of their own.
    pub fn with_default(self, policy: Policy) -> (fluid: Self)
        requires
            self.wf(),
        ensures
            fluid.wf(),
            fluid.own_policies() == self.own_policies(),
            fluid.ratio() == self.ratio(),
            fluid.default() == bounded(policy as nat, self.ratio()),
    {
        let mut fluid = self;
        fluid.default_policy = clamp(policy, fluid.size_ratio);
        fluid
    }

    /// The policy of a level.
    pub fn policy_for(&self, level: usize) -> (policy: Policy)
        ensures
            policy == self.policy(level as int),
    {
        if level < self.policies.len() {
            self.policies[level]
        } else {
            self.default_policy
        }
    }

    /// The policies of the levels that have one of their own.
    pub fn policies(&self) -> (policies: &[Policy])
        ensures
            policies@ == self.own_policies(),
    {
        self.policies.as_slice()
    }

    /// The ratio, which no policy exceeds.
    pub fn size_ratio(&self) -> (ratio: usize)
        ensures
            ratio == self.ratio(),
    {
        self.size_ratio
    }

    /// Whether a level takes in data by merging rather than by appending.
    pub fn is_leveled(&self, level: usize) -> (leveled: bool)
        ensures
            leveled == (self.policy(level as int) <= 1),
    {
        self.policy_for(level) <= 1
    }
}

/// It is the number of runs that the target may hold that decides. A level has the policy
/// given for it, or the default one where none was given. Where that is two runs or more,
/// nothing at the target is touched: the merge becomes one run more, and there is a merge
/// exactly if tiering plans one. Where it is one run, there is a merge exactly if leveling
/// plans one, and it is the one that leveling plans.
pub proof fn law_the_targets_policy_decides(
    fluid: Fluid,
    tree: TreeShape,
    request: CompactionRequest,
    job: Option<CompactionJob>,
)
    requires
        fluid.plans(tree, request, job),
    ensures
        ({
            let own = fluid.own_policies();
            let target = request.target_level as int;
            let policy = if target < own.len() {
                own[target]
            } else {
                fluid.default()
            };
            &&& policy >= 2 && job is Some ==> job->0.targets@.len() == 0 && is_tiering_job(
                tree,
                request,
                job->0,
            )
            &&& policy >= 2 ==> (job is None <==> nothing_to_move(tree, request))
            &&& policy <= 1 && job is Some ==> is_leveling_job(tree, request, job->0)
            &&& policy <= 1 && job is None ==> nothing_to_move(tree, request)
        }),
{
}

/// Policies that are given are kept, as far as they lie between one and the ratio, level
/// by level.
pub proof fn law_given_policies_are_kept(policies: Seq<Policy>, size_ratio: nat)
    requires
        2 <= size_ratio <= usize::MAX,
    ensures
        bounded_all(policies, size_ratio).len() == policies.len(),
        forall|i: int|
            #![trigger bounded_all(policies, size_ratio)[i]]
            0 <= i < policies.len() ==> {
                let kept = bounded_all(policies, size_ratio)[i];
                &&& 1 <= policies[i] <= size_ratio ==> kept == policies[i]
                &&& policies[i] < 1 ==> kept == 1
                &&& policies[i] > size_ratio ==> kept == size_ratio
            },
{
}

fn clamp(policy: Policy, ceiling: usize) -> (clamped: Policy)
    requires
        ceiling >= 1,
    ensures
        clamped == bounded(policy as nat, ceiling as nat),
{
    if policy < 1 {
        1
    } else if policy > ceiling {
        ceiling
    } else {
        policy
    }
}

impl MergePolicy for Fluid {
    open spec fn ready(&self) -> bool {
        self.wf()
    }

    fn name(&self) -> (name: &'static str)
        ensures
            name@ == "fluid"@,
    {
        proof {
            reveal_strlit("fluid");
        }
        "fluid"
    }

    /// What leveling plans where the target may hold one run, and what tiering
    /// plans where it may hold more.
    fn plan(&self, tree: &TreeShape, request: CompactionRequest) -> (job: Option<CompactionJob>)
        ensures
            self.plans(*tree, request, job),
    {
        if self.is_leveled(request.target_level) {
            self.leveling.plan(tree, request)
        } else {
            self.tiering.plan(tree, request)
        }
    }

    /// The most that any level may hold.
    fn runs_per_level(&self) -> (limit: usize)
        ensures
            is_largest_policy(self.own_policies(), self.default(), limit),
    {
        let mut limit: usize = self.default_policy;
        let mut i: usize = 0;
        while i < self.policies.len()
            invariant
                i <= self.policies@.len(),
                self.default_policy <= limit,
                limit == self.default_policy || self.policies@.contains(limit),
                forall|j: int| 0 <= j < i ==> #[trigger] self.policies@[j] <= limit,
            decreases self.policies@.len() - i,
        {
            if self.policies[i] > limit {
                limit = self.policies[i];
                proof {
                    assert(self.policies@[i as int] == limit);
                }
            }
            i = i + 1;
        }
        limit
    }
}

} // verus!
