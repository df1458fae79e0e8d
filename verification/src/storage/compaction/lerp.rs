//! Learning the compaction policy from measured latency.
//!
//! One number is learned: how many runs a level may hold. One is leveling, the
//! size ratio is tiering. Work comes in missions, batches of operations. After
//! each, the tuner sees what the mission cost and picks the policy for the next:
//! one less, the same, or one more. What decides is the mix of reads and writes,
//! so the state is the share of reads, in buckets, and the policy.
//!
//! Shares, rates and latencies are fixed-point numbers in units of 2^-40.

use vstd::prelude::*;

use super::ecotune::UNIT;
use super::propagation::propagate_uniform;
use crate::workload::{bounded_draw, bounded_steps, stepped_by, Rng};

verus! {

/// No action is worth more than this, nor less than its opposite.
pub const VALUE_LIMIT: i128 = 0x1_0000_0000_0000_0000_0000;

/// The longest latency.
pub const MAX_LATENCY: u64 = 0x4000_0000_0000_0000;

/// How the tuner explores and learns.
#[derive(Debug, Clone, Copy, PartialEq, Eq, Structural)]
pub struct LerpConfig {
    /// The most runs that a level may hold.
    pub size_ratio: usize,
    /// The policy before anything is learned.
    pub initial_policy: usize,
    /// How far a value moves towards what was seen.
    pub learning_rate: u64,
    /// What the next state counts for. A mission's cost depends mostly on the
    /// policy that it ran under, so this is low.
    pub discount: u64,
    /// How often a random action is taken, at first.
    pub exploration: u64,
    /// What is left of that after each mission.
    pub exploration_decay: u64,
    /// The least that is left, so that a changed workload is still noticed.
    pub min_exploration: u64,
    /// Buckets of the share of reads.
    pub ratio_buckets: usize,
    pub seed: u64,
}

impl Default for LerpConfig {
    fn default() -> (config: Self)
        ensures
            config.valid(),
            config.size_ratio == 10,
            config.initial_policy == 1,
            config.learning_rate == 329_853_488_333,
            config.discount == 439_804_651_110,
            config.exploration == 549_755_813_888,
            config.exploration_decay == 1_066_526_278_943,
            config.min_exploration == 54_975_581_389,
            config.ratio_buckets == 5,
            config.seed == 0x1EA5_1EA5,
    {
        LerpConfig {
            size_ratio: 10,
            initial_policy: 1,
            learning_rate: 329_853_488_333,
            discount: 439_804_651_110,
            exploration: 549_755_813_888,
            exploration_decay: 1_066_526_278_943,
            min_exploration: 54_975_581_389,
            ratio_buckets: 5,
            seed: 0x1EA5_1EA5,
        }
    }
}

impl LerpConfig {
    /// Rates are no more than one.
    pub open spec fn valid(self) -> bool {
        &&& self.learning_rate <= UNIT
        &&& self.discount <= UNIT
        &&& self.exploration <= UNIT
        &&& self.exploration_decay <= UNIT
        &&& self.min_exploration <= UNIT
    }

    /// The most runs that a level may hold, which is at least one.
    pub open spec fn ceiling(self) -> nat {
        if self.size_ratio == 0 {
            1
        } else {
            self.size_ratio as nat
        }
    }

    /// The buckets, of which there is at least one.
    pub open spec fn buckets(self) -> nat {
        if self.ratio_buckets == 0 {
            1
        } else {
            self.ratio_buckets as nat
        }
    }
}

/// What a mission was.
#[derive(Debug, Clone, Copy, PartialEq, Eq, Structural)]
pub struct Mission {
    /// The share of reads.
    pub read_ratio: u64,
    /// The mean latency of an operation, in any unit.
    pub latency: u64,
}

// ---------------------------------------------------------------------------
// What is learned
// ---------------------------------------------------------------------------

/// What the tuner sees of the world: the bucket of the share of reads, and the
/// policy.
pub type StateView = (nat, nat);

/// What the three actions are worth in a state: one run less, the same, one more.
pub type ValuesView = (int, int, int);

/// What the tuner knows.
#[verifier::ext_equal]
pub struct LerpView {
    /// What actions are worth in the states that were seen.
    pub table: Map<StateView, ValuesView>,
    pub policy: nat,
    pub exploration: nat,
    /// The state and the action that the next mission is the result of.
    pub pending: Option<(StateView, nat)>,
    pub missions: u64,
    /// The state of the generator of numbers.
    pub rng: u64,
}

/// A share of a value, rounded down.
pub open spec fn share_of(share: nat, value: int) -> int {
    share * value / UNIT as int
}

/// A value within its limits.
pub open spec fn limited(value: int) -> int {
    if value > VALUE_LIMIT {
        VALUE_LIMIT as int
    } else if value < -VALUE_LIMIT {
        -VALUE_LIMIT as int
    } else {
        value
    }
}

/// What the actions are worth in a state; nothing if it was not seen.
pub open spec fn values_in(table: Map<StateView, ValuesView>, state: StateView) -> ValuesView {
    if table.contains_key(state) {
        table[state]
    } else {
        (0, 0, 0)
    }
}

/// What an action is worth.
pub open spec fn value_at(values: ValuesView, action: nat) -> int {
    if action == 0 {
        values.0
    } else if action == 1 {
        values.1
    } else {
        values.2
    }
}

/// The values with one of them replaced.
pub open spec fn with_value(values: ValuesView, action: nat, value: int) -> ValuesView {
    if action == 0 {
        (value, values.1, values.2)
    } else if action == 1 {
        (values.0, value, values.2)
    } else {
        (values.0, values.1, value)
    }
}

/// The first action that no other is worth more than.
pub open spec fn best_action(values: ValuesView) -> nat {
    let first = if values.1 > values.0 {
        1nat
    } else {
        0
    };
    if values.2 > value_at(values, first) {
        2
    } else {
        first
    }
}

/// What the best action is worth.
pub open spec fn best_value(values: ValuesView) -> int {
    value_at(values, best_action(values))
}

/// What an action is worth once a mission has shown what it costs: the reward is
/// the latency, negated, and the value of the next state counts at a discount.
pub open spec fn credited(
    config: LerpConfig,
    current: int,
    latency: nat,
    next: int,
) -> int {
    limited(
        current + share_of(
            config.learning_rate as nat,
            -latency + share_of(config.discount as nat, next) - current,
        ),
    )
}

/// No value comes to its limit, whatever missions cost, unless the next state counts
/// for all but a 2^-18th part: within the limits an action is credited in full.
pub proof fn law_values_stay_within_limits(
    config: LerpConfig,
    current: int,
    latency: nat,
    next: int,
)
    requires
        config.learning_rate <= UNIT,
        config.discount + 0x40_0000 <= UNIT,
        latency <= MAX_LATENCY,
        -VALUE_LIMIT <= current <= VALUE_LIMIT,
        -VALUE_LIMIT <= next <= VALUE_LIMIT,
    ensures
        credited(config, current, latency, next) == current + share_of(
            config.learning_rate as nat,
            -latency + share_of(config.discount as nat, next) - current,
        ),
{
    let s = UNIT as int;
    let limit = VALUE_LIMIT as int;
    let g = config.discount as int;
    let a = config.learning_rate as int;
    assert(-(g * 0x100_0000_0000) <= g * next / s <= limit) by (nonlinear_arith)
        requires
            0 <= g <= s,
            s == 0x100_0000_0000,
            limit == 0x1_0000_0000_0000_0000_0000,
            -limit <= next <= limit,
    ;
    let seen = -latency + g * next / s;
    assert(-limit <= seen <= limit);
    assert(-limit - current <= a * (seen - current) / s <= limit - current) by (nonlinear_arith)
        requires
            0 <= a <= s,
            s > 0,
            -limit <= seen <= limit,
            -limit <= current <= limit,
    ;
}

/// The state that a share of reads stands for.
pub open spec fn state_for(config: LerpConfig, read_ratio: u64, policy: nat) -> StateView {
    let share = if read_ratio > UNIT {
        UNIT as nat
    } else {
        read_ratio as nat
    };
    let bucket = share * config.buckets() / UNIT as nat;
    (
        if bucket < config.buckets() {
            bucket
        } else {
            (config.buckets() - 1) as nat
        },
        policy,
    )
}

/// The policy that an action leads to, between one and the ceiling.
pub open spec fn moved(config: LerpConfig, policy: nat, action: nat) -> nat {
    let next = policy + action - 1;
    if next < 1 {
        1
    } else if next > config.ceiling() {
        config.ceiling()
    } else {
        next as nat
    }
}

/// The table after a mission is credited to the action that it came of.
pub open spec fn learned(view: LerpView, config: LerpConfig, mission: Mission) -> Map<
    StateView,
    ValuesView,
> {
    match view.pending {
        None => view.table,
        Some((state, action)) => {
            let next = best_value(
                values_in(view.table, state_for(config, mission.read_ratio, view.policy)),
            );
            let values = values_in(view.table, state);
            view.table.insert(
                state,
                with_value(
                    values,
                    action,
                    credited(config, value_at(values, action), mission.latency as nat, next),
                ),
            )
        },
    }
}

/// A draw of whole percents is within the share of random actions.
pub open spec fn explores(roll: u64, exploration: nat) -> bool {
    roll * UNIT < exploration * 100
}

/// What a tuner knows after a mission.
pub open spec fn observed(view: LerpView, config: LerpConfig, mission: Mission) -> LerpView {
    let state = state_for(config, mission.read_ratio, view.policy);
    let table = learned(view, config, mission);
    let roll = bounded_draw(view.rng, 100);
    let rolled = stepped_by(view.rng, bounded_steps(view.rng, 100));
    let random = explores(roll, view.exploration);
    let action = if random {
        bounded_draw(rolled, 3) as nat
    } else {
        best_action(values_in(table, state))
    };
    let decayed = view.exploration * config.exploration_decay as nat / UNIT as nat;
    LerpView {
        table,
        policy: moved(config, view.policy, action),
        exploration: if decayed < config.min_exploration {
            config.min_exploration as nat
        } else {
            decayed
        },
        pending: Some((state, action)),
        missions: if view.missions == u64::MAX {
            view.missions
        } else {
            (view.missions + 1) as u64
        },
        rng: if random {
            stepped_by(rolled, bounded_steps(rolled, 3))
        } else {
            rolled
        },
    }
}

/// The policy is between one and the ceiling, and values within their limits.
pub open spec fn sensible(view: LerpView, config: LerpConfig) -> bool {
    &&& 1 <= view.policy <= config.ceiling()
    &&& view.exploration <= UNIT
    &&& view.pending matches Some((_, action)) ==> action < 3
}

/// A mission moves the policy by no more than one, and keeps it between one and
/// the ceiling.
pub proof fn law_the_policy_drifts(view: LerpView, config: LerpConfig, mission: Mission)
    requires
        sensible(view, config),
        config.valid(),
    ensures
        sensible(observed(view, config, mission), config),
        observed(view, config, mission).policy <= view.policy + 1,
        view.policy <= observed(view, config, mission).policy + 1,
{
    let rolled = stepped_by(view.rng, bounded_steps(view.rng, 100));
    crate::workload::law_bounded_draws_are_below(rolled, 3, u64::MAX as nat);
    let e = view.exploration as int;
    let d = config.exploration_decay as int;
    assert(e * d / UNIT as int <= UNIT) by (nonlinear_arith)
        requires
            0 <= e <= UNIT,
            0 <= d <= UNIT,
            UNIT == 0x100_0000_0000,
    ;
}

/// Exploration does not fall below its floor, and falls until it is there.
pub proof fn law_exploration_decays_to_its_floor(
    view: LerpView,
    config: LerpConfig,
    mission: Mission,
)
    requires
        config.valid(),
        view.exploration <= UNIT,
    ensures
        observed(view, config, mission).exploration >= config.min_exploration,
        view.exploration >= config.min_exploration ==> observed(view, config, mission).exploration
            <= view.exploration,
        config.exploration_decay < UNIT && view.exploration > config.min_exploration ==> observed(
            view,
            config,
            mission,
        ).exploration < view.exploration,
{
    let e = view.exploration as int;
    let d = config.exploration_decay as int;
    let s = UNIT as int;
    assert(e * d / s <= e) by (nonlinear_arith)
        requires
            0 <= e,
            0 <= d <= s,
            s > 0,
    ;
    if d < s && e > 0 {
        assert(e * d / s < e) by (nonlinear_arith)
            requires
                0 < e,
                0 <= d < s,
                s > 0,
        ;
    }
}

// ---------------------------------------------------------------------------
// Learning
// ---------------------------------------------------------------------------

/// What the three actions are worth.
#[derive(Debug, Clone, Copy, PartialEq, Eq, Structural)]
struct Values {
    down: i128,
    stay: i128,
    up: i128,
}

impl Values {
    spec fn shown(self) -> ValuesView {
        (self.down as int, self.stay as int, self.up as int)
    }

    spec fn within_limits(self) -> bool {
        &&& -VALUE_LIMIT <= self.down <= VALUE_LIMIT
        &&& -VALUE_LIMIT <= self.stay <= VALUE_LIMIT
        &&& -VALUE_LIMIT <= self.up <= VALUE_LIMIT
    }

    fn best(&self) -> (action: usize)
        ensures
            action == best_action(self.shown()),
    {
        let first: usize = if self.stay > self.down {
            1
        } else {
            0
        };
        if self.up > self.at(first) {
            2
        } else {
            first
        }
    }

    fn at(&self, action: usize) -> (value: i128)
        ensures
            value == value_at(self.shown(), action as nat),
            self.within_limits() ==> -VALUE_LIMIT <= value <= VALUE_LIMIT,
    {
        if action == 0 {
            self.down
        } else if action == 1 {
            self.stay
        } else {
            self.up
        }
    }

    fn with(&self, action: usize, value: i128) -> (values: Values)
        ensures
            values.shown() == with_value(self.shown(), action as nat, value as int),
            self.within_limits() && -VALUE_LIMIT <= value <= VALUE_LIMIT ==> values.within_limits(),
    {
        if action == 0 {
            Values { down: value, stay: self.stay, up: self.up }
        } else if action == 1 {
            Values { down: self.down, stay: value, up: self.up }
        } else {
            Values { down: self.down, stay: self.stay, up: value }
        }
    }
}

/// One state and what is known of it.
#[derive(Debug, Clone, Copy, PartialEq, Eq, Structural)]
struct Known {
    bucket: usize,
    policy: usize,
    values: Values,
}

impl Known {
    spec fn state(self) -> StateView {
        (self.bucket as nat, self.policy as nat)
    }
}

/// What is known, as a map.
spec fn table_of(known: Seq<Known>) -> Map<StateView, ValuesView>
    decreases known.len(),
{
    if known.len() == 0 {
        Map::empty()
    } else {
        table_of(known.drop_last()).insert(known.last().state(), known.last().values.shown())
    }
}

/// Each state is known once.
spec fn known_once(known: Seq<Known>) -> bool {
    forall|i: int, j: int|
        #![trigger known[i], known[j]]
        0 <= i < j < known.len() ==> known[i].state() != known[j].state()
}

proof fn lemma_table(known: Seq<Known>, state: StateView)
    requires
        known_once(known),
    ensures
        forall|i: int|
            0 <= i < known.len() && (#[trigger] known[i]).state() == state ==> table_of(
                known,
            ).contains_key(state) && table_of(known)[state] == known[i].values.shown(),
        (forall|i: int| 0 <= i < known.len() ==> (#[trigger] known[i]).state() != state)
            ==> !table_of(known).contains_key(state),
    decreases known.len(),
{
    if known.len() > 0 {
        let head = known.drop_last();
        assert(known_once(head)) by {
            assert forall|i: int, j: int|
                #![trigger head[i], head[j]]
                0 <= i < j < head.len() implies head[i].state() != head[j].state() by {
                assert(head[i] == known[i] && head[j] == known[j]);
            }
        }
        lemma_table(head, state);
        let n = known.len() - 1;
        assert forall|i: int|
            0 <= i < known.len() && (#[trigger] known[i]).state() == state implies table_of(
            known,
        ).contains_key(state) && table_of(known)[state] == known[i].values.shown() by {
            if i < n {
                assert(head[i] == known[i]);
                assert(known[i].state() != known[n].state());
            }
        }
        if forall|i: int| 0 <= i < known.len() ==> (#[trigger] known[i]).state() != state {
            assert forall|i: int| 0 <= i < head.len() implies (#[trigger] head[i]).state()
                != state by {
                assert(head[i] == known[i]);
            }
            assert(known[n].state() != state);
        }
    }
}

proof fn lemma_table_update(known: Seq<Known>, at: int, values: Values)
    requires
        known_once(known),
        0 <= at < known.len(),
    ensures
        ({
            let after = known.update(at, Known { values, ..known[at] });
            &&& known_once(after)
            &&& table_of(after) == table_of(known).insert(known[at].state(), values.shown())
        }),
    decreases known.len(),
{
    let after = known.update(at, Known { values, ..known[at] });
    let n = known.len() - 1;
    let head = known.drop_last();
    assert(known_once(after)) by {
        assert forall|i: int, j: int|
            #![trigger after[i], after[j]]
            0 <= i < j < after.len() implies after[i].state() != after[j].state() by {
            assert(known[i].state() != known[j].state());
        }
    }
    if at == n {
        assert(after.drop_last() =~= head);
        assert(table_of(after) =~= table_of(known).insert(known[at].state(), values.shown()));
    } else {
        assert(known_once(head)) by {
            assert forall|i: int, j: int|
                #![trigger head[i], head[j]]
                0 <= i < j < head.len() implies head[i].state() != head[j].state() by {
                assert(head[i] == known[i] && head[j] == known[j]);
            }
        }
        assert(head[at] == known[at]);
        lemma_table_update(head, at, values);
        assert(after.drop_last() =~= head.update(at, Known { values, ..head[at] }));
        assert(known[at].state() != known[n].state());
        assert(table_of(after) =~= table_of(known).insert(known[at].state(), values.shown()));
    }
}

/// A tuner of the compaction policy.
#[derive(Debug, Clone)]
pub struct Lerp {
    config: LerpConfig,
    known: Vec<Known>,
    policy: usize,
    exploration: u64,
    pending: Option<(usize, usize, usize)>,
    missions: u64,
    rng: Rng,
}

impl View for Lerp {
    type V = LerpView;

    closed spec fn view(&self) -> LerpView {
        LerpView {
            table: table_of(self.known@),
            policy: self.policy as nat,
            exploration: self.exploration as nat,
            pending: match self.pending {
                Some((bucket, policy, action)) => Some(
                    ((bucket as nat, policy as nat), action as nat),
                ),
                None => None,
            },
            missions: self.missions,
            rng: self.rng.at(),
        }
    }
}

/// A share of a value, rounded down.
fn take_share(share: u64, value: i128) -> (part: i128)
    requires
        share <= UNIT,
        -0x8_0000_0000_0000_0000_0000 <= value <= 0x8_0000_0000_0000_0000_0000,
    ensures
        part == share_of(share as nat, value as int),
        -0x8_0000_0000_0000_0000_0000 <= part <= 0x8_0000_0000_0000_0000_0000,
{
    proof {
        let a = share as int;
        let v = value as int;
        assert(-0x100_0000_0000 * 0x8_0000_0000_0000_0000_0000 <= a * v <= 0x100_0000_0000
            * 0x8_0000_0000_0000_0000_0000) by (nonlinear_arith)
            requires
                0 <= a <= 0x100_0000_0000,
                -0x8_0000_0000_0000_0000_0000 <= v <= 0x8_0000_0000_0000_0000_0000,
        ;
    }
    let product: i128 = share as i128 * value;
    if product >= 0 {
        product / UNIT as i128
    } else {
        let size: i128 = -product;
        let up: i128 = (size + (UNIT as i128 - 1)) / UNIT as i128;
        proof {
            assert(product / 0x100_0000_0000 == -((-product + 0xff_ffff_ffff) / 0x100_0000_0000));
        }
        -up
    }
}

impl Lerp {
    /// How the tuner explores and learns.
    pub closed spec fn made_with(&self) -> LerpConfig {
        self.config
    }

    /// Each state is known once, within limits.
    pub closed spec fn wf(&self) -> bool {
        &&& self.config.valid()
        &&& known_once(self.known@)
        &&& forall|i: int|
            0 <= i < self.known@.len() ==> (#[trigger] self.known@[i]).values.within_limits()
        &&& sensible(self@, self.config)
    }

    /// A tuner that knows nothing yet.
    pub fn new(config: LerpConfig) -> (lerp: Self)
        requires
            config.valid(),
        ensures
            lerp.wf(),
            lerp.made_with() == config,
            lerp@.table == Map::<StateView, ValuesView>::empty(),
            lerp@.policy == if config.initial_policy < 1 {
                1
            } else if config.initial_policy > config.ceiling() {
                config.ceiling()
            } else {
                config.initial_policy as nat
            },
            lerp@.exploration == config.exploration,
            lerp@.pending is None,
            lerp@.missions == 0,
            lerp@.rng == if config.seed == 0 {
                0x9E37_79B9_7F4A_7C15
            } else {
                config.seed
            },
    {
        let ceiling: usize = if config.size_ratio == 0 {
            1
        } else {
            config.size_ratio
        };
        let policy: usize = if config.initial_policy < 1 {
            1
        } else if config.initial_policy > ceiling {
            ceiling
        } else {
            config.initial_policy
        };
        Lerp {
            config,
            known: Vec::new(),
            policy,
            exploration: config.exploration,
            pending: None,
            missions: 0,
            rng: Rng::new(config.seed),
        }
    }

    /// The policy to run the next mission under.
    pub fn policy(&self) -> (policy: usize)
        ensures
            policy == self@.policy,
    {
        self.policy
    }

    /// The policy of every level: the same.
    pub fn policies(&self, levels: usize) -> (policies: Vec<usize>)
        requires
            self.wf(),
        ensures
            policies@ == Seq::new(levels as nat, |i: int| self@.policy as usize),
    {
        let policies: Vec<usize> = propagate_uniform(self.policy, levels);
        proof {
            assert(policies@ =~= Seq::new(levels as nat, |i: int| self@.policy as usize));
        }
        policies
    }

    /// How many missions were seen.
    pub fn missions(&self) -> (missions: u64)
        ensures
            missions == self@.missions,
    {
        self.missions
    }

    /// How often a random action is taken by now.
    pub fn exploration(&self) -> (exploration: u64)
        ensures
            exploration == self@.exploration,
    {
        self.exploration
    }

    /// Where a state is among those that are known.
    fn position_of(&self, bucket: usize, policy: usize) -> (at: Option<usize>)
        requires
            known_once(self.known@),
        ensures
            match at {
                Some(at) => {
                    &&& at < self.known@.len()
                    &&& self.known@[at as int].state() == (bucket as nat, policy as nat)
                    &&& self@.table.contains_key((bucket as nat, policy as nat))
                    &&& self@.table[(bucket as nat, policy as nat)]
                        == self.known@[at as int].values.shown()
                },
                None => {
                    &&& !self@.table.contains_key((bucket as nat, policy as nat))
                    &&& forall|i: int|
                        0 <= i < self.known@.len() ==> (#[trigger] self.known@[i]).state() != (
                            bucket as nat,
                            policy as nat,
                        )
                },
            },
    {
        let mut i: usize = 0;
        proof {
            lemma_table(self.known@, (bucket as nat, policy as nat));
        }
        while i < self.known.len()
            invariant
                i <= self.known@.len(),
                known_once(self.known@),
                forall|j: int|
                    0 <= j < i ==> (#[trigger] self.known@[j]).state() != (
                        bucket as nat,
                        policy as nat,
                    ),
            decreases self.known@.len() - i,
        {
            if self.known[i].bucket == bucket && self.known[i].policy == policy {
                proof {
                    lemma_table(self.known@, (bucket as nat, policy as nat));
                    assert(self.known@[i as int].state() == (bucket as nat, policy as nat));
                }
                return Some(i);
            }
            i = i + 1;
        }
        proof {
            lemma_table(self.known@, (bucket as nat, policy as nat));
        }
        None
    }

    /// What the actions are worth in a state.
    fn values(&self, bucket: usize, policy: usize) -> (values: Values)
        requires
            known_once(self.known@),
            forall|i: int|
                0 <= i < self.known@.len() ==> (#[trigger] self.known@[i]).values.within_limits(),
        ensures
            values.shown() == values_in(self@.table, (bucket as nat, policy as nat)),
            values.within_limits(),
    {
        match self.position_of(bucket, policy) {
            Some(at) => self.known[at].values,
            None => Values { down: 0, stay: 0, up: 0 },
        }
    }

    /// The bucket of a share of reads.
    fn bucket(&self, read_ratio: u64) -> (bucket: usize)
        ensures
            bucket == state_for(self.made_with(), read_ratio, 0).0,
    {
        let buckets: usize = if self.config.ratio_buckets == 0 {
            1
        } else {
            self.config.ratio_buckets
        };
        let share: u64 = if read_ratio > UNIT {
            UNIT
        } else {
            read_ratio
        };
        proof {
            assert(0 <= share * buckets <= 0x100_0000_0000 * 0xffff_ffff_ffff_ffff)
                by (nonlinear_arith)
                requires
                    0 <= share <= 0x100_0000_0000,
                    0 <= buckets <= 0xffff_ffff_ffff_ffff,
            ;
        }
        let bucket: u128 = share as u128 * buckets as u128 / UNIT as u128;
        if bucket < buckets as u128 {
            bucket as usize
        } else {
            buckets - 1
        }
    }

    /// Takes up what a mission shows of the action that it came of.
    fn learn(&mut self, bucket: usize, mission: Mission)
        requires
            old(self).wf(),
            mission.latency <= MAX_LATENCY,
            (bucket as nat, old(self)@.policy) == state_for(
                old(self).made_with(),
                mission.read_ratio,
                old(self)@.policy,
            ),
        ensures
            final(self).wf(),
            final(self).made_with() == old(self).made_with(),
            final(self)@ == (LerpView {
                table: learned(old(self)@, old(self).made_with(), mission),
                ..old(self)@
            }),
    {
        let (was_bucket, was_policy, action): (usize, usize, usize) = match self.pending {
            Some(pending) => pending,
            None => {
                return ;
            },
        };
        let ghost before = self@;
        let ghost config = self.config;
        let ghost state = (was_bucket as nat, was_policy as nat);
        let here: Values = self.values(bucket, self.policy);
        let next: i128 = here.at(here.best());
        let values: Values = self.values(was_bucket, was_policy);
        let current: i128 = values.at(action);
        let ahead: i128 = take_share(self.config.discount, next);
        proof {
            lemma_share_shrinks(self.config.discount as nat, next as int);
        }
        let surprise: i128 = ahead - mission.latency as i128 - current;
        let step: i128 = take_share(self.config.learning_rate, surprise);
        let raw: i128 = current + step;
        let value: i128 = if raw > VALUE_LIMIT {
            VALUE_LIMIT
        } else if raw < -VALUE_LIMIT {
            -VALUE_LIMIT
        } else {
            raw
        };
        let updated: Values = values.with(action, value);
        proof {
            assert(value == credited(
                config,
                current as int,
                mission.latency as nat,
                next as int,
            ));
        }
        match self.position_of(was_bucket, was_policy) {
            Some(at) => {
                let ghost known = self.known@;
                let entry = Known { bucket: was_bucket, policy: was_policy, values: updated };
                self.known.set(at, entry);
                proof {
                    lemma_table_update(known, at as int, updated);
                    assert(self.known@ =~= known.update(
                        at as int,
                        Known { values: updated, ..known[at as int] },
                    ));
                    assert forall|i: int| 0 <= i < self.known@.len() implies (
                    #[trigger] self.known@[i]).values.within_limits() by {
                        if i != at {
                            assert(self.known@[i] == known[i]);
                        }
                    }
                }
            },
            None => {
                let ghost known = self.known@;
                let entry = Known { bucket: was_bucket, policy: was_policy, values: updated };
                self.known.push(entry);
                proof {
                    assert(self.known@.drop_last() =~= known);
                    assert forall|i: int, j: int|
                        #![trigger self.known@[i], self.known@[j]]
                        0 <= i < j < self.known@.len() implies self.known@[i].state()
                        != self.known@[j].state() by {
                        assert(self.known@[i] == known[i]);
                        if j < known.len() {
                            assert(self.known@[j] == known[j]);
                        }
                    }
                    assert forall|i: int| 0 <= i < self.known@.len() implies (
                    #[trigger] self.known@[i]).values.within_limits() by {
                        if i < known.len() {
                            assert(self.known@[i] == known[i]);
                        }
                    }
                }
            },
        }
        proof {
            assert(self@.table =~= learned(before, config, mission));
        }
    }

    /// The next action: a random one every so often, else the best.
    fn pick_action(&mut self, bucket: usize) -> (action: usize)
        requires
            old(self).wf(),
        ensures
            final(self).wf(),
            final(self).made_with() == old(self).made_with(),
            action < 3,
            ({
                let view = old(self)@;
                let roll = bounded_draw(view.rng, 100);
                let rolled = stepped_by(view.rng, bounded_steps(view.rng, 100));
                if explores(roll, view.exploration) {
                    &&& action == bounded_draw(rolled, 3)
                    &&& final(self)@ == (LerpView {
                        rng: stepped_by(rolled, bounded_steps(rolled, 3)),
                        ..view
                    })
                } else {
                    &&& action == best_action(
                        values_in(view.table, (bucket as nat, view.policy)),
                    )
                    &&& final(self)@ == (LerpView { rng: rolled, ..view })
                }
            }),
    {
        let roll: u64 = self.rng.below(100);
        proof {
            assert(roll * UNIT <= 100 * 0x100_0000_0000);
        }
        if roll as u128 * (UNIT as u128) < self.exploration as u128 * 100 {
            return self.rng.below(3) as usize;
        }
        self.values(bucket, self.policy).best()
    }

    /// Takes a finished mission in and gives the policy for the next one.
    pub fn observe(&mut self, mission: Mission) -> (policy: usize)
        requires
            old(self).wf(),
            mission.latency <= MAX_LATENCY,
        ensures
            final(self).wf(),
            final(self).made_with() == old(self).made_with(),
            final(self)@ == observed(old(self)@, old(self).made_with(), mission),
            policy == final(self)@.policy,
    {
        let ghost before = self@;
        let ghost config = self.config;
        let bucket: usize = self.bucket(mission.read_ratio);
        self.learn(bucket, mission);
        let action: usize = self.pick_action(bucket);
        let policy: usize = self.policy;
        self.policy = self.apply(policy, action);
        self.pending = Some((bucket, policy, action));
        self.missions = self.missions.saturating_add(1);
        proof {
            let e = self.exploration as int;
            let d = self.config.exploration_decay as int;
            assert(0 <= e * d <= 0x100_0000_0000 * 0x100_0000_0000) by (nonlinear_arith)
                requires
                    0 <= e <= 0x100_0000_0000,
                    0 <= d <= 0x100_0000_0000,
            ;
        }
        let decayed: u64 = (self.exploration as u128 * self.config.exploration_decay as u128
            / UNIT as u128) as u64;
        self.exploration = if decayed < self.config.min_exploration {
            self.config.min_exploration
        } else {
            decayed
        };
        proof {
            law_the_policy_drifts(before, config, mission);
            assert(self@ =~= observed(before, config, mission));
        }
        self.policy
    }

    /// The policy that an action leads to.
    fn apply(&self, policy: usize, action: usize) -> (next: usize)
        requires
            1 <= policy,
            policy <= self.made_with().ceiling(),
            action < 3,
        ensures
            next == moved(self.made_with(), policy as nat, action as nat),
    {
        let ceiling: usize = if self.config.size_ratio == 0 {
            1
        } else {
            self.config.size_ratio
        };
        if action == 0 {
            if policy > 1 {
                policy - 1
            } else {
                1
            }
        } else if action == 1 {
            policy
        } else if policy < ceiling {
            policy + 1
        } else {
            ceiling
        }
    }
}

proof fn lemma_share_shrinks(share: nat, value: int)
    requires
        share <= UNIT,
        -VALUE_LIMIT <= value <= VALUE_LIMIT,
    ensures
        -VALUE_LIMIT <= share_of(share, value) <= VALUE_LIMIT,
{
    let s = UNIT as int;
    let a = share as int;
    let b = VALUE_LIMIT as int;
    assert(-b <= a * value / s <= b) by (nonlinear_arith)
        requires
            0 <= a <= s,
            -b <= value <= b,
            s > 0,
            b >= 0,
    ;
}

} // verus!
