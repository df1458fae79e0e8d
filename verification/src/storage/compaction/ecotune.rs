//! Compaction as an investment: a schedule for a round, found by dynamic
//! programming.
//!
//! A compaction costs resources once and returns faster queries for as long as
//! its output lives, so the earlier in a round it comes, the more it returns.
//! The best schedule is therefore eager early in a round and lazy near its end.
//!
//! With `e` runs in the main level, queries are served at the speed
//!
//! ```text
//!   q(e) = 1 / ((e + 2) r + (1 - r) (1 + f))
//! ```
//!
//! where `r` is the share of long scans and `f` the false-positive rate of the
//! filters. The score of a schedule is speed times time: queries served. In the
//! problem `(e, c, m)` there are `e` runs in the main level, `c` unit runs still
//! to come, and `m` units that the last merge has to carry along.
//!
//! ```text
//!   f(e, 1, m) = (m + 1) T_c b q(e)
//!   f(e, c, m) = max of
//!       x = 1:   T_w q(e+1) + f(e+1, c-1, m+1)
//!       x >= 2:  f(e, x, 0) + (T_w - x T_c) q(e+1) + f(e+1, c-x, m+x)
//! ```
//!
//! `x` is how many unit runs go into the first run that lives to the end of the
//! round; `x = 1` leaves a run alone. A round is the problem `(0, R, C R)`.
//!
//! Times, shares and speeds are fixed-point numbers in units of 2^-40, scores in
//! units of 2^-80.

use vstd::prelude::*;

verus! {

/// One, as a fixed-point number.
pub const UNIT: u64 = 0x100_0000_0000;

/// The longest time.
pub const MAX_TIME: u64 = 0x40_0000_0000_0000;

/// The most unit runs in a round.
pub const MAX_ROUND: usize = 0x8000;

/// The most units in the last level.
pub const MAX_CARRIED: u64 = 0xfffe_0000;

/// The workload and the hardware that a schedule is made for.
#[derive(Debug, Clone, Copy, PartialEq, Eq, Structural)]
pub struct EcoTuneConfig {
    /// `R`: unit runs per round.
    pub runs_per_round: usize,
    /// `C`: how many times as much as a round the last level holds. Sets what
    /// the global compaction at the end of a round has to rewrite.
    pub last_level_ratio: usize,
    /// `T_w`: the time between two unit runs.
    pub tm_interval: u64,
    /// `T_c`: the time to rewrite one unit run.
    pub rewrite_time: u64,
    /// `r`: the share of long scans.
    pub long_range_ratio: u64,
    /// `f`: the false-positive rate of the filters.
    pub false_positive_rate: u64,
    /// `b`: what is left of the query speed while a merge runs.
    pub mlc_query_factor: u64,
}

impl Default for EcoTuneConfig {
    /// Eight unit runs a round, a last level of three rounds, a rewrite of a
    /// tenth of the interval, three tenths of long scans, filters that err once
    /// in a hundred, and half the speed while merging.
    fn default() -> (config: Self)
        ensures
            config.valid(),
            config.runs_per_round == 8,
            config.last_level_ratio == 3,
            config.tm_interval == UNIT,
            config.rewrite_time == 109_951_162_778,
            config.long_range_ratio == 329_853_488_333,
            config.false_positive_rate == 10_995_116_278,
            config.mlc_query_factor == 549_755_813_888,
    {
        EcoTuneConfig {
            runs_per_round: 8,
            last_level_ratio: 3,
            tm_interval: UNIT,
            rewrite_time: 109_951_162_778,
            long_range_ratio: 329_853_488_333,
            false_positive_rate: 10_995_116_278,
            mlc_query_factor: 549_755_813_888,
        }
    }
}

/// The cost of a query with `e` runs in the main level, in units of 2^-80.
pub open spec fn query_cost(config: EcoTuneConfig, e: nat) -> nat {
    ((e + 2) * config.long_range_ratio * UNIT + (UNIT - config.long_range_ratio) * (UNIT
        + config.false_positive_rate)) as nat
}

/// 2^120, which is one divided by a cost of one.
pub open spec fn one_over_unit() -> nat {
    0x100_0000_0000_0000_0000_0000_0000_0000
}

/// Queries served per unit of time.
#[verifier::opaque]
pub open spec fn speed(config: EcoTuneConfig, e: nat) -> nat {
    one_over_unit() / query_cost(config, e)
}

/// Queries served per unit of time while a merge runs.
#[verifier::opaque]
pub open spec fn merge_speed(config: EcoTuneConfig, e: nat) -> nat {
    speed(config, e) * config.mlc_query_factor as nat / UNIT as nat
}

/// A cost is at least that of one probe.
pub proof fn lemma_cost_bound(config: EcoTuneConfig, e: nat)
    requires
        config.shares(),
    ensures
        query_cost(config, e) >= UNIT * UNIT,
{
    let r = config.long_range_ratio as int;
    let f = config.false_positive_rate as int;
    let s = UNIT as int;
    assert((e + 2) * r * s + (s - r) * (s + f) >= s * s) by (nonlinear_arith)
        requires
            0 <= r <= s,
            0 <= f,
            e >= 0,
            s > 0,
    ;
}

/// Speeds are at most one query per unit of time.
pub proof fn lemma_speed_bound(config: EcoTuneConfig, e: nat)
    requires
        config.shares(),
    ensures
        speed(config, e) <= UNIT,
        merge_speed(config, e) <= UNIT,
{
    reveal(speed);
    reveal(merge_speed);
    lemma_cost_bound(config, e);
    let cost = query_cost(config, e);
    let q = speed(config, e);
    let s = UNIT as nat;
    let top = one_over_unit();
    assert(s * s == 0x1_0000_0000_0000_0000_0000nat) by (nonlinear_arith)
        requires
            s == 0x100_0000_0000nat,
    ;
    assert(top / cost <= s) by (nonlinear_arith)
        requires
            cost >= 0x1_0000_0000_0000_0000_0000nat,
            top == 0x100_0000_0000_0000_0000_0000_0000_0000nat,
            s == 0x100_0000_0000nat,
    ;
    let b = config.mlc_query_factor as nat;
    assert(q * b / s <= s) by (nonlinear_arith)
        requires
            q <= s,
            b <= s,
            s > 0,
    ;
}

/// More runs make queries no faster.
pub proof fn law_speed_falls_with_runs(config: EcoTuneConfig, e: nat, more: nat)
    requires
        config.shares(),
        e <= more,
    ensures
        speed(config, more) <= speed(config, e),
{
    reveal(speed);
    lemma_cost_bound(config, e);
    let a = query_cost(config, e);
    let b = query_cost(config, more);
    let r = config.long_range_ratio as int;
    let s = UNIT as int;
    assert((e + 2) * r * s <= (more + 2) * r * s) by (nonlinear_arith)
        requires
            0 <= e <= more,
            r >= 0,
            s > 0,
    ;
    assert(s * s > 0) by (nonlinear_arith)
        requires
            s > 0,
    ;
    let top = one_over_unit();
    assert(top / b <= top / a) by (nonlinear_arith)
        requires
            0 < a <= b,
            top >= 0,
    ;
}

/// Without long scans the number of runs does not matter.
pub proof fn law_without_scans_runs_do_not_matter(config: EcoTuneConfig, e: nat, other: nat)
    requires
        config.long_range_ratio == 0,
    ensures
        speed(config, e) == speed(config, other),
{
    reveal(speed);
    assert((e + 2) * 0 * UNIT == 0) by (nonlinear_arith);
    assert((other + 2) * 0 * UNIT == 0) by (nonlinear_arith);
}

impl EcoTuneConfig {
    /// Shares and rates are no more than one.
    pub open spec fn shares(self) -> bool {
        &&& self.long_range_ratio <= UNIT
        &&& self.false_positive_rate <= UNIT
        &&& self.mlc_query_factor <= UNIT
    }

    /// Shares and rates are no more than one, times and rounds not too long, and the
    /// last level not too large.
    pub open spec fn valid(self) -> bool {
        &&& self.shares()
        &&& self.tm_interval <= MAX_TIME
        &&& self.rewrite_time <= MAX_TIME
        &&& self.runs_per_round <= MAX_ROUND
        &&& self.carried() <= MAX_CARRIED
    }

    /// Whether shares and rates are no more than one, times and rounds not too long,
    /// and the last level not too large.
    pub fn is_valid(&self) -> (valid: bool)
        ensures
            valid == self.valid(),
    {
        let round: usize = if self.runs_per_round == 0 {
            1
        } else {
            self.runs_per_round
        };
        let ratio: u128 = self.last_level_ratio as u128;
        proof {
            assert(0 <= ratio * round <= 0xffff_ffff_ffff_ffff * 0xffff_ffff_ffff_ffff)
                by (nonlinear_arith)
                requires
                    0 <= ratio <= 0xffff_ffff_ffff_ffff,
                    0 <= round <= 0xffff_ffff_ffff_ffff,
            ;
        }
        let carried: u128 = ratio * round as u128;
        self.long_range_ratio <= UNIT && self.false_positive_rate <= UNIT && self.mlc_query_factor
            <= UNIT && self.tm_interval <= MAX_TIME && self.rewrite_time <= MAX_TIME
            && self.runs_per_round <= MAX_ROUND && carried <= MAX_CARRIED as u128
    }

    /// `R`, which is at least one.
    pub open spec fn round(self) -> nat {
        if self.runs_per_round == 0 {
            1
        } else {
            self.runs_per_round as nat
        }
    }

    /// `C R`: the units in the last level.
    pub open spec fn carried(self) -> nat {
        self.last_level_ratio as nat * self.round()
    }

    /// `q(e)`: queries served per unit of time with `main_runs` runs in the main
    /// level.
    pub fn query_speed(&self, main_runs: usize) -> (queries: u64)
        requires
            self.shares(),
        ensures
            queries == speed(*self, main_runs as nat),
    {
        proof {
            reveal(speed);
            lemma_cost_bound(*self, main_runs as nat);
            lemma_speed_bound(*self, main_runs as nat);
        }
        let r: u128 = self.long_range_ratio as u128;
        let f: u128 = self.false_positive_rate as u128;
        let s: u128 = UNIT as u128;
        let e: u128 = main_runs as u128;
        proof {
            assert((e + 2) * r <= 0x1_0000_0000_0000_0001 * 0x100_0000_0000) by (nonlinear_arith)
                requires
                    0 <= e <= 0xffff_ffff_ffff_ffff,
                    0 <= r <= 0x100_0000_0000,
            ;
            assert((s - r) * (s + f) <= 0x100_0000_0000 * 0x200_0000_0000) by (nonlinear_arith)
                requires
                    s == 0x100_0000_0000,
                    0 <= r <= s,
                    0 <= f <= s,
            ;
            assert((s - r) * (s + f) >= 0) by (nonlinear_arith)
                requires
                    0 <= r <= s,
                    0 <= f,
            ;
        }
        let scans: u128 = (e + 2) * r;
        let top: u128 = 0x100_0000_0000_0000_0000_0000_0000_0000;
        if scans >= 0x2_0000_0000_0000_0000_0000 {
            proof {
                let cost = query_cost(*self, main_runs as nat);
                assert(cost > top) by (nonlinear_arith)
                    requires
                        scans >= 0x2_0000_0000_0000_0000_0000,
                        s == 0x100_0000_0000,
                        (s - r) * (s + f) >= 0,
                        cost == scans * s + (s - r) * (s + f),
                        top == 0x100_0000_0000_0000_0000_0000_0000_0000,
                ;
                assert(top as int / cost as int == 0) by (nonlinear_arith)
                    requires
                        0 <= top < cost,
                ;
            }
            return 0;
        }
        proof {
            assert(scans * s <= 0x200_0000_0000_0000_0000_0000_0000_0000) by (nonlinear_arith)
                requires
                    0 <= scans < 0x2_0000_0000_0000_0000_0000,
                    s == 0x100_0000_0000,
            ;
        }
        let cost: u128 = scans * s + (s - r) * (s + f);
        (top / cost) as u64
    }

    /// The query speed while a merge runs.
    pub fn mlc_query_speed(&self, main_runs: usize) -> (queries: u64)
        requires
            self.shares(),
        ensures
            queries == merge_speed(*self, main_runs as nat),
    {
        let q: u64 = self.query_speed(main_runs);
        proof {
            reveal(merge_speed);
            lemma_speed_bound(*self, main_runs as nat);
            assert(q * self.mlc_query_factor <= 0x100_0000_0000 * 0x100_0000_0000)
                by (nonlinear_arith)
                requires
                    0 <= q <= 0x100_0000_0000,
                    0 <= self.mlc_query_factor <= 0x100_0000_0000,
            ;
        }
        let product: u128 = q as u128 * self.mlc_query_factor as u128;
        (product / UNIT as u128) as u64
    }
}

// ---------------------------------------------------------------------------
// The recurrence
// ---------------------------------------------------------------------------

/// What is served while the first `x` unit runs are merged, or while the first is
/// left alone.
pub open spec fn served(config: EcoTuneConfig, e: nat, x: nat) -> int {
    if x == 1 {
        config.tm_interval * speed(config, e + 1)
    } else {
        (config.tm_interval - x * config.rewrite_time) * speed(config, e + 1)
    }
}

/// The score of the last unit run of a problem: the merge that follows carries
/// it and everything pending.
pub open spec fn last_score(config: EcoTuneConfig, e: nat, m: nat) -> int {
    (m + 1) * config.rewrite_time * merge_speed(config, e)
}

/// `f(e, c, m)`: the best score.
pub open spec fn best_score(config: EcoTuneConfig, e: nat, c: nat, m: nat) -> int
    decreases c, c, 2nat,
{
    if c == 0 {
        0
    } else if c == 1 {
        last_score(config, e, m)
    } else {
        best_upto(config, e, c, m, (c - 1) as nat)
    }
}

/// The score of merging `x` unit runs first, and going on as well as possible.
pub open spec fn choice_score(config: EcoTuneConfig, e: nat, c: nat, m: nat, x: nat) -> int
    decreases c, x, 0nat,
{
    if x == 0 || x >= c {
        0
    } else if x == 1 {
        served(config, e, 1) + best_score(config, e + 1, (c - 1) as nat, m + 1)
    } else {
        best_score(config, e, x, 0) + served(config, e, x) + best_score(
            config,
            e + 1,
            (c - x) as nat,
            m + x,
        )
    }
}

/// The best score of merging no more than `k` unit runs first.
pub open spec fn best_upto(config: EcoTuneConfig, e: nat, c: nat, m: nat, k: nat) -> int
    decreases c, k, 1nat,
{
    if k == 0 || k >= c {
        0
    } else if k == 1 {
        choice_score(config, e, c, m, 1)
    } else {
        let before = best_upto(config, e, c, m, (k - 1) as nat);
        let score = choice_score(config, e, c, m, k);
        if score > before {
            score
        } else {
            before
        }
    }
}

/// The fewest unit runs, no more than `k`, whose merge has the best score.
pub open spec fn width_upto(config: EcoTuneConfig, e: nat, c: nat, m: nat, k: nat) -> nat
    decreases k,
{
    if k <= 1 {
        1
    } else {
        let before = best_upto(config, e, c, m, (k - 1) as nat);
        if choice_score(config, e, c, m, k) > before {
            k
        } else {
            width_upto(config, e, c, m, (k - 1) as nat)
        }
    }
}

/// The width to choose in a problem.
pub open spec fn best_width(config: EcoTuneConfig, e: nat, c: nat, m: nat) -> nat {
    if c <= 1 {
        1
    } else {
        width_upto(config, e, c, m, (c - 1) as nat)
    }
}

/// No choice scores higher than the best, and the width has that score.
pub proof fn lemma_best(config: EcoTuneConfig, e: nat, c: nat, m: nat, k: nat)
    requires
        1 <= k < c,
    ensures
        forall|x: nat|
            1 <= x <= k ==> #[trigger] choice_score(config, e, c, m, x) <= best_upto(
                config,
                e,
                c,
                m,
                k,
            ),
        1 <= width_upto(config, e, c, m, k) <= k,
        choice_score(config, e, c, m, width_upto(config, e, c, m, k)) == best_upto(
            config,
            e,
            c,
            m,
            k,
        ),
        forall|x: nat|
            1 <= x < width_upto(config, e, c, m, k) ==> #[trigger] choice_score(
                config,
                e,
                c,
                m,
                x,
            ) < best_upto(config, e, c, m, k),
    decreases k,
{
    if k > 1 {
        lemma_best(config, e, c, m, (k - 1) as nat);
    }
}

/// The best score is that of the best choice, and the width chosen is the
/// smallest that has it.
pub proof fn law_the_choice_is_optimal(config: EcoTuneConfig, e: nat, c: nat, m: nat)
    requires
        c >= 2,
    ensures
        1 <= best_width(config, e, c, m) < c,
        best_score(config, e, c, m) == choice_score(
            config,
            e,
            c,
            m,
            best_width(config, e, c, m),
        ),
        forall|x: nat|
            1 <= x < c ==> #[trigger] choice_score(config, e, c, m, x) <= best_score(
                config,
                e,
                c,
                m,
            ),
        forall|x: nat|
            1 <= x < best_width(config, e, c, m) ==> #[trigger] choice_score(config, e, c, m, x)
                < best_score(config, e, c, m),
{
    lemma_best(config, e, c, m, (c - 1) as nat);
}

/// A way to organise the unit runs of a problem.
pub enum Plan {
    /// The last unit run: the merge that ends the problem.
    End,
    /// The first `x` unit runs become one run, organised by `first` if there is
    /// more than one of them, and the rest goes on by `rest`.
    Step { x: nat, first: Box<Plan>, rest: Box<Plan> },
}

/// A plan fits a problem.
pub open spec fn fits_problem(plan: Plan, c: nat) -> bool
    decreases plan,
{
    match plan {
        Plan::End => c == 1,
        Plan::Step { x, first, rest } => {
            &&& 1 <= x < c
            &&& x >= 2 ==> fits_problem(*first, x)
            &&& fits_problem(*rest, (c - x) as nat)
        },
    }
}

/// The score of a plan.
pub open spec fn plan_score(config: EcoTuneConfig, plan: Plan, e: nat, m: nat) -> int
    decreases plan,
{
    match plan {
        Plan::End => last_score(config, e, m),
        Plan::Step { x, first, rest } => {
            served(config, e, x) + (if x >= 2 {
                plan_score(config, *first, e, 0)
            } else {
                0
            }) + plan_score(config, *rest, e + 1, m + x)
        },
    }
}

/// No plan scores higher than the schedule that is chosen.
pub proof fn law_no_plan_scores_higher(
    config: EcoTuneConfig,
    plan: Plan,
    e: nat,
    c: nat,
    m: nat,
)
    requires
        fits_problem(plan, c),
    ensures
        plan_score(config, plan, e, m) <= best_score(config, e, c, m),
    decreases plan,
{
    match plan {
        Plan::End => {},
        Plan::Step { x, first, rest } => {
            law_the_choice_is_optimal(config, e, c, m);
            law_no_plan_scores_higher(config, *rest, e + 1, (c - x) as nat, m + x);
            if x >= 2 {
                law_no_plan_scores_higher(config, *first, e, x, 0);
            }
            assert(choice_score(config, e, c, m, x) <= best_score(config, e, c, m));
        },
    }
}

/// The plan that leaves every unit run alone.
pub open spec fn lazy_plan(c: nat) -> Plan
    decreases c,
{
    if c <= 1 {
        Plan::End
    } else {
        Plan::Step { x: 1, first: Box::new(Plan::End), rest: Box::new(lazy_plan((c - 1) as nat)) }
    }
}

/// The schedule that is chosen scores no less than never merging at all.
pub proof fn law_the_optimum_beats_never_merging(config: EcoTuneConfig)
    ensures
        plan_score(config, lazy_plan(config.round()), 0, config.carried()) <= best_score(
            config,
            0,
            config.round(),
            config.carried(),
        ),
{
    lemma_lazy_plan_fits(config.round());
    law_no_plan_scores_higher(
        config,
        lazy_plan(config.round()),
        0,
        config.round(),
        config.carried(),
    );
}

proof fn lemma_lazy_plan_fits(c: nat)
    requires
        c >= 1,
    ensures
        fits_problem(lazy_plan(c), c),
    decreases c,
{
    if c > 1 {
        lemma_lazy_plan_fits((c - 1) as nat);
    }
}

// ---------------------------------------------------------------------------
// How large scores get
// ---------------------------------------------------------------------------

/// 2^94, what is served in the longest time at the highest speed.
pub open spec fn score_unit() -> int {
    0x4000_0000_0000_0000_0000_0000
}

/// What no score of a problem of `c` unit runs and `m` units to carry exceeds.
pub open spec fn score_limit(c: nat, m: nat) -> int {
    (m + c + c * c) * score_unit()
}

/// The most units that a merge carries.
pub const MAX_UNITS: u64 = 0xffff_ffff;

proof fn lemma_served_bound(config: EcoTuneConfig, e: nat, x: nat)
    requires
        config.valid(),
        1 <= x <= MAX_ROUND,
    ensures
        -(x * score_unit()) <= served(config, e, x) <= x * score_unit(),
        x * score_unit() <= 0x2000_0000_0000_0000_0000_0000_0000,
        -0x8000_0000_0000_0000_0000 <= config.tm_interval - x * config.rewrite_time
            <= 0x8000_0000_0000_0000_0000,
{
    lemma_speed_bound(config, e + 1);
    let q = speed(config, e + 1) as int;
    let w = config.tm_interval as int;
    let t = config.rewrite_time as int;
    let u = score_unit();
    assert(0 <= x * t <= x * 0x40_0000_0000_0000 && x * 0x40_0000_0000_0000 <= 0x8000
        * 0x40_0000_0000_0000) by (nonlinear_arith)
        requires
            1 <= x <= 0x8000,
            0 <= t <= 0x40_0000_0000_0000,
    ;
    assert(x * u <= 0x8000 * u && u <= x * u) by (nonlinear_arith)
        requires
            1 <= x <= 0x8000,
            u >= 0,
    ;
    let d = w - x * t;
    let most = x * 0x40_0000_0000_0000;
    assert(-(most * 0x100_0000_0000) <= d * q <= most * 0x100_0000_0000) by (nonlinear_arith)
        requires
            -most <= d <= most,
            0 <= q <= 0x100_0000_0000,
    ;
    assert(0 <= w * q <= 0x40_0000_0000_0000 * 0x100_0000_0000) by (nonlinear_arith)
        requires
            0 <= w <= 0x40_0000_0000_0000,
            0 <= q <= 0x100_0000_0000,
    ;
}

proof fn lemma_last_bound(config: EcoTuneConfig, e: nat, m: nat)
    requires
        config.valid(),
        m + 1 <= MAX_UNITS,
    ensures
        0 <= (m + 1) * config.rewrite_time <= 0x40_0000_0000_0000_0000_0000,
        0 <= last_score(config, e, m) <= (m + 1) * score_unit(),
        (m + 1) * score_unit() <= 0x4000_0000_0000_0000_0000_0000_0000_0000,
{
    lemma_speed_bound(config, e);
    let q = merge_speed(config, e) as int;
    let t = config.rewrite_time as int;
    let u = score_unit();
    let most = (m + 1) * 0x40_0000_0000_0000;
    let a = (m + 1) * t;
    assert(0 <= a <= most && most <= 0x1_0000_0000 * 0x40_0000_0000_0000) by (nonlinear_arith)
        requires
            a == (m + 1) * t,
            most == (m + 1) * 0x40_0000_0000_0000,
            0 <= m + 1 <= 0x1_0000_0000,
            0 <= t <= 0x40_0000_0000_0000,
    ;
    assert(0 <= a * q <= most * 0x100_0000_0000) by (nonlinear_arith)
        requires
            0 <= a <= most,
            0 <= q <= 0x100_0000_0000,
    ;
    assert((m + 1) * u <= 0x1_0000_0000 * u) by (nonlinear_arith)
        requires
            m + 1 <= 0x1_0000_0000,
            u >= 0,
    ;
}

/// The limits of the parts of a choice.
proof fn lemma_limits_add(c: nat, m: nat, x: nat)
    requires
        1 <= x < c,
    ensures
        score_limit(x, 0) + x * score_unit() + score_limit((c - x) as nat, m + x) <= score_limit(
            c,
            m,
        ),
        score_limit(x, 0) >= 0,
        score_unit() + score_limit((c - 1) as nat, m + 1) <= score_limit(c, m),
{
    let u = score_unit();
    let y = (c - x) as nat;
    let z = (c - 1) as nat;
    let left = (x + x * x) as int;
    let right = (m + x + y + y * y) as int;
    let whole = (m + c + c * c) as int;
    let tail = (m + 1 + z + z * z) as int;
    assert(left + x + right <= whole && left >= 0) by (nonlinear_arith)
        requires
            left == x + x * x,
            right == m + x + y + y * y,
            whole == m + c + c * c,
            c == x + y,
            x >= 1,
            y >= 1,
            m >= 0,
    ;
    assert(1 + tail <= whole) by (nonlinear_arith)
        requires
            tail == m + 1 + z + z * z,
            whole == m + c + c * c,
            c == z + 1,
            z >= 1,
    ;
    assert(left * u + x * u + right * u <= whole * u) by (nonlinear_arith)
        requires
            left + x + right <= whole,
            u >= 0,
    ;
    assert(u + tail * u <= whole * u) by (nonlinear_arith)
        requires
            1 + tail <= whole,
            u >= 0,
    ;
    assert(left * u >= 0) by (nonlinear_arith)
        requires
            left >= 0,
            u >= 0,
    ;
}

/// Scores stay within their limit.
proof fn lemma_score_bound(config: EcoTuneConfig, e: nat, c: nat, m: nat)
    requires
        config.valid(),
        1 <= c <= MAX_ROUND,
        m + c <= MAX_UNITS,
    ensures
        -score_limit(c, m) <= best_score(config, e, c, m) <= score_limit(c, m),
        forall|x: nat|
            1 <= x < c ==> -score_limit(c, m) <= #[trigger] choice_score(config, e, c, m, x)
                <= score_limit(c, m),
    decreases c,
{
    if c == 1 {
        lemma_last_bound(config, e, m);
        let u = score_unit();
        assert((m + 1) * u <= (m + 1 + 1 * 1) * u && (m + 1 + 1 * 1) * u >= 0) by (nonlinear_arith)
            requires
                u >= 0,
                m >= 0,
        ;
    } else {
        assert forall|x: nat| 1 <= x < c implies -score_limit(c, m) <= #[trigger] choice_score(
            config,
            e,
            c,
            m,
            x,
        ) <= score_limit(c, m) by {
            lemma_served_bound(config, e, x);
            lemma_limits_add(c, m, x);
            lemma_score_bound(config, e + 1, (c - x) as nat, m + x);
            if x >= 2 {
                lemma_score_bound(config, e, x, 0);
            }
        }
        law_the_choice_is_optimal(config, e, c, m);
        assert(choice_score(config, e, c, m, best_width(config, e, c, m)) == best_score(
            config,
            e,
            c,
            m,
        ));
    }
}

proof fn lemma_limit_fits(c: nat, m: nat)
    requires
        1 <= c <= MAX_ROUND,
        m + c <= MAX_UNITS,
    ensures
        score_limit(c, m) <= 0x5000_0000_0000_0000_0000_0000_0000_0000,
{
    let u = score_unit();
    let n = (m + c + c * c) as int;
    assert(c * c <= 0x8000 * 0x8000) by (nonlinear_arith)
        requires
            c <= 0x8000,
    ;
    assert(n * u <= 0x1_4000_0000 * u) by (nonlinear_arith)
        requires
            n <= 0x1_4000_0000,
            u >= 0,
    ;
}

// ---------------------------------------------------------------------------
// Solving
// ---------------------------------------------------------------------------

/// What to do in a problem.
#[derive(Debug, Clone, Copy, PartialEq, Eq, Structural)]
pub struct Decision {
    /// The best score from here on.
    pub score: i128,
    /// Unit runs that go into the first run that stays; one means to leave this
    /// one alone.
    pub merge_width: usize,
}

/// A decision is the best.
pub open spec fn is_best(
    decision: Decision,
    config: EcoTuneConfig,
    e: nat,
    c: nat,
    m: nat,
) -> bool {
    &&& decision.score == best_score(config, e, c, m)
    &&& decision.merge_width == best_width(config, e, c, m)
}

/// The decisions for `c` unit runs to come and `t` units in all, by runs in the
/// main level.
pub open spec fn is_row(
    row: Seq<Decision>,
    config: EcoTuneConfig,
    c: nat,
    t: nat,
    round: nat,
) -> bool {
    &&& row.len() == round - c + 1
    &&& forall|e: int|
        0 <= e < row.len() ==> is_best(
            #[trigger] row[e],
            config,
            e as nat,
            c,
            (t - c) as nat,
        )
}

/// The decisions for `t` units in all, by unit runs to come.
pub open spec fn is_family(
    rows: Seq<Vec<Decision>>,
    config: EcoTuneConfig,
    t: nat,
    upto: nat,
    round: nat,
) -> bool {
    &&& rows.len() == upto + 1
    &&& forall|c: int|
        1 <= c <= upto ==> is_row((#[trigger] rows[c])@, config, c as nat, t, round)
}

/// The decisions for problems that begin with nothing pending.
pub open spec fn are_families(
    families: Seq<Vec<Vec<Decision>>>,
    config: EcoTuneConfig,
    round: nat,
) -> bool {
    forall|t: int|
        1 <= t < families.len() ==> is_family(
            (#[trigger] families[t])@,
            config,
            t as nat,
            t as nat,
            round,
        )
}

/// What is served while the first `x` unit runs are merged, or while the first is
/// left alone.
fn serve(config: &EcoTuneConfig, e: usize, x: usize) -> (score: i128)
    requires
        config.valid(),
        1 <= x <= MAX_ROUND,
        e < MAX_ROUND,
    ensures
        score == served(*config, e as nat, x as nat),
{
    proof {
        lemma_served_bound(*config, e as nat, x as nat);
        lemma_speed_bound(*config, (e + 1) as nat);
    }
    let q: i128 = config.query_speed(e + 1) as i128;
    if x == 1 {
        config.tm_interval as i128 * q
    } else {
        proof {
            assert(0 <= x * config.rewrite_time <= 0x8000 * 0x40_0000_0000_0000)
                by (nonlinear_arith)
                requires
                    0 <= x <= 0x8000,
                    0 <= config.rewrite_time <= 0x40_0000_0000_0000,
            ;
        }
        let cost: i128 = x as i128 * config.rewrite_time as i128;
        (config.tm_interval as i128 - cost) * q
    }
}

/// What to do in one problem, once everything that it leads to is known.
fn decide(
    config: &EcoTuneConfig,
    families: &Vec<Vec<Vec<Decision>>>,
    rows: &Vec<Vec<Decision>>,
    e: usize,
    c: usize,
    t: u64,
    round: usize,
) -> (decision: Decision)
    requires
        config.valid(),
        1 <= round <= MAX_ROUND,
        1 <= c,
        e + c <= round,
        c <= t <= MAX_UNITS,
        families@.len() >= c,
        are_families(families@, *config, round as nat),
        is_family(rows@, *config, t as nat, (c - 1) as nat, round as nat),
    ensures
        is_best(decision, *config, e as nat, c as nat, (t - c) as nat),
{
    let ghost m = (t - c) as nat;
    if c == 1 {
        proof {
            lemma_last_bound(*config, e as nat, m);
            lemma_speed_bound(*config, e as nat);
        }
        let units: i128 = t as i128;
        let time: i128 = units * config.rewrite_time as i128;
        return Decision { score: time * config.mlc_query_speed(e) as i128, merge_width: 1 };
    }
    proof {
        lemma_score_bound(*config, e as nat, c as nat, m);
        lemma_limit_fits(c as nat, m);
        lemma_served_bound(*config, e as nat, 1);
        assert(is_row(rows@[c - 1]@, *config, (c - 1) as nat, t as nat, round as nat));
        assert(is_best(
            rows@[c - 1]@[e + 1],
            *config,
            (e + 1) as nat,
            (c - 1) as nat,
            (t - (c - 1)) as nat,
        ));
        assert(choice_score(*config, e as nat, c as nat, m, 1) == served(*config, e as nat, 1)
            + best_score(*config, (e + 1) as nat, (c - 1) as nat, m + 1));
    }
    let mut best = Decision {
        score: serve(config, e, 1) + rows[c - 1][e + 1].score,
        merge_width: 1,
    };
    let mut x: usize = 2;
    while x < c
        invariant
            2 <= x <= c,
            config.valid(),
            1 <= round <= MAX_ROUND,
            e + c <= round,
            c <= t <= MAX_UNITS,
            m == (t - c) as nat,
            families@.len() >= c,
            are_families(families@, *config, round as nat),
            is_family(rows@, *config, t as nat, (c - 1) as nat, round as nat),
            best.score == best_upto(*config, e as nat, c as nat, m, (x - 1) as nat),
            best.merge_width == width_upto(*config, e as nat, c as nat, m, (x - 1) as nat),
        decreases c - x,
    {
        proof {
            lemma_parts_of_choice(*config, e as nat, c as nat, m, x as nat);
            assert(is_family(families@[x as int]@, *config, x as nat, x as nat, round as nat));
            assert(is_row(
                families@[x as int]@[x as int]@,
                *config,
                x as nat,
                x as nat,
                round as nat,
            ));
            assert(is_best(
                families@[x as int]@[x as int]@[e as int],
                *config,
                e as nat,
                x as nat,
                0,
            ));
            assert(is_row(rows@[c - x]@, *config, (c - x) as nat, t as nat, round as nat));
            assert(is_best(
                rows@[c - x]@[e + 1],
                *config,
                (e + 1) as nat,
                (c - x) as nat,
                (m + x) as nat,
            ));
        }
        let left: i128 = families[x][x][e].score;
        let during: i128 = serve(config, e, x);
        let right: i128 = rows[c - x][e + 1].score;
        let score: i128 = left + during + right;
        if score > best.score {
            best = Decision { score, merge_width: x };
        }
        x = x + 1;
    }
    best
}

/// The parts of a choice, and that they can be added up.
proof fn lemma_parts_of_choice(config: EcoTuneConfig, e: nat, c: nat, m: nat, x: nat)
    requires
        config.valid(),
        2 <= x < c,
        c <= MAX_ROUND,
        m + c <= MAX_UNITS,
    ensures
        choice_score(config, e, c, m, x) == best_score(config, e, x, 0) + served(config, e, x)
            + best_score(config, e + 1, (c - x) as nat, m + x),
        i128::MIN <= choice_score(config, e, c, m, x) <= i128::MAX,
        i128::MIN <= best_score(config, e, x, 0) + served(config, e, x) <= i128::MAX,
{
    lemma_score_bound(config, e, c, m);
    lemma_limit_fits(c, m);
    lemma_score_bound(config, e, x, 0);
    lemma_limit_fits(x, 0);
    lemma_served_bound(config, e, x);
}

/// Decides every problem of `t` units in all and up to `upto` unit runs to come.
fn solve_family(
    config: &EcoTuneConfig,
    families: &Vec<Vec<Vec<Decision>>>,
    t: u64,
    upto: usize,
    round: usize,
) -> (rows: Vec<Vec<Decision>>)
    requires
        config.valid(),
        1 <= round <= MAX_ROUND,
        upto <= round,
        upto <= t <= MAX_UNITS,
        families@.len() >= upto,
        are_families(families@, *config, round as nat),
    ensures
        is_family(rows@, *config, t as nat, upto as nat, round as nat),
{
    let mut rows: Vec<Vec<Decision>> = Vec::new();
    rows.push(Vec::new());
    let mut c: usize = 1;
    while c <= upto
        invariant
            1 <= c <= upto + 1,
            config.valid(),
            1 <= round <= MAX_ROUND,
            upto <= round,
            upto <= t <= MAX_UNITS,
            families@.len() >= upto,
            are_families(families@, *config, round as nat),
            is_family(rows@, *config, t as nat, (c - 1) as nat, round as nat),
        decreases upto + 1 - c,
    {
        let mut row: Vec<Decision> = Vec::new();
        let mut e: usize = 0;
        while e + c <= round
            invariant
                1 <= c <= upto,
                e + c <= round + 1,
                config.valid(),
                1 <= round <= MAX_ROUND,
                upto <= round,
                upto <= t <= MAX_UNITS,
                families@.len() >= upto,
                are_families(families@, *config, round as nat),
                is_family(rows@, *config, t as nat, (c - 1) as nat, round as nat),
                row@.len() == e,
                forall|i: int|
                    0 <= i < e ==> is_best(
                        #[trigger] row@[i],
                        *config,
                        i as nat,
                        c as nat,
                        (t - c) as nat,
                    ),
            decreases round + 1 - c - e,
        {
            row.push(decide(config, families, &rows, e, c, t, round));
            e = e + 1;
        }
        let ghost before = rows@;
        let ghost content = row@;
        rows.push(row);
        proof {
            assert(is_row(content, *config, c as nat, t as nat, round as nat));
            assert forall|d: int| 1 <= d <= c implies is_row(
                (#[trigger] rows@[d])@,
                *config,
                d as nat,
                t as nat,
                round as nat,
            ) by {
                if d < c {
                    assert(rows@[d] == before[d]);
                }
            }
        }
        c = c + 1;
    }
    rows
}

/// The search comes to this problem.
pub open spec fn reachable(config: EcoTuneConfig, e: nat, c: nat, m: nat) -> bool {
    ||| on_main_line(config, e, c, m)
    ||| in_sub_problem(config, e, c, m)
}

/// The problem is what is left of the round once some of its runs are made.
pub open spec fn on_main_line(config: EcoTuneConfig, e: nat, c: nat, m: nat) -> bool {
    let round = config.round();
    &&& 1 <= c <= round
    &&& m == config.carried() + (round - c)
    &&& e == 0 && c == round || 1 <= e <= round - c
}

/// The problem is that of organising some runs that become one, or what is left
/// of it.
pub open spec fn in_sub_problem(config: EcoTuneConfig, e: nat, c: nat, m: nat) -> bool {
    let round = config.round();
    ||| m == 0 && c >= 2 && c + e < round
    ||| m >= 1 && e >= 1 && c >= 1 && c + m < round && c + e < round
}

/// A problem leads to another.
pub open spec fn leads_to(e: nat, c: nat, m: nat, e2: nat, c2: nat, m2: nat) -> bool {
    // What is left after the first run,
    ||| e2 == e + 1 && 1 <= c2 < c && m2 == m + (c - c2)
    // and how to organise the first run.
    ||| e2 == e && 2 <= c2 < c && m2 == 0
}

/// What the search comes to is the round itself and whatever a problem that it
/// comes to leads to, and nothing else.
pub proof fn law_reachable_problems(config: EcoTuneConfig, e: nat, c: nat, m: nat)
    ensures
        reachable(config, 0, config.round(), config.carried()),
        reachable(config, e, c, m) ==> forall|e2: nat, c2: nat, m2: nat| #[trigger]
            leads_to(e, c, m, e2, c2, m2) ==> reachable(config, e2, c2, m2),
        reachable(config, e, c, m) ==> (e == 0 && c == config.round() && m == config.carried())
            || exists|e1: nat, c1: nat, m1: nat| #[trigger]
            leads_to(e1, c1, m1, e, c, m) && reachable(config, e1, c1, m1),
{
    let round = config.round();
    let root = config.carried();
    if reachable(config, e, c, m) {
        if on_main_line(config, e, c, m) {
            if e == 1 {
                assert(leads_to(0, round, root, e, c, m));
            } else if e >= 2 {
                assert(leads_to((e - 1) as nat, c + 1, (m - 1) as nat, e, c, m));
                assert(reachable(config, (e - 1) as nat, c + 1, (m - 1) as nat));
            }
        } else if m == 0 {
            if e == 0 {
                assert(leads_to(0, round, root, e, c, m));
            } else {
                assert(leads_to(e, (round - e) as nat, root + e, e, c, m));
                assert(reachable(config, e, (round - e) as nat, root + e));
            }
        } else if e == 1 {
            assert(leads_to(0, c + m, 0, e, c, m));
            assert(reachable(config, 0, c + m, 0));
        } else {
            assert(leads_to((e - 1) as nat, c + 1, (m - 1) as nat, e, c, m));
            assert(reachable(config, (e - 1) as nat, c + 1, (m - 1) as nat));
        }
    }
}

/// A schedule for a round, solved.
#[derive(Debug, Clone)]
pub struct EcoTunePolicy {
    config: EcoTuneConfig,
    /// What to do in sub-problems, by their units in all, unit runs to come and
    /// runs in the main level.
    families: Vec<Vec<Vec<Decision>>>,
    /// What to do in the round itself, by unit runs to come and runs in the main
    /// level.
    main_line: Vec<Vec<Decision>>,
    score: i128,
}

impl EcoTunePolicy {
    /// What the schedule was made for.
    pub closed spec fn made_for(&self) -> EcoTuneConfig {
        self.config
    }

    /// Everything that can be asked is solved.
    pub closed spec fn wf(&self) -> bool {
        let round = self.config.round();
        &&& self.config.valid()
        &&& self.families@.len() == round
        &&& are_families(self.families@, self.config, round)
        &&& is_family(
            self.main_line@,
            self.config,
            self.config.carried() + round,
            round,
            round,
        )
        &&& self.score == self.config.tm_interval * speed(self.config, 0) + best_score(
            self.config,
            0,
            round,
            self.config.carried(),
        )
    }

    /// Solves the dynamic program.
    pub fn solve(config: EcoTuneConfig) -> (policy: Self)
        requires
            config.valid(),
        ensures
            policy.wf(),
            policy.made_for() == config,
    {
        let round: usize = if config.runs_per_round == 0 {
            1
        } else {
            config.runs_per_round
        };
        proof {
            assert(config.last_level_ratio * round >= 0) by (nonlinear_arith)
                requires
                    0 <= config.last_level_ratio,
                    0 <= round,
            ;
        }
        let carried: u64 = config.last_level_ratio as u64 * round as u64;
        let mut families: Vec<Vec<Vec<Decision>>> = Vec::new();
        families.push(Vec::new());
        let mut t: usize = 1;
        while t < round
            invariant
                1 <= t <= round,
                config.valid(),
                1 <= round <= MAX_ROUND,
                families@.len() == t,
                are_families(families@, config, round as nat),
            decreases round - t,
        {
            let rows: Vec<Vec<Decision>> = solve_family(&config, &families, t as u64, t, round);
            let ghost before = families@;
            let ghost content = rows@;
            families.push(rows);
            proof {
                assert forall|i: int| 1 <= i < families@.len() implies is_family(
                    (#[trigger] families@[i])@,
                    config,
                    i as nat,
                    i as nat,
                    round as nat,
                ) by {
                    if i < t {
                        assert(families@[i] == before[i]);
                    }
                }
            }
            t = t + 1;
        }
        let main_line: Vec<Vec<Decision>> = solve_family(
            &config,
            &families,
            carried + round as u64,
            round,
            round,
        );
        proof {
            assert(is_row(
                main_line@[round as int]@,
                config,
                round as nat,
                (carried + round) as nat,
                round as nat,
            ));
            assert(is_best(
                main_line@[round as int]@[0],
                config,
                0,
                round as nat,
                carried as nat,
            ));
            lemma_score_bound(config, 0, round as nat, carried as nat);
            lemma_limit_fits(round as nat, carried as nat);
            lemma_speed_bound(config, 0);
            let q = speed(config, 0) as int;
            let w = config.tm_interval as int;
            assert(0 <= w * q <= 0x40_0000_0000_0000 * 0x100_0000_0000) by (nonlinear_arith)
                requires
                    0 <= w <= 0x40_0000_0000_0000,
                    0 <= q <= 0x100_0000_0000,
            ;
        }
        // The first interval is served with an empty main level under every
        // schedule.
        let start: i128 = config.tm_interval as i128 * config.query_speed(0) as i128;
        let score: i128 = start + main_line[round][0].score;
        EcoTunePolicy { config, families, main_line, score }
    }

    /// The score of the round: queries served under the best schedule.
    pub fn score(&self) -> (score: i128)
        requires
            self.wf(),
        ensures
            score == self.made_for().tm_interval * speed(self.made_for(), 0) + best_score(
                self.made_for(),
                0,
                self.made_for().round(),
                self.made_for().carried(),
            ),
    {
        self.score
    }

    /// What the schedule was made for.
    pub fn config(&self) -> (config: &EcoTuneConfig)
        ensures
            *config == self.made_for(),
    {
        &self.config
    }

    fn round(&self) -> (round: usize)
        ensures
            round == self.made_for().round(),
    {
        if self.config.runs_per_round == 0 {
            1
        } else {
            self.config.runs_per_round
        }
    }

    /// What to do in a problem; nothing if the search does not come to it.
    pub fn decision(
        &self,
        existing_runs: usize,
        incoming: usize,
        pending: usize,
    ) -> (decision: Option<Decision>)
        requires
            self.wf(),
        ensures
            match decision {
                Some(decision) => reachable(
                    self.made_for(),
                    existing_runs as nat,
                    incoming as nat,
                    pending as nat,
                ) && is_best(
                    decision,
                    self.made_for(),
                    existing_runs as nat,
                    incoming as nat,
                    pending as nat,
                ),
                None => !reachable(
                    self.made_for(),
                    existing_runs as nat,
                    incoming as nat,
                    pending as nat,
                ),
            },
    {
        let round: usize = self.round();
        let e: usize = existing_runs;
        let c: usize = incoming;
        if c == 0 || c > round || e > round - c {
            return None;
        }
        let ratio: u64 = self.config.last_level_ratio as u64;
        proof {
            assert(0 <= ratio * round) by (nonlinear_arith)
                requires
                    0 <= ratio,
                    0 <= round,
            ;
        }
        let carried: u64 = ratio * round as u64;
        if pending as u64 == carried + (round - c) as u64 && ((e == 0 && c == round) || (1 <= e
            && e <= round - c)) {
            proof {
                assert(is_row(
                    self.main_line@[c as int]@,
                    self.config,
                    c as nat,
                    self.config.carried() + round as nat,
                    round as nat,
                ));
                assert(is_best(
                    self.main_line@[c as int]@[e as int],
                    self.config,
                    e as nat,
                    c as nat,
                    pending as nat,
                ));
            }
            return Some(self.main_line[c][e]);
        }
        if pending > round {
            return None;
        }
        if (pending == 0 && c >= 2 && c + e < round) || (pending >= 1 && e >= 1 && c + pending
            < round && c + e < round) {
            let t: usize = c + pending;
            proof {
                assert(is_family(
                    self.families@[t as int]@,
                    self.config,
                    t as nat,
                    t as nat,
                    round as nat,
                ));
                assert(is_row(
                    self.families@[t as int]@[c as int]@,
                    self.config,
                    c as nat,
                    t as nat,
                    round as nat,
                ));
                assert(is_best(
                    self.families@[t as int]@[c as int]@[e as int],
                    self.config,
                    e as nat,
                    c as nat,
                    pending as nat,
                ));
            }
            return Some(self.families[t][c][e]);
        }
        None
    }

    /// How many unit runs to merge in a problem.
    pub fn merge_width(
        &self,
        existing_runs: usize,
        incoming: usize,
        pending: usize,
    ) -> (width: Option<usize>)
        requires
            self.wf(),
        ensures
            match width {
                Some(width) => reachable(
                    self.made_for(),
                    existing_runs as nat,
                    incoming as nat,
                    pending as nat,
                ) && width == best_width(
                    self.made_for(),
                    existing_runs as nat,
                    incoming as nat,
                    pending as nat,
                ),
                None => !reachable(
                    self.made_for(),
                    existing_runs as nat,
                    incoming as nat,
                    pending as nat,
                ),
            },
    {
        match self.decision(existing_runs, incoming, pending) {
            Some(decision) => Some(decision.merge_width),
            None => None,
        }
    }
}

// ---------------------------------------------------------------------------
// The timeline
// ---------------------------------------------------------------------------

/// One merge of a round.
#[derive(Debug, Clone, Copy, PartialEq, Eq, Structural)]
pub struct ScheduledMerge {
    /// Unit runs made before it.
    pub after_unit_runs: usize,
    /// Unit runs that it combines.
    pub width: usize,
    /// Whether it is the global compaction that ends the round, which is not a
    /// choice, and carries the last level along.
    pub is_global: bool,
}

/// The merges of a problem that begins after `base` unit runs. Every merge ends a
/// problem: it carries the last unit run and everything pending.
pub open spec fn merges_of(
    config: EcoTuneConfig,
    e: nat,
    c: nat,
    m: nat,
    base: nat,
    rightmost: bool,
) -> Seq<ScheduledMerge>
    decreases c,
{
    if c == 0 {
        Seq::empty()
    } else if c == 1 {
        seq![
            ScheduledMerge {
                after_unit_runs: (base + 1) as usize,
                width: (m + 1) as usize,
                is_global: rightmost,
            },
        ]
    } else {
        let x = best_width(config, e, c, m);
        if x == 0 || x >= c {
            Seq::empty()
        } else if x == 1 {
            merges_of(config, e + 1, (c - 1) as nat, m + 1, base + 1, rightmost)
        } else {
            merges_of(config, e, x, 0, base, false) + merges_of(
                config,
                e + 1,
                (c - x) as nat,
                m + x,
                base + x,
                rightmost,
            )
        }
    }
}

/// The merges of a round.
pub open spec fn round_merges(config: EcoTuneConfig) -> Seq<ScheduledMerge> {
    merges_of(config, 0, config.round(), config.carried(), 0, true)
}

/// The merges among others that are choices.
pub open spec fn chosen(merges: Seq<ScheduledMerge>) -> Seq<ScheduledMerge> {
    merges.filter(|merge: ScheduledMerge| !merge.is_global)
}

/// Merges come one after the other, after more than `low` and no more than `high`
/// unit runs.
pub open spec fn in_turn(merges: Seq<ScheduledMerge>, low: nat, high: nat) -> bool {
    &&& forall|i: int|
        0 <= i < merges.len() ==> low < (#[trigger] merges[i]).after_unit_runs <= high
    &&& forall|i: int, j: int|
        #![trigger merges[i], merges[j]]
        0 <= i < j < merges.len() ==> merges[i].after_unit_runs < merges[j].after_unit_runs
}

proof fn lemma_in_turn_concat(
    a: Seq<ScheduledMerge>,
    b: Seq<ScheduledMerge>,
    low: nat,
    middle: nat,
    high: nat,
)
    requires
        low <= middle <= high,
        in_turn(a, low, middle),
        in_turn(b, middle, high),
    ensures
        in_turn(a + b, low, high),
{
    let all = a + b;
    assert forall|i: int| 0 <= i < all.len() implies low < (#[trigger] all[i]).after_unit_runs
        <= high by {
        if i < a.len() {
            assert(all[i] == a[i]);
        } else {
            assert(all[i] == b[i - a.len()]);
        }
    }
    assert forall|i: int, j: int|
        #![trigger all[i], all[j]]
        0 <= i < j < all.len() implies all[i].after_unit_runs < all[j].after_unit_runs by {
        if j < a.len() {
            assert(all[i] == a[i] && all[j] == a[j]);
        } else if i >= a.len() {
            assert(all[i] == b[i - a.len()] && all[j] == b[j - a.len()]);
        } else {
            assert(all[i] == a[i] && all[j] == b[j - a.len()]);
        }
    }
}

/// The merges of a problem come in turn; the last ends it, and takes all of its
/// units; the others are choices, and take no more than was made before them.
pub proof fn lemma_merges(
    config: EcoTuneConfig,
    e: nat,
    c: nat,
    m: nat,
    base: nat,
    rightmost: bool,
)
    requires
        c >= 1,
        base + c <= MAX_ROUND,
        m + c <= MAX_UNITS,
    ensures
        ({
            let merges = merges_of(config, e, c, m, base, rightmost);
            &&& merges.len() > 0
            &&& in_turn(merges, base, base + c)
            &&& merges.last() == (ScheduledMerge {
                after_unit_runs: (base + c) as usize,
                width: (m + c) as usize,
                is_global: rightmost,
            })
            &&& forall|i: int|
                0 <= i < merges.len() - 1 ==> !(#[trigger] merges[i]).is_global && 2
                    <= merges[i].width <= merges[i].after_unit_runs
        }),
    decreases c,
{
    let merges = merges_of(config, e, c, m, base, rightmost);
    if c > 1 {
        law_the_choice_is_optimal(config, e, c, m);
        let x = best_width(config, e, c, m);
        if x == 1 {
            lemma_merges(config, e + 1, (c - 1) as nat, m + 1, base + 1, rightmost);
            assert(in_turn(merges, base, base + c)) by {
                assert forall|i: int| 0 <= i < merges.len() implies base < (
                #[trigger] merges[i]).after_unit_runs <= base + c by {}
            }
        } else {
            lemma_merges(config, e, x, 0, base, false);
            lemma_merges(config, e + 1, (c - x) as nat, m + x, base + x, rightmost);
            let a = merges_of(config, e, x, 0, base, false);
            let b = merges_of(config, e + 1, (c - x) as nat, m + x, base + x, rightmost);
            lemma_in_turn_concat(a, b, base, base + x, base + c);
            assert forall|i: int| 0 <= i < merges.len() - 1 implies !(
            #[trigger] merges[i]).is_global && 2 <= merges[i].width
                <= merges[i].after_unit_runs by {
                if i < a.len() {
                    assert(merges[i] == a[i]);
                    if i == a.len() - 1 {
                        assert(a[i] == a.last());
                    }
                } else {
                    assert(merges[i] == b[i - a.len()]);
                }
            }
        }
    }
}

/// The timeline of a round is consistent: merges come one after the other, none
/// after more unit runs than the round makes; the last is the global compaction,
/// at the end of the round, and takes everything; and every other is a choice,
/// which combines at least two unit runs and no more than were made before it.
pub proof fn law_the_schedule_is_consistent(config: EcoTuneConfig)
    requires
        config.valid(),
    ensures
        ({
            let merges = round_merges(config);
            &&& merges.len() > 0
            &&& in_turn(merges, 0, config.round())
            &&& merges.last() == (ScheduledMerge {
                after_unit_runs: config.round() as usize,
                width: (config.carried() + config.round()) as usize,
                is_global: true,
            })
            &&& forall|i: int|
                0 <= i < merges.len() - 1 ==> !(#[trigger] merges[i]).is_global && 2
                    <= merges[i].width <= merges[i].after_unit_runs
        }),
{
    lemma_merges(config, 0, config.round(), config.carried(), 0, true);
}

impl EcoTunePolicy {
    /// The merges of a problem, added to others.
    fn walk(
        &self,
        existing: usize,
        incoming: usize,
        pending: usize,
        base: usize,
        rightmost: bool,
        merges: &mut Vec<ScheduledMerge>,
    )
        requires
            self.wf(),
            reachable(self.made_for(), existing as nat, incoming as nat, pending as nat),
            base + incoming <= MAX_ROUND,
            pending + incoming <= MAX_UNITS,
            existing + incoming <= MAX_ROUND,
        ensures
            final(merges)@ == old(merges)@ + merges_of(
                self.made_for(),
                existing as nat,
                incoming as nat,
                pending as nat,
                base as nat,
                rightmost,
            ),
        decreases incoming,
    {
        let ghost start = merges@;
        let ghost config = self.config;
        if incoming == 1 {
            merges.push(
                ScheduledMerge {
                    after_unit_runs: base + 1,
                    width: pending + 1,
                    is_global: rightmost,
                },
            );
            proof {
                assert(merges@ =~= start + merges_of(
                    config,
                    existing as nat,
                    incoming as nat,
                    pending as nat,
                    base as nat,
                    rightmost,
                ));
            }
            return ;
        }
        let x: usize = match self.decision(existing, incoming, pending) {
            Some(decision) => decision.merge_width,
            None => {
                return ;
            },
        };
        proof {
            law_the_choice_is_optimal(
                config,
                existing as nat,
                incoming as nat,
                pending as nat,
            );
            law_reachable_problems(config, existing as nat, incoming as nat, pending as nat);
            assert(leads_to(
                existing as nat,
                incoming as nat,
                pending as nat,
                (existing + 1) as nat,
                (incoming - x) as nat,
                (pending + x) as nat,
            ));
        }
        if x == 1 {
            self.walk(existing + 1, incoming - 1, pending + 1, base + 1, rightmost, merges);
            return ;
        }
        proof {
            assert(leads_to(
                existing as nat,
                incoming as nat,
                pending as nat,
                existing as nat,
                x as nat,
                0,
            ));
        }
        // The first x runs are organised on their own; the merge that ends that
        // makes them one run.
        self.walk(existing, x, 0, base, false, merges);
        self.walk(existing + 1, incoming - x, pending + x, base + x, rightmost, merges);
        proof {
            assert(merges@ =~= start + merges_of(
                config,
                existing as nat,
                incoming as nat,
                pending as nat,
                base as nat,
                rightmost,
            ));
        }
    }

    /// The merges of the round, in the order in which they come.
    pub fn schedule(&self) -> (merges: Vec<ScheduledMerge>)
        requires
            self.wf(),
        ensures
            merges@ == round_merges(self.made_for()),
            in_turn(merges@, 0, self.made_for().round()),
    {
        let round: usize = self.round();
        let mut merges: Vec<ScheduledMerge> = Vec::new();
        proof {
            law_reachable_problems(self.config, 0, 0, 0);
            law_the_schedule_is_consistent(self.config);
        }
        let carried: usize = self.config.last_level_ratio * round;
        self.walk(0, round, carried, 0, true, &mut merges);
        proof {
            assert(Seq::<ScheduledMerge>::empty() + round_merges(self.config) =~= round_merges(
                self.config,
            ));
        }
        merges
    }

    /// The merges of the round that are choices, without the global compaction
    /// that ends it.
    pub fn chosen_merges(&self) -> (merges: Vec<ScheduledMerge>)
        requires
            self.wf(),
        ensures
            merges@ == chosen(round_merges(self.made_for())),
    {
        let all: Vec<ScheduledMerge> = self.schedule();
        let ghost keep = |merge: ScheduledMerge| !merge.is_global;
        let mut merges: Vec<ScheduledMerge> = Vec::new();
        let mut i: usize = 0;
        proof {
            reveal(Seq::filter);
            assert(merges@ =~= all@.take(0).filter(keep));
        }
        while i < all.len()
            invariant
                i <= all@.len(),
                keep == (|merge: ScheduledMerge| !merge.is_global),
                merges@ == all@.take(i as int).filter(keep),
            decreases all@.len() - i,
        {
            proof {
                reveal(Seq::filter);
                assert(all@.take(i + 1).drop_last() =~= all@.take(i as int));
            }
            if !all[i].is_global {
                merges.push(all[i]);
            }
            i = i + 1;
        }
        proof {
            assert(all@.take(i as int) =~= all@);
        }
        merges
    }
}

} // verus!
