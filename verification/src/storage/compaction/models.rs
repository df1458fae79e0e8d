//! What the models that choose between policies compute.
//!
//! EcoTune's schedule is that of a plan that no other beats, with costs and speeds that
//! go by runs; what a tuner learns goes by what missions cost; and policies that are
//! carried down the tree obey their recurrence.

use vstd::prelude::*;

use super::ecotune::{
    best_score, best_width, chosen, fits_problem, last_score, law_no_plan_scores_higher,
    law_the_choice_is_optimal, law_the_schedule_is_consistent, lemma_cost_bound, merge_speed,
    merges_of, plan_score, query_cost, round_merges, served, speed, EcoTuneConfig, Plan,
    ScheduledMerge, UNIT,
};
use super::lerp::{
    best_action, credited, explores, law_values_stay_within_limits, learned, observed, state_for,
    value_at, values_in, LerpConfig, LerpView, Mission, StateView, ValuesView, MAX_LATENCY,
    VALUE_LIMIT,
};
use super::propagation::{bounded, follows};

verus! {

// ---------------------------------------------------------------------------
// EcoTune
// ---------------------------------------------------------------------------

/// The cost of a query goes up by the share of long scans with each run; with none it is
/// that of two runs for a long scan and of one, with the filters' errors, for any other.
pub proof fn law_costs_go_by_runs(config: EcoTuneConfig, e: nat)
    requires
        config.shares(),
    ensures
        ({
            let r = config.long_range_ratio as int;
            let f = config.false_positive_rate as int;
            let one = 0x100_0000_0000int;
            &&& query_cost(config, 0) == 2 * r * one + (one - r) * (one + f)
            &&& query_cost(config, e + 1) == query_cost(config, e) + r * one
        }),
{
    let r = config.long_range_ratio as int;
    let f = config.false_positive_rate as int;
    let one = 0x100_0000_0000int;
    assert((e + 3) * r * one == (e + 2) * r * one + r * one) by (nonlinear_arith);
    assert((one - r) * (one + f) >= 0) by (nonlinear_arith)
        requires
            0 <= r <= one,
            f >= 0,
    ;
    assert((e + 2) * r * one >= 0 && (e + 3) * r * one >= 0) by (nonlinear_arith)
        requires
            r >= 0,
            one >= 0,
            e >= 0,
    ;
    assert((0 + 2) * r * one == 2 * r * one);
    assert(2 * r * one >= 0) by (nonlinear_arith)
        requires
            r >= 0,
            one >= 0,
    ;
}

/// The speed of queries is one divided by their cost, rounded down, and while a merge
/// runs the given share of it.
pub proof fn law_speeds_are_the_inverse_of_costs(config: EcoTuneConfig, e: nat)
    requires
        config.shares(),
    ensures
        ({
            let q = speed(config, e) as int;
            let slow = merge_speed(config, e) as int;
            let cost = query_cost(config, e) as int;
            &&& q * cost <= 0x100_0000_0000_0000_0000_0000_0000_0000
            &&& 0x100_0000_0000_0000_0000_0000_0000_0000 < (q + 1) * cost
            &&& slow * 0x100_0000_0000 <= q * config.mlc_query_factor
            &&& q * config.mlc_query_factor < (slow + 1) * 0x100_0000_0000
        }),
{
    reveal(speed);
    reveal(merge_speed);
    lemma_cost_bound(config, e);
    let cost = query_cost(config, e) as int;
    let top = 0x100_0000_0000_0000_0000_0000_0000_0000int;
    let q = speed(config, e) as int;
    assert(q * cost <= top < (q + 1) * cost) by (nonlinear_arith)
        requires
            q == top / cost,
            cost > 0,
    ;
    let product = q * config.mlc_query_factor;
    let slow = merge_speed(config, e) as int;
    let one = 0x100_0000_0000int;
    assert(product >= 0) by (nonlinear_arith)
        requires
            product == q * config.mlc_query_factor,
            q >= 0,
            config.mlc_query_factor >= 0,
    ;
    assert(slow * one <= product < (slow + 1) * one) by (nonlinear_arith)
        requires
            slow == product / one,
            one > 0,
    ;
}

/// What is served in an interval goes by its length: one that a unit run is left alone in
/// is served in full, and merging takes one rewriting time off it for each unit run
/// merged. The merge at the end is served at the slower speed, for one rewriting time
/// for each unit that it carries.
pub proof fn law_scores_go_by_time(config: EcoTuneConfig, e: nat, x: nat, m: nat)
    requires
        x >= 2,
    ensures
        served(config, e, 1) == config.tm_interval * speed(config, e + 1),
        served(config, e, 2) == served(config, e, 1) - 2 * (config.rewrite_time * speed(
            config,
            e + 1,
        )),
        served(config, e, x + 1) == served(config, e, x) - config.rewrite_time * speed(
            config,
            e + 1,
        ),
        last_score(config, e, 0) == config.rewrite_time * merge_speed(config, e),
        last_score(config, e, m + 1) == last_score(config, e, m) + config.rewrite_time
            * merge_speed(config, e),
{
    let w = config.tm_interval as int;
    let t = config.rewrite_time as int;
    let q = speed(config, e + 1) as int;
    let s = merge_speed(config, e) as int;
    assert((w - 2 * t) * q == w * q - 2 * (t * q)) by (nonlinear_arith);
    assert((w - (x + 1) * t) * q == (w - x * t) * q - t * q) by (nonlinear_arith);
    assert((m + 2) * t * s == (m + 1) * t * s + t * s) by (nonlinear_arith);
    assert((0 + 1) * t * s == t * s) by (nonlinear_arith);
}

/// The merges of a plan that begins after `base` unit runs with `m` units pending.
pub open spec fn plan_merges(plan: Plan, m: nat, base: nat, rightmost: bool) -> Seq<ScheduledMerge>
    decreases plan,
{
    match plan {
        Plan::End => seq![
            ScheduledMerge {
                after_unit_runs: (base + 1) as usize,
                width: (m + 1) as usize,
                is_global: rightmost,
            },
        ],
        Plan::Step { x, first, rest } => (if x >= 2 {
            plan_merges(*first, 0, base, false)
        } else {
            Seq::empty()
        }) + plan_merges(*rest, m + x, base + x, rightmost),
    }
}

/// A plan that scores as high as any does, and whose merges are those of the schedule.
proof fn lemma_best_plan(
    config: EcoTuneConfig,
    e: nat,
    c: nat,
    m: nat,
    base: nat,
    rightmost: bool,
) -> (plan: Plan)
    requires
        c >= 1,
    ensures
        fits_problem(plan, c),
        plan_score(config, plan, e, m) == best_score(config, e, c, m),
        plan_merges(plan, m, base, rightmost) == merges_of(config, e, c, m, base, rightmost),
    decreases c,
{
    if c == 1 {
        Plan::End
    } else {
        law_the_choice_is_optimal(config, e, c, m);
        let x = best_width(config, e, c, m);
        let rest = lemma_best_plan(config, e + 1, (c - x) as nat, m + x, base + x, rightmost);
        if x == 1 {
            let plan = Plan::Step { x, first: Box::new(Plan::End), rest: Box::new(rest) };
            assert(plan_merges(plan, m, base, rightmost) =~= merges_of(
                config,
                e,
                c,
                m,
                base,
                rightmost,
            ));
            plan
        } else {
            let first = lemma_best_plan(config, e, x, 0, base, false);
            let plan = Plan::Step { x, first: Box::new(first), rest: Box::new(rest) };
            assert(plan_merges(plan, m, base, rightmost) =~= merges_of(
                config,
                e,
                c,
                m,
                base,
                rightmost,
            ));
            plan
        }
    }
}

/// The schedule is that of a plan for the round, and no plan for it scores higher.
pub proof fn law_the_schedule_is_that_of_the_best_plan(config: EcoTuneConfig) -> (plan: Plan)
    ensures
        fits_problem(plan, config.round()),
        plan_merges(plan, config.carried(), 0, true) == round_merges(config),
        plan_score(config, plan, 0, config.carried()) == best_score(
            config,
            0,
            config.round(),
            config.carried(),
        ),
        forall|other: Plan| #[trigger]
            fits_problem(other, config.round()) ==> plan_score(
                config,
                other,
                0,
                config.carried(),
            ) <= plan_score(config, plan, 0, config.carried()),
{
    let plan = lemma_best_plan(config, 0, config.round(), config.carried(), 0, true);
    assert forall|other: Plan| #[trigger] fits_problem(other, config.round()) implies plan_score(
        config,
        other,
        0,
        config.carried(),
    ) <= plan_score(config, plan, 0, config.carried()) by {
        law_no_plan_scores_higher(config, other, 0, config.round(), config.carried());
    }
    plan
}

/// All merges of a round are choices but the last.
pub proof fn law_all_merges_but_the_last_are_choices(config: EcoTuneConfig)
    requires
        config.valid(),
    ensures
        chosen(round_merges(config)) == round_merges(config).drop_last(),
{
    let merges = round_merges(config);
    let head = merges.drop_last();
    let keep = |merge: ScheduledMerge| !merge.is_global;
    law_the_schedule_is_consistent(config);
    assert forall|i: int| 0 <= i < head.len() implies keep(#[trigger] head[i]) by {
        assert(head[i] == merges[i]);
    }
    lemma_all_kept(head, keep);
    reveal(Seq::filter);
}

proof fn lemma_all_kept<T>(list: Seq<T>, keep: spec_fn(T) -> bool)
    requires
        forall|i: int| 0 <= i < list.len() ==> keep(#[trigger] list[i]),
    ensures
        list.filter(keep) == list,
    decreases list.len(),
{
    reveal(Seq::filter);
    if list.len() > 0 {
        let head = list.drop_last();
        assert forall|i: int| 0 <= i < head.len() implies keep(#[trigger] head[i]) by {
            assert(head[i] == list[i]);
        }
        lemma_all_kept(head, keep);
        assert(keep(list[list.len() - 1]));
        assert(head.push(list.last()) =~= list);
    } else {
        assert(list.filter(keep) =~= list);
    }
}

// ---------------------------------------------------------------------------
// Learning
// ---------------------------------------------------------------------------

/// What an action is worth moves towards what a mission showed, by the learning rate: not
/// at all for a rate of zero and all the way for one, and never past it. What was shown
/// is the latency, negated, with the discounted worth of the next state.
pub proof fn law_values_move_towards_what_was_seen(
    config: LerpConfig,
    current: int,
    latency: nat,
    next: int,
    shown: int,
)
    requires
        config.learning_rate <= UNIT,
        config.discount + 0x40_0000 <= UNIT,
        latency <= MAX_LATENCY,
        -VALUE_LIMIT <= current <= VALUE_LIMIT,
        -VALUE_LIMIT <= next <= VALUE_LIMIT,
        // Rounded down.
        (shown + latency) * 0x100_0000_0000 <= config.discount * next,
        config.discount * next < (shown + latency + 1) * 0x100_0000_0000,
    ensures
        ({
            let now = credited(config, current, latency, next);
            &&& (now - current) * 0x100_0000_0000 <= config.learning_rate * (shown - current)
            &&& config.learning_rate * (shown - current) < (now - current + 1) * 0x100_0000_0000
            &&& config.learning_rate == 0 ==> now == current
            &&& config.learning_rate == 0x100_0000_0000 ==> now == shown
            &&& current <= shown ==> current <= now <= shown
            &&& shown <= current ==> shown <= now <= current
        }),
{
    law_values_stay_within_limits(config, current, latency, next);
    let one = 0x100_0000_0000int;
    let g = config.discount as int;
    let a = config.learning_rate as int;
    let seen = g * next / one;
    assert(seen == shown + latency) by (nonlinear_arith)
        requires
            seen == (g * next) / one,
            (shown + latency) * one <= g * next < (shown + latency + 1) * one,
            one == 0x100_0000_0000,
    ;
    let gap = shown - current;
    let step = a * gap / one;
    assert(step * one <= a * gap < (step + 1) * one) by (nonlinear_arith)
        requires
            step == (a * gap) / one,
            one == 0x100_0000_0000,
    ;
    if a == 0 {
        assert(a * gap == 0) by (nonlinear_arith)
            requires
                a == 0,
        ;
        assert(step == 0) by (nonlinear_arith)
            requires
                step == (a * gap) / one,
                a * gap == 0,
                one > 0,
        ;
    }
    if a == one {
        assert(step == gap) by (nonlinear_arith)
            requires
                step == (a * gap) / one,
                a == one,
                one > 0,
        ;
    }
    if gap >= 0 {
        assert(0 <= step <= gap) by (nonlinear_arith)
            requires
                step == (a * gap) / one,
                0 <= a <= one,
                gap >= 0,
                one == 0x100_0000_0000,
        ;
    }
    if gap <= 0 {
        assert(gap <= step <= 0) by (nonlinear_arith)
            requires
                step == (a * gap) / one,
                0 <= a <= one,
                gap <= 0,
                one == 0x100_0000_0000,
        ;
    }
}

/// What a mission teaches is about the action that it came of, in the state that this was
/// taken in, and about nothing else.
pub proof fn law_a_mission_teaches_about_its_action(
    view: LerpView,
    config: LerpConfig,
    mission: Mission,
    state: StateView,
    action: nat,
)
    requires
        action < 3,
        view.pending matches Some((_, taken)) ==> taken < 3,
    ensures
        ({
            let now = observed(view, config, mission);
            let was = value_at(values_in(view.table, state), action);
            let is = value_at(values_in(now.table, state), action);
            &&& view.pending is None ==> is == was
            &&& view.pending matches Some((before, taken)) ==> {
                &&& (before != state || taken != action) ==> is == was
                &&& before == state && taken == action ==> {
                    let next = values_in(
                        view.table,
                        state_for(config, mission.read_ratio, view.policy),
                    );
                    &&& exists|best: int|
                        is == #[trigger] credited(config, was, mission.latency as nat, best) && (
                        best == next.0 || best == next.1 || best == next.2) && best >= next.0
                            && best >= next.1 && best >= next.2
                }
            }
        }),
{
    let now = observed(view, config, mission);
    let was = value_at(values_in(view.table, state), action);
    let next = values_in(view.table, state_for(config, mission.read_ratio, view.policy));
    let best = super::lerp::best_value(next);
    law_the_best_action_is_worth_most(next);
    match view.pending {
        None => {},
        Some((before, taken)) => {
            if before == state && taken == action {
                assert(value_at(values_in(now.table, state), action) == credited(
                    config,
                    was,
                    mission.latency as nat,
                    best,
                ));
            }
        },
    }
}

/// The best action is worth no less than any, and more than those before it.
pub proof fn law_the_best_action_is_worth_most(values: ValuesView)
    ensures
        ({
            let best = best_action(values);
            &&& best == 0 ==> values.0 >= values.1 && values.0 >= values.2
            &&& best == 1 ==> values.1 > values.0 && values.1 >= values.2
            &&& best == 2 ==> values.2 > values.0 && values.2 > values.1
            &&& best < 3
        }),
{
}

/// Shares of reads are told apart by as many buckets of the same width; the policy is
/// told apart as it is.
pub proof fn law_states_tell_workloads_apart(config: LerpConfig, read_ratio: u64, policy: nat)
    ensures
        ({
            let (bucket, seen) = state_for(config, read_ratio, policy);
            let buckets = if config.ratio_buckets == 0 {
                1int
            } else {
                config.ratio_buckets as int
            };
            let one = 0x100_0000_0000int;
            &&& seen == policy
            &&& bucket < buckets
            &&& read_ratio < one ==> bucket * one <= read_ratio * buckets < (bucket + 1) * one
            &&& read_ratio >= one ==> bucket == buckets - 1
        }),
{
    let buckets = config.buckets() as int;
    let one = 0x100_0000_0000int;
    let share = if read_ratio > one {
        one
    } else {
        read_ratio as int
    };
    let bucket = share * buckets / one;
    assert(bucket * one <= share * buckets < (bucket + 1) * one) by (nonlinear_arith)
        requires
            bucket == (share * buckets) / one,
            one == 0x100_0000_0000,
    ;
    if share == one {
        assert(bucket == buckets) by (nonlinear_arith)
            requires
                bucket == (share * buckets) / one,
                share == one,
                one > 0,
        ;
    } else {
        assert(bucket < buckets) by (nonlinear_arith)
            requires
                bucket * one <= share * buckets,
                share < one,
                buckets >= 1,
                one > 0,
        ;
    }
    assert(bucket >= 0) by (nonlinear_arith)
        requires
            bucket == (share * buckets) / one,
            share >= 0,
            buckets >= 0,
            one == 0x100_0000_0000,
    ;
}

/// Unless it explores, a tuner takes the best action that it knows of for the state that
/// it sees, with what the mission just taught it; the policy moves by that action,
/// between one and the size ratio, and the next mission is credited to it. Without
/// exploration it never explores, and with a share of one always.
pub proof fn law_the_tuner_takes_the_best_action(
    view: LerpView,
    config: LerpConfig,
    mission: Mission,
)
    requires
        view.policy >= 1,
    ensures
        ({
            let now = observed(view, config, mission);
            let state = state_for(config, mission.read_ratio, view.policy);
            let roll = crate::workload::bounded_draw(view.rng, 100);
            let ceiling = if config.size_ratio == 0 {
                1int
            } else {
                config.size_ratio as int
            };
            let (seen, action) = now.pending->0;
            &&& now.pending is Some
            &&& seen == state
            &&& roll * 0x100_0000_0000 >= view.exploration * 100 ==> {
                let values = values_in(now.table, state);
                &&& action < 3
                &&& value_at(values, action) >= values.0
                &&& value_at(values, action) >= values.1
                &&& value_at(values, action) >= values.2
            }
            &&& view.exploration == 0 ==> !explores(roll, view.exploration)
            &&& view.exploration == 0x100_0000_0000 ==> explores(roll, view.exploration)
            &&& ({
                let wanted = view.policy + action - 1;
                &&& 1 <= wanted <= ceiling ==> now.policy == wanted
                &&& wanted < 1 ==> now.policy == 1
                &&& wanted > ceiling && wanted >= 1 ==> now.policy == ceiling
            })
            &&& view.missions < u64::MAX ==> now.missions == view.missions + 1
        }),
{
    let state = state_for(config, mission.read_ratio, view.policy);
    law_the_best_action_is_worth_most(
        values_in(learned(view, config, mission), state),
    );
    crate::workload::law_bounded_draws_are_below(view.rng, 100, u64::MAX as nat);
}

// ---------------------------------------------------------------------------
// Policies down the tree
// ---------------------------------------------------------------------------

/// A policy is kept between one and its ceiling, and one that lies there is kept as it
/// is.
pub proof fn law_policies_are_kept_within_bounds(policy: nat, ceiling: nat)
    requires
        ceiling >= 1,
    ensures
        1 <= bounded(policy, ceiling) <= ceiling,
        1 <= policy <= ceiling ==> bounded(policy, ceiling) == policy,
        policy > ceiling ==> bounded(policy, ceiling) == ceiling,
        policy == 0 ==> bounded(policy, ceiling) == 1,
{
}

/// Policies of three levels in a row obey the recurrence: with `P` and `K` for the two
/// above and `T` for the ratio, the next one is the integer nearest to
/// `K P / sqrt(P^2 + T (P^2 - K^2))`, no higher than the ratio; and 1 where there is no
/// such number.
pub proof fn law_policies_obey_the_recurrence(above: int, here: int, ratio: int, next: int)
    requires
        above >= 1,
        here >= 1,
        ratio >= 1,
        follows(above, here, ratio, next),
    ensures
        ({
            let under = above * above + ratio * (above * above - here * here);
            let square = here * above * (here * above);
            &&& 1 <= next <= ratio
            &&& under <= 0 ==> next == 1
            &&& under > 0 && next > 1 ==> (2 * next - 1) * (2 * next - 1) * under <= 4 * square
            &&& under > 0 && next < ratio ==> (2 * next + 1) * (2 * next + 1) * under > 4 * square
        }),
{
    assert(here * above * (here * above) == (here * above) * (here * above));
}

} // verus!
