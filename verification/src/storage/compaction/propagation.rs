//! Deriving the policies of deep levels from those of shallow ones.
//!
//! The policy of a level is the number of runs that it may hold. Deep levels
//! compact so rarely that they cannot be tuned from experience; a closed form
//! extends the policies of the first levels downward instead.
//!
//! With the same filter bits per key everywhere, every level has the same costs
//! and wants the same policy. With bits allotted by level, the policies `K` of
//! three levels in a row obey
//!
//! ```text
//! 1/K_(i+1)^2 = 1/K_i^2 + T * (1/K_i^2 - 1/K_(i-1)^2)
//! ```
//!
//! for a size ratio `T`: the gap between neighbours widens by a factor of `T`
//! each level down, and policies fall towards 1.

use vstd::prelude::*;

use super::wide::Wide;

verus! {

/// The most runs a level may hold: 1 is leveling, the size ratio is tiering.
pub type Policy = usize;

/// A policy kept between 1 and `ceiling`.
pub open spec fn bounded(policy: nat, ceiling: nat) -> nat {
    if policy < 1 {
        1
    } else if policy > ceiling {
        ceiling
    } else {
        policy
    }
}

/// The most that a policy may be.
pub open spec fn ceiling_of(size_ratio: nat) -> nat {
    if size_ratio < 1 {
        1
    } else {
        size_ratio
    }
}

/// `K_(i-1)^2 * K_i^2 / K_(i+1)^2`, before rounding.
pub open spec fn radicand(previous: int, current: int, size_ratio: int) -> int {
    previous * previous + size_ratio * (previous * previous - current * current)
}

/// `next` is the policy below `current`, itself below `previous`: the nearest
/// integer to what the recurrence gives, kept between 1 and the size ratio; and
/// 1 where the recurrence asks for a tighter policy than there is.
pub open spec fn follows(previous: int, current: int, size_ratio: int, next: int) -> bool {
    let under = radicand(previous, current, size_ratio);
    let over = 4 * ((current * previous) * (current * previous));
    if under <= 0 {
        next == 1
    } else {
        &&& 1 <= next <= ceiling_of(size_ratio as nat)
        &&& next > 1 ==> (2 * next - 1) * (2 * next - 1) * under <= over
        &&& next < ceiling_of(size_ratio as nat) ==> (2 * next + 1) * (2 * next + 1) * under > over
    }
}

/// The policy of level 0 at every level.
pub fn propagate_uniform(level_one: Policy, levels: usize) -> (policies: Vec<Policy>)
    ensures
        policies@.len() == levels,
        forall|i: int|
            0 <= i < levels ==> #[trigger] policies@[i] == if level_one < 1 {
                1
            } else {
                level_one
            },
{
    let policy: Policy = if level_one < 1 {
        1
    } else {
        level_one
    };
    let mut policies: Vec<Policy> = Vec::new();
    let mut i: usize = 0;
    while i < levels
        invariant
            i <= levels,
            policies@.len() == i,
            forall|j: int| 0 <= j < i ==> #[trigger] policies@[j] == policy,
        decreases levels - i,
    {
        policies.push(policy);
        i = i + 1;
    }
    policies
}

/// The policies of the first two levels extended down the tree.
pub fn propagate_monkey(
    level_one: Policy,
    level_two: Policy,
    size_ratio: usize,
    levels: usize,
) -> (policies: Vec<Policy>)
    ensures
        policies@.len() == levels,
        levels > 0 ==> policies@[0] == bounded(
            level_one as nat,
            ceiling_of(size_ratio as nat),
        ),
        levels > 1 ==> policies@[1] == bounded(
            level_two as nat,
            ceiling_of(size_ratio as nat),
        ),
        forall|i: int|
            2 <= i < levels ==> follows(
                policies@[i - 2] as int,
                policies@[i - 1] as int,
                size_ratio as int,
                #[trigger] policies@[i] as int,
            ),
        forall|i: int|
            0 <= i < levels ==> 1 <= #[trigger] policies@[i] <= ceiling_of(size_ratio as nat),
{
    let ceiling: usize = if size_ratio < 1 {
        1
    } else {
        size_ratio
    };
    let mut policies: Vec<Policy> = Vec::new();
    if levels == 0 {
        return policies;
    }
    policies.push(clamp_policy(level_one, ceiling));
    if levels == 1 {
        return policies;
    }
    policies.push(clamp_policy(level_two, ceiling));
    while policies.len() < levels
        invariant
            2 <= policies@.len() <= levels,
            ceiling == ceiling_of(size_ratio as nat),
            policies@[0] == bounded(level_one as nat, ceiling as nat),
            policies@[1] == bounded(level_two as nat, ceiling as nat),
            forall|i: int|
                2 <= i < policies@.len() ==> follows(
                    policies@[i - 2] as int,
                    policies@[i - 1] as int,
                    size_ratio as int,
                    #[trigger] policies@[i] as int,
                ),
            forall|i: int|
                0 <= i < policies@.len() ==> 1 <= #[trigger] policies@[i] <= ceiling,
        decreases levels - policies@.len(),
    {
        let index: usize = policies.len();
        let next: Policy = next_policy(
            policies[index - 2],
            policies[index - 1],
            size_ratio,
            ceiling,
        );
        let ghost before = policies@;
        policies.push(next);
        proof {
            assert forall|i: int| 2 <= i < policies@.len() implies follows(
                policies@[i - 2] as int,
                policies@[i - 1] as int,
                size_ratio as int,
                #[trigger] policies@[i] as int,
            ) by {
                if i < before.len() {
                    assert(policies@[i] == before[i]);
                    assert(policies@[i - 1] == before[i - 1]);
                    assert(policies@[i - 2] == before[i - 2]);
                }
            }
        }
    }
    policies
}

fn clamp_policy(policy: Policy, ceiling: usize) -> (clamped: Policy)
    requires
        ceiling >= 1,
    ensures
        clamped == bounded(policy as nat, ceiling as nat),
{
    if policy < 1 {
        1
    } else if policy > ceiling {
        ceiling
    } else {
        policy
    }
}

/// The policy that follows from the two above it.
fn next_policy(previous: Policy, current: Policy, size_ratio: usize, ceiling: usize) -> (next:
    Policy)
    requires
        ceiling == ceiling_of(size_ratio as nat),
        1 <= previous <= ceiling,
        1 <= current <= ceiling,
    ensures
        1 <= next <= ceiling,
        follows(previous as int, current as int, size_ratio as int, next as int),
{
    if current > previous {
        proof {
            lemma_rising_pair(previous as int, current as int, size_ratio as int);
        }
        return 1;
    }
    let p: u128 = previous as u128;
    let c: u128 = current as u128;
    proof {
        lemma_products(p as int, c as int);
    }
    let gap: u128 = p * p - c * c;
    let under: Wide = Wide::new(p * p).plus(&Wide::new(size_ratio as u128).times(&Wide::new(gap)));
    let product: Wide = Wide::new(c * p);
    let over: Wide = Wide::new(4).times(&product.times(&product));
    proof {
        assert(under@ == radicand(p as int, c as int, size_ratio as int));
        lemma_next_is_no_higher(p as int, c as int, size_ratio as int);
    }
    // `low` is not too large, or is 1; `low + span` is too large.
    let mut low: usize = 1;
    let mut span: usize = current;
    while span > 1
        invariant
            1 <= low,
            1 <= span,
            low + span <= current + 1,
            current <= ceiling,
            low > 1 ==> (2 * low - 1) * (2 * low - 1) * under@ <= over@,
            (2 * (low + span) - 1) * (2 * (low + span) - 1) * under@ > over@,
        decreases span,
    {
        let half: usize = span / 2;
        let middle: usize = low + half;
        let root: u128 = 2 * middle as u128 - 1;
        let wide: Wide = Wide::new(root);
        if wide.times(&wide).times(&under).at_most(&over) {
            low = middle;
            span = span - half;
        } else {
            span = half;
        }
    }
    low
}

/// Squares fit, and are in order.
proof fn lemma_products(p: int, c: int)
    requires
        1 <= c <= p <= 0xffff_ffff_ffff_ffff,
    ensures
        1 <= c * c <= p * p <= 0xffff_ffff_ffff_ffff * 0xffff_ffff_ffff_ffff,
        0 <= c * p <= 0xffff_ffff_ffff_ffff * 0xffff_ffff_ffff_ffff,
{
    assert(1 <= c * c <= p * p <= 0xffff_ffff_ffff_ffff * 0xffff_ffff_ffff_ffff)
        by (nonlinear_arith)
        requires
            1 <= c <= p <= 0xffff_ffff_ffff_ffff,
    ;
    assert(0 <= c * p <= 0xffff_ffff_ffff_ffff * 0xffff_ffff_ffff_ffff) by (nonlinear_arith)
        requires
            1 <= c <= p <= 0xffff_ffff_ffff_ffff,
    ;
}

/// Where policies rise, the recurrence asks for a tighter policy than there is.
proof fn lemma_rising_pair(previous: int, current: int, size_ratio: int)
    requires
        1 <= previous < current <= size_ratio,
    ensures
        radicand(previous, current, size_ratio) <= 0,
{
    let excess = current * current - previous * previous;
    assert(excess >= previous) by (nonlinear_arith)
        requires
            1 <= previous < current,
            excess == current * current - previous * previous,
    ;
    assert(size_ratio * excess >= previous * previous) by (nonlinear_arith)
        requires
            size_ratio >= previous,
            excess >= previous,
            previous >= 1,
    ;
    assert(size_ratio * (previous * previous - current * current) == -(size_ratio * excess))
        by (nonlinear_arith)
        requires
            excess == current * current - previous * previous,
    ;
}

/// One more than the policy above is too large.
proof fn lemma_next_is_no_higher(previous: int, current: int, size_ratio: int)
    requires
        1 <= current <= previous,
        size_ratio >= 0,
    ensures
        radicand(previous, current, size_ratio) > 0,
        (2 * (current + 1) - 1) * (2 * (current + 1) - 1) * radicand(previous, current, size_ratio)
            > 4 * ((current * previous) * (current * previous)),
{
    let square = previous * previous;
    let under = radicand(previous, current, size_ratio);
    let gap = square - current * current;
    assert(square >= 1 && gap >= 0) by (nonlinear_arith)
        requires
            1 <= current <= previous,
            square == previous * previous,
            gap == square - current * current,
    ;
    assert(size_ratio * gap >= 0) by (nonlinear_arith)
        requires
            size_ratio >= 0,
            gap >= 0,
    ;
    assert(under >= square);
    let root = 2 * (current + 1) - 1;
    let limit = 2 * current;
    assert(root * root > limit * limit) by (nonlinear_arith)
        requires
            root > limit,
            limit > 0,
    ;
    assert((root * root) * under > (limit * limit) * square) by (nonlinear_arith)
        requires
            root * root > limit * limit,
            under >= square,
            square >= 1,
            limit * limit >= 0,
    ;
    assert((limit * limit) * square == 4 * ((current * previous) * (current * previous)))
        by (nonlinear_arith)
        requires
            limit == 2 * current,
            square == previous * previous,
    ;
}

/// Policies never rise with depth if the first two do not.
pub proof fn law_policies_never_rise(policies: Seq<Policy>, size_ratio: nat)
    requires
        forall|i: int| 0 <= i < policies.len() ==> #[trigger] policies[i] >= 1,
        policies.len() > 1 ==> policies[1] <= policies[0],
        forall|i: int|
            2 <= i < policies.len() ==> follows(
                policies[i - 2] as int,
                policies[i - 1] as int,
                size_ratio as int,
                #[trigger] policies[i] as int,
            ),
    ensures
        forall|i: int, j: int|
            #![trigger policies[i], policies[j]]
            0 <= i <= j < policies.len() ==> policies[j] <= policies[i],
    decreases policies.len(),
{
    if policies.len() > 1 {
        let head = policies.drop_last();
        assert forall|i: int| 0 <= i < head.len() implies #[trigger] head[i] >= 1 by {
            assert(head[i] == policies[i]);
        }
        assert forall|i: int| 2 <= i < head.len() implies follows(
            head[i - 2] as int,
            head[i - 1] as int,
            size_ratio as int,
            #[trigger] head[i] as int,
        ) by {
            assert(head[i] == policies[i]);
            assert(head[i - 1] == policies[i - 1]);
            assert(head[i - 2] == policies[i - 2]);
        }
        law_policies_never_rise(head, size_ratio);
        let n = policies.len() as int;
        if n > 2 {
            assert(head[n - 2] <= head[n - 3]);
            assert(policies[n - 1] >= 1);
            lemma_does_not_rise(
                policies[n - 3] as int,
                policies[n - 2] as int,
                size_ratio as int,
                policies[n - 1] as int,
            );
        }
        assert(policies[n - 1] <= policies[n - 2]);
        assert forall|i: int, j: int|
            #![trigger policies[i], policies[j]]
            0 <= i <= j < policies.len() implies policies[j] <= policies[i] by {
            if j < n - 1 {
                assert(head[i] == policies[i] && head[j] == policies[j]);
            } else if i < n - 1 {
                assert(head[i] == policies[i] && head[n - 2] == policies[n - 2]);
            }
        }
    }
}

proof fn lemma_does_not_rise(previous: int, current: int, size_ratio: int, next: int)
    requires
        1 <= current <= previous,
        size_ratio >= 0,
        follows(previous, current, size_ratio, next),
    ensures
        next <= current,
{
    let square = previous * previous;
    let under = radicand(previous, current, size_ratio);
    assert(square >= 1) by (nonlinear_arith)
        requires
            previous >= 1,
            square == previous * previous,
    ;
    assert(current * current <= square) by (nonlinear_arith)
        requires
            1 <= current <= previous,
            square == previous * previous,
    ;
    let gap = square - current * current;
    assert(size_ratio * gap >= 0) by (nonlinear_arith)
        requires
            size_ratio >= 0,
            gap >= 0,
    ;
    assert(under >= square);
    if next > current {
        // (2 next - 1)^2 under > (2 current)^2 previous^2, against the choice.
        let root = 2 * next - 1;
        let limit = 2 * current;
        assert(root * root > limit * limit) by (nonlinear_arith)
            requires
                root > limit,
                limit > 0,
        ;
        assert((root * root) * under > (limit * limit) * square) by (nonlinear_arith)
            requires
                root * root > limit * limit,
                under >= square,
                square >= 1,
                limit * limit >= 0,
        ;
        assert((limit * limit) * square == 4 * ((current * previous) * (current * previous)))
            by (nonlinear_arith)
            requires
                limit == 2 * current,
                square == previous * previous,
        ;
    }
}

/// Below the second level policies never rise, whatever the first two are; and where
/// the second is above the first, every one below them is 1.
pub proof fn law_deep_policies_never_rise(policies: Seq<Policy>, size_ratio: nat, i: int)
    requires
        forall|j: int|
            0 <= j < policies.len() ==> 1 <= #[trigger] policies[j] <= ceiling_of(size_ratio),
        forall|j: int|
            2 <= j < policies.len() ==> follows(
                policies[j - 2] as int,
                policies[j - 1] as int,
                size_ratio as int,
                #[trigger] policies[j] as int,
            ),
        2 <= i < policies.len(),
    ensures
        policies[i] <= policies[i - 1],
        policies[1] > policies[0] ==> policies[i] == 1,
    decreases i,
{
    let previous = policies[i - 2] as int;
    let current = policies[i - 1] as int;
    assert(1 <= previous && 1 <= current <= ceiling_of(size_ratio));
    assert(policies[i] >= 1);
    if current <= previous {
        lemma_does_not_rise(previous, current, size_ratio as int, policies[i] as int);
    } else {
        lemma_rising_pair(previous, current, size_ratio as int);
    }
    if i > 2 {
        law_deep_policies_never_rise(policies, size_ratio, i - 1);
    }
}

/// Equal policies stay equal: without a gap there is nothing to widen.
pub proof fn law_equal_policies_stay_flat(policy: nat, size_ratio: nat, next: int)
    requires
        1 <= policy <= ceiling_of(size_ratio),
        follows(policy as int, policy as int, size_ratio as int, next),
    ensures
        next == policy,
{
    let k = policy as int;
    let square = k * k;
    assert(square >= 1) by (nonlinear_arith)
        requires
            k >= 1,
            square == k * k,
    ;
    assert(size_ratio * (square - square) == 0) by (nonlinear_arith);
    assert(radicand(k, k, size_ratio as int) == square);
    lemma_does_not_rise(k, k, size_ratio as int, next);
    if next < k {
        let root = 2 * next + 1;
        let limit = 2 * k;
        assert(root * root <= limit * limit) by (nonlinear_arith)
            requires
                0 < root < limit,
        ;
        assert((root * root) * square <= (limit * limit) * square) by (nonlinear_arith)
            requires
                root * root <= limit * limit,
                square >= 1,
        ;
        assert((limit * limit) * square == 4 * ((k * k) * (k * k))) by (nonlinear_arith)
            requires
                limit == 2 * k,
                square == k * k,
        ;
    }
}

} // verus!
