//! How long the schedules of the horizontal schemes last.
//!
//! A pass is what follows a flush: the compactions that the scheme asks for one
//! after the other, until it asks for none. The counters of the two schemes are
//! digits: they tell how many flushes there were, or how many there are to come.

use vstd::prelude::*;

use super::horizontal::counted;
use super::horizontal_tiering::{allows, flushed, is_initial_counter};
use super::{
    choices, lemma_choices_edges, lemma_choose_one, lemma_triangular, CompactionRequest,
    HorizontalLeveling, HorizontalTiering,
};
use crate::storage::shape::TreeShape;

verus! {

// ---------------------------------------------------------------------------
// Counting up
// ---------------------------------------------------------------------------

/// The part of the flushes so far that one counter tells of.
pub open spec fn digit_up(counters: Seq<u64>, i: int) -> nat {
    choices((counters[i] + i) as nat, (i + 1) as nat)
}

/// The flushes so far that the first counters tell of.
pub open spec fn seen_upto(counters: Seq<u64>, upto: nat) -> nat
    decreases upto,
{
    if upto == 0 {
        0
    } else {
        seen_upto(counters, (upto - 1) as nat) + digit_up(counters, upto - 1)
    }
}

/// The flushes so far, as counters that count up tell: counter `i` stands for
/// `choose(C_i + i, i + 1)` of them.
pub open spec fn flushes_seen(counters: Seq<u64>) -> nat {
    seen_upto(counters, counters.len())
}

/// A counter is not above the next one.
pub open spec fn no_higher(counters: Seq<u64>, i: int) -> bool {
    counters[i] <= counters[i + 1]
}

/// No counter is above the next one.
pub open spec fn rising(counters: Seq<u64>) -> bool {
    forall|i: int| 0 <= i < counters.len() - 1 ==> #[trigger] no_higher(counters, i)
}

/// During a pass only the counter that is looked at next may be above the one below
/// it, by one, and then those before it are at zero.
spec fn climbing(scheme: HorizontalLeveling) -> bool {
    let counters = scheme.counters@;
    let at = scheme.cursor() as int;
    &&& forall|i: int|
        0 <= i < counters.len() - 1 && i != at ==> #[trigger] no_higher(counters, i)
    &&& at < counters.len() - 1 ==> counters[at] <= counters[at + 1] + 1
    &&& at < counters.len() - 1 && counters[at] > counters[at + 1] ==> forall|i: int|
        0 <= i < at ==> #[trigger] counters[i] == 0
}

/// No level is empty that has something to pass on.
pub open spec fn supplied(scheme: HorizontalLeveling, tree: TreeShape) -> bool {
    forall|i: int|
        0 <= i < scheme.counters@.len() - 1 && scheme.counters@[i] > scheme.counters@[i + 1]
            ==> #[trigger] tree.bytes_at(i) != 0
}

/// The scheme is asked once; the last time, it asks for nothing.
pub open spec fn is_asked(
    before: HorizontalLeveling,
    after: HorizontalLeveling,
    last: bool,
) -> bool {
    exists|tree: TreeShape, request: Option<CompactionRequest>| #[trigger]
        before.steps_to(tree, after, request) && supplied(before, tree) && (request is None
            <==> last)
}

/// One question of a pass.
pub open spec fn is_asked_at(pass: Seq<HorizontalLeveling>, i: int) -> bool {
    is_asked(pass[i], pass[i + 1], i == pass.len() - 2)
}

/// The scheme is asked until it asks for nothing.
pub open spec fn is_pass(pass: Seq<HorizontalLeveling>) -> bool {
    &&& pass.len() >= 2
    &&& forall|i: int| 0 <= i < pass.len() - 1 ==> #[trigger] is_asked_at(pass, i)
}

/// Counters at zero tell of nothing.
proof fn lemma_seen_zero(counters: Seq<u64>, upto: nat)
    requires
        upto <= counters.len(),
        forall|i: int| 0 <= i < upto ==> #[trigger] counters[i] == 0,
    ensures
        seen_upto(counters, upto) == 0,
    decreases upto,
{
    if upto > 0 {
        lemma_seen_zero(counters, (upto - 1) as nat);
        assert(counters[upto - 1] == 0);
        lemma_choices_edges((upto - 1) as nat, upto);
    }
}

/// A digit is no less than its counter.
proof fn lemma_digit_bound(count: nat, i: nat)
    ensures
        count <= choices(count + i, i + 1),
    decreases i,
{
    if i == 0 {
        lemma_choose_one(count);
    } else if count + i > 0 {
        lemma_digit_bound(count, (i - 1) as nat);
        assert(choices(count + i, i + 1) == choices((count + i - 1) as nat, i) + choices(
            (count + i - 1) as nat,
            i + 1,
        ));
    }
}

proof fn lemma_first_digit_bound(counters: Seq<u64>, upto: nat)
    requires
        0 < upto <= counters.len(),
    ensures
        counters[0] <= seen_upto(counters, upto),
    decreases upto,
{
    if upto == 1 {
        lemma_digit_bound(counters[0] as nat, 0);
        assert(seen_upto(counters, 0) == 0);
    } else {
        lemma_first_digit_bound(counters, (upto - 1) as nat);
    }
}

/// A flush is one more.
proof fn lemma_flush_counts(counters: Seq<u64>, after: Seq<u64>, upto: nat)
    requires
        0 < upto <= counters.len(),
        counters[0] < u64::MAX,
        after == counters.update(0, counted(counters[0])),
    ensures
        seen_upto(after, upto) == seen_upto(counters, upto) + 1,
    decreases upto,
{
    if upto == 1 {
        assert(seen_upto(counters, 0) == 0 && seen_upto(after, 0) == 0);
        lemma_choose_one(counters[0] as nat);
        lemma_choose_one(after[0] as nat);
    } else {
        lemma_flush_counts(counters, after, (upto - 1) as nat);
        assert(after[upto - 1] == counters[upto - 1]);
    }
}

/// A compaction carries one over, and changes nothing of the count.
proof fn lemma_carry(counters: Seq<u64>, after: Seq<u64>, level: int, upto: nat)
    requires
        0 <= level < counters.len() - 1,
        level + 2 <= upto <= counters.len(),
        counters[level] == counters[level + 1] + 1,
        forall|i: int| 0 <= i < level ==> #[trigger] counters[i] == 0,
        after == counters.update(level + 1, counted(counters[level + 1])).update(level, 0),
    ensures
        seen_upto(after, upto) == seen_upto(counters, upto),
    decreases upto,
{
    if upto == level + 2 {
        let x = counters[level + 1] as nat;
        let i = level as nat;
        assert(after[level] == 0 && after[level + 1] == x + 1);
        assert forall|j: int| 0 <= j < level implies #[trigger] after[j] == 0 by {
            assert(counters[j] == 0);
        }
        lemma_seen_zero(counters, i);
        lemma_seen_zero(after, i + 1);
        assert(seen_upto(counters, i + 1) == digit_up(counters, level));
        assert(seen_upto(counters, upto) == digit_up(counters, level) + digit_up(
            counters,
            level + 1,
        ));
        assert(seen_upto(after, upto) == digit_up(after, level + 1));
        assert(choices(x + i + 2, i + 2) == choices(x + i + 1, i + 1) + choices(
            x + i + 1,
            i + 2,
        ));
    } else {
        lemma_carry(counters, after, level, (upto - 1) as nat);
        assert(after[upto - 1] == counters[upto - 1]);
    }
}

/// One question keeps what holds during a pass, and the count.
proof fn lemma_asked(before: HorizontalLeveling, after: HorizontalLeveling, last: bool)
    requires
        climbing(before),
        before.counters@.len() >= 2,
        is_asked(before, after, last),
    ensures
        after.counters@.len() == before.counters@.len(),
        flushes_seen(after.counters@) == flushes_seen(before.counters@),
        climbing(after),
        last ==> rising(after.counters@),
{
    let (tree, request) = choose|tree: TreeShape, request: Option<CompactionRequest>| #[trigger]
        before.steps_to(tree, after, request) && supplied(before, tree) && (request is None
            <==> last);
    let counters = before.counters@;
    let at = before.cursor() as int;
    match request {
        Some(request) => {
            let level = request.first_level as int;
            assert(before.fires(tree, level));
            if level != at {
                assert(no_higher(counters, level));
            }
            lemma_carry(counters, after.counters@, level, counters.len());
            let now = after.counters@;
            assert forall|i: int| 0 <= i < now.len() - 1 && i != level + 1 implies #[trigger]
                no_higher(now, i) by {
                if i < level {
                    assert(counters[i] == 0);
                } else if i > level + 1 {
                    assert(no_higher(counters, i));
                }
            }
            if level + 1 < now.len() - 1 {
                assert(no_higher(counters, level + 1));
            }
            assert forall|i: int| 0 <= i < level + 1 implies #[trigger] now[i] == 0 by {
                if i < level {
                    assert(counters[i] == 0);
                }
            }
        },
        None => {
            assert forall|i: int| 0 <= i < counters.len() - 1 implies #[trigger] no_higher(
                counters,
                i,
            ) by {
                if i == at && counters[i] > counters[i + 1] {
                    assert(tree.bytes_at(i) != 0);
                    assert(before.fires(tree, i));
                }
            }
        },
    }
}

proof fn lemma_along_pass(pass: Seq<HorizontalLeveling>, i: int)
    requires
        is_pass(pass),
        climbing(pass[0]),
        pass[0].counters@.len() >= 2,
        0 <= i < pass.len(),
    ensures
        pass[i].counters@.len() == pass[0].counters@.len(),
        flushes_seen(pass[i].counters@) == flushes_seen(pass[0].counters@),
        climbing(pass[i]),
        i == pass.len() - 1 ==> rising(pass[i].counters@),
    decreases i,
{
    if i > 0 {
        lemma_along_pass(pass, i - 1);
        assert(is_asked_at(pass, i - 1));
        lemma_asked(pass[i - 1], pass[i], i - 1 == pass.len() - 2);
    }
}

/// A flush, with the compactions that it sets off, is one more in what the counters
/// tell, and leaves no counter above the next.
pub proof fn law_a_flush_counts_once(before: HorizontalLeveling, pass: Seq<HorizontalLeveling>)
    requires
        before.counters@.len() >= 2,
        rising(before.counters@),
        before.counters@[0] < u64::MAX,
        is_pass(pass),
        before.flushes_to(pass[0]),
    ensures
        flushes_seen(pass.last().counters@) == flushes_seen(before.counters@) + 1,
        rising(pass.last().counters@),
        pass.last().counters@.len() == before.counters@.len(),
{
    let counters = before.counters@;
    let now = pass[0].counters@;
    lemma_flush_counts(counters, now, counters.len());
    assert forall|i: int| 0 <= i < now.len() - 1 && i != 0 implies #[trigger] no_higher(
        now,
        i,
    ) by {
        assert(no_higher(counters, i));
    }
    assert(no_higher(counters, 0));
    lemma_along_pass(pass, pass.len() - 1);
}

/// Horizontal leveling compacts by the number of flushes alone: from the first one
/// on, after `n` flushes with their compactions the counters tell `n`. With two
/// levels that puts the compactions at the flushes 1, 3, 6, 10 and so on, ever
/// further apart.
pub proof fn law_counters_tell_the_flushes(
    start: HorizontalLeveling,
    passes: Seq<Seq<HorizontalLeveling>>,
    n: int,
)
    requires
        start.counters@.len() >= 2,
        forall|i: int| 0 <= i < start.counters@.len() ==> #[trigger] start.counters@[i] == 0,
        0 <= n < passes.len() <= u64::MAX,
        forall|i: int| 0 <= i < passes.len() ==> #[trigger] is_pass(passes[i]),
        start.flushes_to(passes[0][0]),
        forall|i: int|
            0 < i < passes.len() ==> passes[i - 1].last().flushes_to(#[trigger] passes[i][0]),
    ensures
        flushes_seen(passes[n].last().counters@) == n + 1,
        rising(passes[n].last().counters@),
        passes[n].last().counters@.len() == start.counters@.len(),
    decreases n,
{
    assert(is_pass(passes[n]));
    if n == 0 {
        lemma_seen_zero(start.counters@, start.counters@.len());
        assert forall|i: int| 0 <= i < start.counters@.len() - 1 implies #[trigger] no_higher(
            start.counters@,
            i,
        ) by {
            assert(start.counters@[i] == 0);
        }
        assert(start.counters@[0] == 0);
        law_a_flush_counts_once(start, passes[0]);
    } else {
        law_counters_tell_the_flushes(start, passes, n - 1);
        let before = passes[n - 1].last();
        lemma_first_digit_bound(before.counters@, before.counters@.len());
        assert(passes[n - 1].last().flushes_to(passes[n][0]));
        law_a_flush_counts_once(before, passes[n]);
    }
}

/// With two levels, a pass that ends with counters `0` and `c` ends at flush
/// `c (c + 1) / 2`: the compactions come at the triangular numbers.
pub proof fn law_two_levels_compact_at_triangular_numbers(counters: Seq<u64>)
    requires
        counters.len() == 2,
        counters[0] == 0,
    ensures
        2 * flushes_seen(counters) == counters[1] * (counters[1] + 1),
{
    let c = counters[1] as nat;
    assert(seen_upto(counters, 0) == 0);
    lemma_choose_one(0);
    assert(seen_upto(counters, 1) == 0);
    assert(flushes_seen(counters) == choices(c + 1, 2));
    lemma_triangular(c);
}

// ---------------------------------------------------------------------------
// Counting down
// ---------------------------------------------------------------------------

/// The part of the flushes to come that one counter tells of.
pub open spec fn digit_down(counters: Seq<u64>, i: int) -> nat {
    if i == 0 {
        counters[0] as nat
    } else {
        choices((counters[i] + i - 1) as nat, (i + 1) as nat)
    }
}

/// The flushes to come that the first counters tell of.
pub open spec fn left_upto(counters: Seq<u64>, upto: nat) -> nat
    decreases upto,
{
    if upto == 0 {
        0
    } else {
        left_upto(counters, (upto - 1) as nat) + digit_down(counters, upto - 1)
    }
}

/// The flushes to come until every counter has run out.
pub open spec fn flushes_left(counters: Seq<u64>) -> nat {
    left_upto(counters, counters.len())
}

/// Every counter is at `k`.
pub open spec fn all_at(counters: Seq<u64>, k: u64) -> bool {
    forall|i: int| 0 <= i < counters.len() ==> #[trigger] counters[i] == k
}

/// Between flushes a schedule that has not run its course has something left at
/// level 0.
pub open spec fn is_ready(counters: Seq<u64>) -> bool {
    rising(counters) && (counters[0] == 0 ==> all_at(counters, 0))
}

/// During a pass no counter is above the next, and where the first has run out, so
/// has the one that is looked at next.
spec fn draining(scheme: HorizontalTiering) -> bool {
    let counters = scheme.counters@;
    let at = scheme.cursor() as int;
    rising(counters) && (counters[0] == 0 && at < counters.len() ==> counters[at] == 0)
}

/// No level is empty whose counter has run out.
pub open spec fn stocked(scheme: HorizontalTiering, tree: TreeShape) -> bool {
    forall|i: int|
        0 <= i < scheme.counters@.len() - 1 && scheme.counters@[i] == 0
            ==> #[trigger] tree.bytes_at(i) != 0
}

/// The scheme is asked once; the last time, it asks for nothing.
pub open spec fn is_consulted(
    before: HorizontalTiering,
    after: HorizontalTiering,
    last: bool,
) -> bool {
    exists|tree: TreeShape, request: Option<CompactionRequest>| #[trigger]
        before.steps_to(tree, after, request) && stocked(before, tree) && (request is None
            <==> last)
}

/// One question of a round.
pub open spec fn is_consulted_at(round: Seq<HorizontalTiering>, i: int) -> bool {
    is_consulted(round[i], round[i + 1], i == round.len() - 2)
}

/// The scheme is asked until it asks for nothing.
pub open spec fn is_round(round: Seq<HorizontalTiering>) -> bool {
    &&& round.len() >= 2
    &&& forall|i: int| 0 <= i < round.len() - 1 ==> #[trigger] is_consulted_at(round, i)
}

/// What counters that are alike tell of.
proof fn lemma_left_alike(counters: Seq<u64>, k: u64, upto: nat)
    requires
        0 < upto <= counters.len(),
        forall|i: int| 0 <= i < upto ==> #[trigger] counters[i] == k,
    ensures
        left_upto(counters, upto) == choices((k + upto - 1) as nat, upto),
    decreases upto,
{
    assert(counters[upto - 1] == k);
    if upto == 1 {
        assert(left_upto(counters, 0) == 0);
        lemma_choose_one(k as nat);
    } else {
        lemma_left_alike(counters, k, (upto - 1) as nat);
        assert(choices((k + upto - 1) as nat, upto) == choices(
            (k + upto - 2) as nat,
            (upto - 1) as nat,
        ) + choices((k + upto - 2) as nat, upto));
    }
}

/// Counters that have run out have nothing left.
proof fn lemma_left_nothing(counters: Seq<u64>, upto: nat)
    requires
        upto <= counters.len(),
        forall|i: int| 0 <= i < upto ==> #[trigger] counters[i] == 0,
    ensures
        left_upto(counters, upto) == 0,
{
    if upto > 0 {
        lemma_left_alike(counters, 0, upto);
        lemma_choices_edges((upto - 1) as nat, upto);
    }
}

/// What is left is no less than what the first counter tells.
proof fn lemma_left_bound(counters: Seq<u64>, upto: nat)
    requires
        0 < upto <= counters.len(),
    ensures
        counters[0] <= left_upto(counters, upto),
    decreases upto,
{
    if upto > 1 {
        lemma_left_bound(counters, (upto - 1) as nat);
    }
}

/// A flush uses one up.
proof fn lemma_flush_uses_one(counters: Seq<u64>, upto: nat)
    requires
        0 < upto <= counters.len(),
        counters[0] > 0,
    ensures
        left_upto(flushed(counters), upto) == left_upto(counters, upto) - 1,
    decreases upto,
{
    let now = flushed(counters);
    if upto == 1 {
        assert(left_upto(counters, 0) == 0 && left_upto(now, 0) == 0);
    } else {
        lemma_flush_uses_one(counters, (upto - 1) as nat);
        assert(now[upto - 1] == counters[upto - 1]);
    }
}

/// A compaction changes nothing of what is left.
proof fn lemma_reset(counters: Seq<u64>, after: Seq<u64>, level: int, reset: u64, upto: nat)
    requires
        0 <= level < counters.len() - 1,
        level + 2 <= upto <= counters.len(),
        after.len() == counters.len(),
        forall|i: int| 0 <= i <= level ==> #[trigger] counters[i] == 0,
        reset == if counters[level + 1] == 0 {
            0
        } else {
            counters[level + 1] - 1
        },
        forall|i: int|
            0 <= i < after.len() ==> #[trigger] after[i] == if i <= level + 1 {
                reset
            } else {
                counters[i]
            },
    ensures
        left_upto(after, upto) == left_upto(counters, upto),
    decreases upto,
{
    if upto == level + 2 {
        lemma_left_alike(after, reset, upto);
        lemma_left_nothing(counters, (level + 1) as nat);
        let x = counters[level + 1] as nat;
        assert(left_upto(counters, upto) == choices((x + level) as nat, upto));
        if x == 0 {
            lemma_choices_edges(level as nat, upto);
            lemma_choices_edges((level + 1) as nat, upto);
        }
    } else {
        lemma_reset(counters, after, level, reset, (upto - 1) as nat);
        assert(after[upto - 1] == counters[upto - 1]);
    }
}

/// Where no counter is above the next, those before one that has run out have too.
proof fn lemma_run_out(counters: Seq<u64>, i: int, j: int)
    requires
        rising(counters),
        0 <= i <= j < counters.len(),
        counters[j] == 0,
    ensures
        counters[i] == 0,
    decreases j - i,
{
    if i < j {
        lemma_run_out(counters, i + 1, j);
        assert(no_higher(counters, i));
    }
}

/// One question keeps what holds during a pass, and what is left.
proof fn lemma_consulted(before: HorizontalTiering, after: HorizontalTiering, last: bool)
    requires
        draining(before),
        before.counters@.len() >= 2,
        is_consulted(before, after, last),
    ensures
        after.counters@.len() == before.counters@.len(),
        after.k == before.k,
        flushes_left(after.counters@) == flushes_left(before.counters@),
        draining(after),
        last ==> before.cursor() < before.counters@.len() ==> is_ready(after.counters@),
        !last ==> after.cursor() < after.counters@.len(),
{
    let (tree, request) = choose|tree: TreeShape, request: Option<CompactionRequest>| #[trigger]
        before.steps_to(tree, after, request) && stocked(before, tree) && (request is None
            <==> last);
    let counters = before.counters@;
    let now = after.counters@;
    let at = before.cursor() as int;
    match request {
        Some(request) => {
            let level = request.first_level as int;
            assert(before.fires(tree, level));
            let below = counters[level + 1];
            let reset = if below == 0 {
                0u64
            } else {
                (below - 1) as u64
            };
            assert forall|i: int| 0 <= i <= level implies #[trigger] counters[i] == 0 by {
                lemma_run_out(counters, i, level);
            }
            lemma_reset(counters, now, level, reset, counters.len());
            assert forall|i: int| 0 <= i < now.len() - 1 implies #[trigger] no_higher(now, i) by {
                if i >= level + 1 {
                    assert(no_higher(counters, i));
                }
            }
        },
        None => {
            if at < counters.len() && counters[0] == 0 {
                if at < counters.len() - 1 {
                    assert(tree.bytes_at(at) != 0);
                    assert(before.fires(tree, at));
                }
                assert forall|i: int| 0 <= i < now.len() implies #[trigger] now[i] == 0 by {
                    lemma_run_out(counters, i, counters.len() - 1);
                }
            }
            if counters[0] == 0 && after.cursor() < counters.len() {
                if at < counters.len() {
                    assert(now[after.cursor() as int] == 0);
                }
            }
        },
    }
}

proof fn lemma_along_round(round: Seq<HorizontalTiering>, i: int)
    requires
        is_round(round),
        draining(round[0]),
        round[0].cursor() == 0,
        round[0].counters@.len() >= 2,
        0 <= i < round.len(),
    ensures
        round[i].counters@.len() == round[0].counters@.len(),
        round[i].k == round[0].k,
        flushes_left(round[i].counters@) == flushes_left(round[0].counters@),
        draining(round[i]),
        i < round.len() - 1 ==> round[i].cursor() < round[i].counters@.len(),
        i == round.len() - 1 ==> is_ready(round[i].counters@),
    decreases i,
{
    if i > 0 {
        lemma_along_round(round, i - 1);
        assert(is_consulted_at(round, i - 1));
        lemma_consulted(round[i - 1], round[i], i - 1 == round.len() - 2);
    }
}

/// A flush, with the compactions that it sets off, uses up one of the flushes that
/// are left, as long as there are any.
pub proof fn law_a_flush_uses_one_up(before: HorizontalTiering, round: Seq<HorizontalTiering>)
    requires
        before.counters@.len() >= 2,
        is_ready(before.counters@),
        !before.exhausted(),
        is_round(round),
        before.flushes_to(round[0]),
    ensures
        flushes_left(round.last().counters@) == flushes_left(before.counters@) - 1,
        is_ready(round.last().counters@),
        round.last().counters@.len() == before.counters@.len(),
        round.last().k == before.k,
{
    let counters = before.counters@;
    let now = round[0].counters@;
    assert(counters[0] > 0) by {
        if counters[0] == 0 {
            assert(all_at(counters, 0));
        }
    }
    lemma_flush_uses_one(counters, counters.len());
    assert forall|i: int| 0 <= i < now.len() - 1 implies #[trigger] no_higher(now, i) by {
        assert(no_higher(counters, i));
    }
    lemma_along_round(round, round.len() - 1);
}

/// Nothing is left exactly when every counter has run out.
pub proof fn law_nothing_is_left_at_the_end(scheme: HorizontalTiering)
    requires
        scheme.counters@.len() >= 2,
        is_ready(scheme.counters@),
    ensures
        flushes_left(scheme.counters@) == 0 <==> scheme.exhausted(),
{
    let counters = scheme.counters@;
    if scheme.exhausted() {
        lemma_left_nothing(counters, counters.len());
    } else {
        lemma_left_bound(counters, counters.len());
        if counters[0] == 0 {
            assert(all_at(counters, 0));
        }
    }
}

/// A schedule of horizontal tiering lasts for exactly as many flushes as its
/// initial counter allows for: with `l` levels and counters that begin at `k`, every
/// counter has run out after `choose(k + l - 1, l)` flushes with their compactions,
/// and not before.
pub proof fn law_the_schedule_lasts(
    start: HorizontalTiering,
    rounds: Seq<Seq<HorizontalTiering>>,
    n: int,
)
    requires
        start.counters@.len() >= 2,
        start.k > 0,
        all_at(start.counters@, start.k),
        0 <= n < rounds.len() <= choices(
            (start.k + start.counters@.len() - 1) as nat,
            start.counters@.len(),
        ),
        forall|i: int| 0 <= i < rounds.len() ==> #[trigger] is_round(rounds[i]),
        start.flushes_to(rounds[0][0]),
        forall|i: int|
            0 < i < rounds.len() ==> rounds[i - 1].last().flushes_to(#[trigger] rounds[i][0]),
    ensures
        flushes_left(rounds[n].last().counters@) == choices(
            (start.k + start.counters@.len() - 1) as nat,
            start.counters@.len(),
        ) - (n + 1),
        is_ready(rounds[n].last().counters@),
        rounds[n].last().counters@.len() == start.counters@.len(),
        rounds[n].last().exhausted() <==> n + 1 == choices(
            (start.k + start.counters@.len() - 1) as nat,
            start.counters@.len(),
        ),
    decreases n,
{
    assert(is_round(rounds[n]));
    if n == 0 {
        let counters = start.counters@;
        assert(counters[0] == start.k);
        assert forall|i: int| 0 <= i < counters.len() - 1 implies #[trigger] no_higher(
            counters,
            i,
        ) by {
            assert(counters[i] == start.k && counters[i + 1] == start.k);
        }
        lemma_left_alike(counters, start.k, counters.len());
        law_a_flush_uses_one_up(start, rounds[0]);
    } else {
        law_the_schedule_lasts(start, rounds, n - 1);
        assert(rounds[n - 1].last().flushes_to(rounds[n][0]));
        law_a_flush_uses_one_up(rounds[n - 1].last(), rounds[n]);
    }
    law_nothing_is_left_at_the_end(rounds[n].last());
}

/// The schedule that is made for a number of flushes lasts for all of them, and the
/// one with a counter less would not.
pub proof fn law_the_schedule_lasts_for_its_data(levels: nat, flushes: u64, k: nat)
    requires
        levels >= 2,
        is_initial_counter(levels, flushes as nat, k),
    ensures
        choices((k + levels - 1) as nat, levels) >= flushes,
        k > 1 ==> choices((k + levels - 2) as nat, levels) < flushes,
{
    assert(allows(levels, k, flushes as nat));
    if k > 1 {
        assert(!allows(levels, (k - 1) as nat, flushes as nat));
    }
}

} // verus!
