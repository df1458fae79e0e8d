//! What the growth schemes keep within bounds.
//!
//! The sizes of levels are those of their files, capacities are powers of the
//! ratio, and a scheme that asks for nothing leaves no level at or over what it
//! may hold.

use vstd::arithmetic::power::{lemma_pow0, pow};
use vstd::prelude::*;

use super::ecotune_scheme::{placed, width_at};
use super::horizontal_tiering::{allows, flushes_for, is_initial_counter};
use super::vertiorizon::{held_above, is_root_half, within_root_half, HorizontalPart};
use super::{
    choices, geometric, lemma_choices_edges, lemma_choices_step, CompactionRequest, EcoTune,
    Granularity, HorizontalLeveling, HorizontalTiering, Vertical, Vertiorizon,
};
use crate::storage::compaction::ecotune::{
    chosen, law_the_schedule_is_consistent, round_merges, EcoTuneConfig, ScheduledMerge,
};
use crate::storage::shape::TreeShape;

verus! {

/// The smaller of a number and what a `u64` holds at most.
pub open spec fn at_most_u64(value: int) -> int {
    if value <= u64::MAX {
        value
    } else {
        u64::MAX as int
    }
}

/// A geometric sequence is its base times a power of its ratio.
pub proof fn law_geometric_is_a_power(base: nat, ratio: nat, exponent: nat)
    ensures
        geometric(base, ratio, exponent) == base * pow(ratio as int, exponent),
    decreases exponent,
{
    if exponent == 0 {
        lemma_pow0(ratio as int);
    } else {
        let less = (exponent - 1) as nat;
        law_geometric_is_a_power(base, ratio, less);
        reveal(pow);
        let p = pow(ratio as int, less);
        assert(pow(ratio as int, exponent) == ratio * p);
        assert(base * p * ratio == base * (ratio * p)) by (nonlinear_arith);
    }
}

/// The ways to choose `k` out of `n` are the binomial coefficients: one to choose
/// nothing or all, none to choose more than there are, and along a row each from the
/// one before it.
pub proof fn law_choices_are_the_binomial_coefficients(n: nat, k: nat)
    ensures
        choices(n, 0) == 1,
        choices(n, n) == 1,
        k > n ==> choices(n, k) == 0,
        k < n ==> (k + 1) * choices(n, k + 1) == (n - k) * choices(n, k),
        k < n ==> choices(n + 1, k + 1) == choices(n, k) + choices(n, k + 1),
{
    lemma_choices_edges(n, k);
    if k < n {
        lemma_choices_step(n, k);
    }
}

// ---------------------------------------------------------------------------
// Vertical growth
// ---------------------------------------------------------------------------

/// Level `i` of a vertical tree may hold `B * T^(i+1)` bytes, as far as a `u64`
/// reaches.
pub proof fn law_vertical_capacities_are_powers(scheme: Vertical, level: nat)
    ensures
        scheme.capacity(level) == at_most_u64(
            scheme.buffer() * pow(scheme.ratio() as int, level + 1),
        ),
{
    law_geometric_is_a_power(scheme.buffer(), scheme.ratio(), level + 1);
}

/// Once vertical growth asks for nothing, every level of the tree is empty or holds
/// less than `B * T^(i+1)` bytes. Until then it asks for the shallowest level that
/// does not: whole if it is level 0 and by a slice below, into the next one.
pub proof fn law_vertical_growth_keeps_levels_within_bounds(
    scheme: Vertical,
    tree: TreeShape,
    after: Vertical,
    request: Option<CompactionRequest>,
)
    requires
        scheme.steps_to(tree, after, request),
    ensures
        request is None ==> forall|i: int|
            0 <= i < tree.levels@.len() ==> (#[trigger] tree.bytes_at(i) == 0 || tree.bytes_at(i)
                < at_most_u64(scheme.buffer() * pow(scheme.ratio() as int, (i + 1) as nat))),
        request matches Some(request) ==> {
            let level = request.first_level as int;
            &&& level < tree.levels@.len()
            &&& tree.bytes_at(level) > 0
            &&& tree.bytes_at(level) >= at_most_u64(
                scheme.buffer() * pow(scheme.ratio() as int, (level + 1) as nat),
            )
            &&& forall|i: int|
                0 <= i < level ==> (#[trigger] tree.bytes_at(i) == 0 || tree.bytes_at(i)
                    < at_most_u64(scheme.buffer() * pow(scheme.ratio() as int, (i + 1) as nat)))
            &&& request.last_level == level
            &&& level < usize::MAX ==> request.target_level == level + 1
            &&& request.merge_units is None
            &&& request.granularity is Full <==> level == 0
        },
        after == scheme,
{
    assert forall|i: int| 0 <= i < tree.levels@.len() && !scheme.full(tree, i) implies (
    #[trigger] tree.bytes_at(i) == 0 || tree.bytes_at(i) < at_most_u64(
        scheme.buffer() * pow(scheme.ratio() as int, (i + 1) as nat),
    )) by {
        law_vertical_capacities_are_powers(scheme, i as nat);
    }
    match request {
        Some(request) => {
            let level = request.first_level as int;
            assert(scheme.full(tree, level));
            law_vertical_capacities_are_powers(scheme, level as nat);
            assert forall|i: int| 0 <= i < level implies (#[trigger] tree.bytes_at(i) == 0
                || tree.bytes_at(i) < at_most_u64(
                scheme.buffer() * pow(scheme.ratio() as int, (i + 1) as nat),
            )) by {
                assert(!scheme.full(tree, i));
            }
        },
        None => {
            assert forall|i: int| 0 <= i < tree.levels@.len() implies (#[trigger] tree.bytes_at(i)
                == 0 || tree.bytes_at(i) < at_most_u64(
                scheme.buffer() * pow(scheme.ratio() as int, (i + 1) as nat),
            )) by {
                assert(!scheme.full(tree, i));
            }
        },
    }
}

/// A tree that holds more asks for no less: if vertical growth asks for nothing, it
/// asks for nothing either where no level holds more.
pub proof fn law_vertical_growth_goes_by_sizes(
    scheme: Vertical,
    tree: TreeShape,
    lighter: TreeShape,
    after: Vertical,
    after_lighter: Vertical,
    request: Option<CompactionRequest>,
)
    requires
        scheme.steps_to(tree, after, None),
        scheme.steps_to(lighter, after_lighter, request),
        lighter.levels@.len() <= tree.levels@.len(),
        forall|i: int| #[trigger] lighter.bytes_at(i) <= tree.bytes_at(i),
    ensures
        request is None,
{
    match request {
        Some(request) => {
            let level = request.first_level as int;
            assert(lighter.bytes_at(level) <= tree.bytes_at(level));
            assert(!scheme.full(tree, level));
        },
        None => {},
    }
}

// ---------------------------------------------------------------------------
// Horizontal growth
// ---------------------------------------------------------------------------

/// Once horizontal leveling asks for nothing, no level from where its pass began holds
/// something and has a counter above the next level's. What it asks for is the first
/// such level, whole, into the next one, whose counter goes up by one while the
/// level's own starts again; every other counter stays.
pub proof fn law_horizontal_leveling_passes_on_what_is_ahead(
    scheme: HorizontalLeveling,
    tree: TreeShape,
    after: HorizontalLeveling,
    request: Option<CompactionRequest>,
)
    requires
        scheme.steps_to(tree, after, request),
        scheme.counters@.len() >= 2,
        scheme.counters@.len() <= usize::MAX,
    ensures
        request is None ==> {
            &&& after.counters@ == scheme.counters@
            &&& forall|i: int|
                scheme.scan_cursor <= i < scheme.counters@.len() - 1 && tree.bytes_at(i) > 0
                    ==> #[trigger] scheme.counters@[i] <= scheme.counters@[i + 1]
        },
        request matches Some(request) ==> {
            let level = request.first_level as int;
            &&& scheme.scan_cursor <= level < scheme.counters@.len() - 1
            &&& scheme.counters@[level] > scheme.counters@[level + 1]
            &&& tree.bytes_at(level) > 0
            &&& forall|i: int|
                scheme.scan_cursor <= i < level && tree.bytes_at(i) > 0
                    ==> #[trigger] scheme.counters@[i] <= scheme.counters@[i + 1]
            &&& request == (CompactionRequest {
                first_level: level as usize,
                last_level: level as usize,
                target_level: (level + 1) as usize,
                granularity: Granularity::Full,
                merge_units: None,
            })
            &&& after.counters@.len() == scheme.counters@.len()
            &&& after.counters@[level] == 0
            &&& after.counters@[level + 1] == scheme.counters@[level + 1] + 1
            &&& forall|i: int|
                0 <= i < scheme.counters@.len() && i != level && i != level + 1
                    ==> #[trigger] after.counters@[i] == scheme.counters@[i]
            &&& after.scan_cursor == level + 1
        },
{
    match request {
        Some(request) => {
            let level = request.first_level as int;
            assert(scheme.fires(tree, level));
            assert forall|i: int|
                scheme.scan_cursor <= i < level && tree.bytes_at(i)
                    > 0 implies #[trigger] scheme.counters@[i] <= scheme.counters@[i + 1] by {
                assert(!scheme.fires(tree, i));
            }
        },
        None => {
            assert forall|i: int|
                scheme.scan_cursor <= i < scheme.counters@.len() - 1 && tree.bytes_at(i)
                    > 0 implies #[trigger] scheme.counters@[i] <= scheme.counters@[i + 1] by {
                assert(!scheme.fires(tree, i));
            }
        },
    }
}

/// A flush is one more at level 0, and begins a pass there.
pub proof fn law_horizontal_leveling_counts_flushes(
    scheme: HorizontalLeveling,
    after: HorizontalLeveling,
)
    requires
        scheme.flushes_to(after),
        scheme.counters@.len() >= 2,
    ensures
        after.counters@.len() == scheme.counters@.len(),
        scheme.counters@[0] < u64::MAX ==> after.counters@[0] == scheme.counters@[0] + 1,
        forall|i: int|
            0 < i < scheme.counters@.len() ==> #[trigger] after.counters@[i]
                == scheme.counters@[i],
        after.scan_cursor == 0,
{
}

/// Once horizontal tiering asks for nothing, no level from where its pass began holds
/// something and has a counter that has run out. What it asks for is the first such
/// level, whole, into the next one, whose counter goes down by one; it and every level
/// above it start again from there, and every counter below stays.
pub proof fn law_horizontal_tiering_passes_on_what_has_run_out(
    scheme: HorizontalTiering,
    tree: TreeShape,
    after: HorizontalTiering,
    request: Option<CompactionRequest>,
)
    requires
        scheme.steps_to(tree, after, request),
        2 <= scheme.counters@.len() <= usize::MAX,
    ensures
        after.k == scheme.k && after.buffer_bytes == scheme.buffer_bytes && after.horizon_bytes
            == scheme.horizon_bytes,
        request is None ==> {
            &&& after.counters@ == scheme.counters@
            &&& forall|i: int|
                scheme.scan_cursor <= i < scheme.counters@.len() - 1 && tree.bytes_at(i) > 0
                    ==> #[trigger] scheme.counters@[i] > 0
        },
        request matches Some(request) ==> {
            let level = request.first_level as int;
            &&& scheme.scan_cursor <= level < scheme.counters@.len() - 1
            &&& scheme.counters@[level] == 0
            &&& tree.bytes_at(level) > 0
            &&& forall|i: int|
                scheme.scan_cursor <= i < level && tree.bytes_at(i) > 0
                    ==> #[trigger] scheme.counters@[i] > 0
            &&& request == (CompactionRequest {
                first_level: level as usize,
                last_level: level as usize,
                target_level: (level + 1) as usize,
                granularity: Granularity::Full,
                merge_units: None,
            })
            &&& after.counters@.len() == scheme.counters@.len()
            &&& scheme.counters@[level + 1] > 0 ==> after.counters@[level + 1]
                == scheme.counters@[level + 1] - 1
            &&& scheme.counters@[level + 1] == 0 ==> after.counters@[level + 1] == 0
            &&& forall|i: int|
                0 <= i <= level ==> #[trigger] after.counters@[i] == after.counters@[level + 1]
            &&& forall|i: int|
                level + 1 < i < scheme.counters@.len() ==> #[trigger] after.counters@[i]
                    == scheme.counters@[i]
            &&& after.scan_cursor == level + 1
        },
{
    match request {
        Some(request) => {
            let level = request.first_level as int;
            assert(scheme.fires(tree, level));
            assert forall|i: int|
                scheme.scan_cursor <= i < level && tree.bytes_at(i)
                    > 0 implies #[trigger] scheme.counters@[i] > 0 by {
                assert(!scheme.fires(tree, i));
            }
        },
        None => {
            assert forall|i: int|
                scheme.scan_cursor <= i < scheme.counters@.len() - 1 && tree.bytes_at(i)
                    > 0 implies #[trigger] scheme.counters@[i] > 0 by {
                assert(!scheme.fires(tree, i));
            }
        },
    }
}

/// The flushes that a data size comes to hold it, one less would not, and there is at
/// least one.
pub proof fn law_flushes_hold_the_data(buffer: nat, data: nat)
    requires
        buffer > 0,
    ensures
        flushes_for(buffer, data) >= 1,
        flushes_for(buffer, data) * buffer >= data,
        flushes_for(buffer, data) > 1 ==> (flushes_for(buffer, data) - 1) * buffer < data,
{
    let sum = (data + buffer - 1) as int;
    let b = buffer as int;
    let q = sum / b;
    vstd::arithmetic::div_mod::lemma_fundamental_div_mod(sum, b);
    assert(b * q == q * b) by (nonlinear_arith);
    assert((q - 1) * b == q * b - b) by (nonlinear_arith);
    assert(q >= 0) by (nonlinear_arith)
        requires
            q * b + sum % b == sum,
            0 <= sum % b < b,
            sum >= 0,
            b > 0,
    ;
    if q == 0 {
        assert(0 * b == 0);
        assert(data == 0);
    }
}

/// Where a schedule of horizontal tiering has not run its course a flush takes one off
/// level 0 and leaves every other counter. Where it has, it starts again for a data
/// size at least twice as large, as far as a `u64` reaches, with a counter that lasts
/// for it and that is above the last.
pub proof fn law_horizontal_tiering_counts_flushes(
    scheme: HorizontalTiering,
    after: HorizontalTiering,
)
    requires
        scheme.flushes_to(after),
        scheme.counters@.len() >= 2,
        scheme.buffer_bytes > 0,
    ensures
        after.scan_cursor == 0,
        after.buffer_bytes == scheme.buffer_bytes,
        after.counters@.len() == scheme.counters@.len(),
        (exists|i: int| 0 <= i < scheme.counters@.len() && #[trigger] scheme.counters@[i] > 0)
            ==> {
            &&& after.k == scheme.k
            &&& after.horizon_bytes == scheme.horizon_bytes
            &&& scheme.counters@[0] > 0 ==> after.counters@[0] == scheme.counters@[0] - 1
            &&& forall|i: int|
                0 < i < scheme.counters@.len() ==> #[trigger] after.counters@[i]
                    == scheme.counters@[i]
        },
        (forall|i: int| 0 <= i < scheme.counters@.len() ==> #[trigger] scheme.counters@[i] == 0)
            ==> {
            let levels = scheme.counters@.len();
            &&& after.horizon_bytes >= at_most_u64(2 * scheme.horizon_bytes)
            &&& after.horizon_bytes >= scheme.buffer_bytes
            &&& after.horizon_bytes == at_most_u64(2 * scheme.horizon_bytes)
                || after.horizon_bytes == scheme.buffer_bytes
            &&& scheme.k < u64::MAX ==> after.k > scheme.k
            &&& at_most_u64(choices((after.k + levels - 1) as nat, levels) as int)
                * scheme.buffer_bytes >= after.horizon_bytes
            &&& after.counters@[0] == after.k - 1
            &&& forall|i: int| 0 < i < levels ==> #[trigger] after.counters@[i] == after.k
        },
{
    if scheme.exhausted() {
        let levels = scheme.counters@.len();
        let flushes = flushes_for(after.buffer(), after.horizon());
        let initial = choose|initial: nat| #[trigger]
            is_initial_counter(levels, flushes, initial) && after.k == if initial
                < super::horizontal::counted(scheme.k) {
                super::horizontal::counted(scheme.k) as nat
            } else {
                initial
            };
        assert(allows(levels, initial, flushes));
        super::lemma_choices_grow(
            (initial + levels - 1) as nat,
            (after.k + levels - 1) as nat,
            levels,
        );
        law_flushes_hold_the_data(after.buffer(), after.horizon());
        let b = scheme.buffer_bytes as int;
        let most = at_most_u64(choices((after.k + levels - 1) as nat, levels) as int);
        assert(most * b >= flushes * b) by (nonlinear_arith)
            requires
                most >= flushes,
                b >= 0,
        ;
    }
}

// ---------------------------------------------------------------------------
// Vertiorizon
// ---------------------------------------------------------------------------

/// The sizes of the first `levels` levels.
pub open spec fn first_sizes(tree: TreeShape, levels: nat) -> Seq<int> {
    Seq::new(levels, |i: int| tree.bytes_at(i) as int)
}

/// A sum of numbers.
pub open spec fn total_of(numbers: Seq<int>) -> int {
    numbers.fold_left(0int, |sum: int, number: int| sum + number)
}

/// What the first levels hold together is the sum of what each holds, and so no less
/// than what one of them does.
pub proof fn law_held_above_is_the_sum(tree: TreeShape, levels: nat)
    ensures
        held_above(tree, levels) == total_of(first_sizes(tree, levels)),
        forall|i: int|
            0 <= i < levels ==> #[trigger] tree.bytes_at(i) <= held_above(tree, levels),
    decreases levels,
{
    let sizes = first_sizes(tree, levels);
    if levels > 0 {
        let less = (levels - 1) as nat;
        law_held_above_is_the_sum(tree, less);
        assert(sizes.drop_last() =~= first_sizes(tree, less));
        assert(sizes.last() == tree.bytes_at(levels - 1));
        reveal_with_fuel(Seq::fold_left, 2);
    } else {
        reveal_with_fuel(Seq::fold_left, 1);
    }
}

/// The horizontal part is drained, all of its levels at once into the first vertical
/// one, exactly when its levels hold `n * B` bytes or more together: in particular when
/// any one of them does.
pub proof fn law_a_full_horizontal_part_is_drained(
    scheme: Vertiorizon,
    tree: TreeShape,
    after: Vertiorizon,
    request: Option<CompactionRequest>,
)
    requires
        scheme.steps_to(tree, after, request),
        2 <= scheme.horizontal_levels < usize::MAX,
        scheme.horizontal.level_count() == scheme.horizontal_levels,
    ensures
        ({
            let drain = CompactionRequest {
                first_level: 0,
                last_level: (scheme.horizontal_levels - 1) as usize,
                target_level: scheme.horizontal_levels,
                granularity: Granularity::Full,
                merge_units: None,
            };
            let capacity = at_most_u64(scheme.n * scheme.buffer_bytes);
            let held = total_of(first_sizes(tree, scheme.horizontal_levels as nat));
            &&& held >= capacity ==> request == Some(drain)
            &&& (exists|i: int|
                0 <= i < scheme.horizontal_levels && #[trigger] tree.bytes_at(i) >= capacity)
                ==> request == Some(drain)
            &&& held < capacity ==> request != Some(drain)
        }),
{
    law_held_above_is_the_sum(tree, scheme.horizontal_levels as nat);
    if !scheme.part_full(tree) {
        let inner = choose|inner: Option<CompactionRequest>| #[trigger]
            scheme.horizontal.steps_to(tree, after.horizontal, inner) && match inner {
                Some(inner) => request == Some(inner) && after.resize_pending
                    == scheme.resize_pending,
                None => if scheme.first_vertical_full(tree) {
                    &&& request == Some(
                        super::one_level(scheme.horizontal_levels as nat, Granularity::Partial),
                    )
                    &&& after.resize_pending == scheme.resize_pending
                } else {
                    &&& request is None
                    &&& after.resize_pending == (scheme.resize_pending || tree.bytes_at(
                        scheme.horizontal_levels + 1,
                    ) >= scheme.largest_capacity())
                },
            };
    }
}

/// Whether the part is drained goes by what its levels hold together: moving bytes from
/// one of its levels to another makes no difference.
pub proof fn law_drains_go_by_the_whole_part(
    scheme: Vertiorizon,
    tree: TreeShape,
    other: TreeShape,
    after: Vertiorizon,
    after_other: Vertiorizon,
    request: Option<CompactionRequest>,
    request_other: Option<CompactionRequest>,
)
    requires
        scheme.steps_to(tree, after, request),
        scheme.steps_to(other, after_other, request_other),
        2 <= scheme.horizontal_levels < usize::MAX,
        scheme.horizontal.level_count() == scheme.horizontal_levels,
        total_of(first_sizes(tree, scheme.horizontal_levels as nat)) == total_of(
            first_sizes(other, scheme.horizontal_levels as nat),
        ),
    ensures
        ({
            let drain = CompactionRequest {
                first_level: 0,
                last_level: (scheme.horizontal_levels - 1) as usize,
                target_level: scheme.horizontal_levels,
                granularity: Granularity::Full,
                merge_units: None,
            };
            request == Some(drain) <==> request_other == Some(drain)
        }),
{
    law_a_full_horizontal_part_is_drained(scheme, tree, after, request);
    law_a_full_horizontal_part_is_drained(scheme, other, after_other, request_other);
}

/// Once vertiorizon asks for nothing, every part of the tree is within its bounds: the
/// horizontal part holds less than `n * B` bytes; the first vertical level is empty or
/// holds, with one byte more, no more than `n * B * T / sqrt 2`; and if the largest
/// level holds `n * B * T^2` or more, the tree is going to grow.
pub proof fn law_vertiorizon_keeps_its_parts_within_bounds(
    scheme: Vertiorizon,
    tree: TreeShape,
    after: Vertiorizon,
)
    requires
        scheme.steps_to(tree, after, None),
        scheme.horizontal_levels < usize::MAX,
    ensures
        ({
            let capacity = at_most_u64(scheme.n * scheme.buffer_bytes);
            let scaled = capacity * scheme.size_ratio;
            let first = tree.bytes_at(scheme.horizontal_levels as int) as int;
            let largest = tree.bytes_at(scheme.horizontal_levels + 1) as int;
            &&& total_of(first_sizes(tree, scheme.horizontal_levels as nat)) < capacity
            &&& first == 0 || 2 * ((first + 1) * (first + 1)) <= scaled * scaled
            &&& after.n == scheme.n
            &&& largest >= at_most_u64(scaled * scheme.size_ratio) ==> after.resize_pending
            &&& scheme.resize_pending ==> after.resize_pending
            &&& after.resize_pending && !scheme.resize_pending ==> largest >= at_most_u64(
                scaled * scheme.size_ratio,
            )
        }),
{
    law_held_above_is_the_sum(tree, scheme.horizontal_levels as nat);
    super::vertiorizon::law_the_largest_level_is_the_ratio_squared(scheme);
    let first = tree.bytes_at(scheme.horizontal_levels as int);
    let scaled = (scheme.horizontal_capacity() * scheme.size_ratio) as nat;
    assert(scheme.horizontal_capacity() as nat * scheme.size_ratio as nat == scaled);
    let capacity = super::vertiorizon::lemma_root_half_exists(scaled);
    assert(scheme.is_first_vertical_capacity(capacity));
    if first > 0 {
        assert(first < capacity);
        assert((first + 1) * (first + 1) <= capacity * capacity) by (nonlinear_arith)
            requires
                0 <= first < capacity,
        ;
    }
}

/// A slice of the first vertical level moves on only while it holds at least
/// `n * B * T / sqrt 2` bytes, the fraction of a byte aside.
pub proof fn law_vertical_slices_come_from_a_full_level(
    scheme: Vertiorizon,
    tree: TreeShape,
    after: Vertiorizon,
    request: CompactionRequest,
)
    requires
        scheme.steps_to(tree, after, Some(request)),
        2 <= scheme.horizontal_levels < usize::MAX,
        scheme.horizontal.level_count() == scheme.horizontal_levels,
        request.first_level == scheme.horizontal_levels,
    ensures
        ({
            let scaled = at_most_u64(scheme.n * scheme.buffer_bytes) * scheme.size_ratio;
            let first = tree.bytes_at(scheme.horizontal_levels as int) as int;
            &&& first > 0
            &&& first < u64::MAX ==> 2 * ((first + 1) * (first + 1)) > scaled * scaled
            &&& request == (CompactionRequest {
                first_level: scheme.horizontal_levels,
                last_level: scheme.horizontal_levels,
                target_level: (scheme.horizontal_levels + 1) as usize,
                granularity: Granularity::Partial,
                merge_units: None,
            })
            &&& total_of(first_sizes(tree, scheme.horizontal_levels as nat)) < at_most_u64(
                scheme.n * scheme.buffer_bytes,
            )
        }),
{
    law_held_above_is_the_sum(tree, scheme.horizontal_levels as nat);
    assert(!scheme.part_full(tree));
    assert(scheme.first_vertical_full(tree));
    let first = tree.bytes_at(scheme.horizontal_levels as int);
    let scaled = scheme.horizontal_capacity() as nat * scheme.size_ratio as nat;
    let capacity = choose|capacity: u64| #[trigger]
        scheme.is_first_vertical_capacity(capacity) && first >= capacity;
    assert(is_root_half(capacity, scaled));
    if first < u64::MAX {
        assert(!within_root_half((capacity + 1) as nat, scaled));
        assert((first + 1) * (first + 1) >= (capacity + 1) * (capacity + 1)) by (nonlinear_arith)
            requires
                first >= capacity,
                capacity >= 0,
        ;
    }
}

/// The horizontal part grows with a drain and only with one: by the share `1 / T`, at
/// least by one buffer, if the largest level had filled before it.
pub proof fn law_the_part_grows_with_a_drain(
    scheme: Vertiorizon,
    tree: TreeShape,
    after: Vertiorizon,
    request: Option<CompactionRequest>,
)
    requires
        scheme.steps_to(tree, after, request),
        scheme.size_ratio >= 2,
    ensures
        ({
            let full = total_of(first_sizes(tree, scheme.horizontal_levels as nat))
                >= at_most_u64(scheme.n * scheme.buffer_bytes);
            let share = scheme.n as int / scheme.size_ratio as int;
            &&& !full || !scheme.resize_pending ==> after.n == scheme.n
            &&& full ==> !after.resize_pending
            &&& full && scheme.resize_pending && share == 0 ==> after.n == at_most_u64(
                scheme.n + 1,
            )
            &&& full && scheme.resize_pending && share > 0 ==> after.n == at_most_u64(
                scheme.n + share,
            )
        }),
        after.horizontal_levels == scheme.horizontal_levels,
        after.buffer_bytes == scheme.buffer_bytes,
        after.size_ratio == scheme.size_ratio,
{
    law_held_above_is_the_sum(tree, scheme.horizontal_levels as nat);
}

// ---------------------------------------------------------------------------
// EcoTune
// ---------------------------------------------------------------------------

/// The chosen merges of a round come one after the other.
proof fn lemma_chosen_ascend(merges: Seq<ScheduledMerge>)
    requires
        forall|i: int, j: int|
            #![trigger merges[i], merges[j]]
            0 <= i < j < merges.len() ==> merges[i].after_unit_runs < merges[j].after_unit_runs,
    ensures
        forall|i: int, j: int|
            #![trigger chosen(merges)[i], chosen(merges)[j]]
            0 <= i < j < chosen(merges).len() ==> chosen(merges)[i].after_unit_runs < chosen(
                merges,
            )[j].after_unit_runs,
        forall|i: int| 0 <= i < chosen(merges).len() ==> merges.contains(#[trigger] chosen(merges)[i]),
    decreases merges.len(),
{
    reveal(Seq::filter);
    let list = chosen(merges);
    if merges.len() > 0 {
        let head = merges.drop_last();
        let before = chosen(head);
        assert forall|i: int, j: int|
            #![trigger head[i], head[j]]
            0 <= i < j < head.len() implies head[i].after_unit_runs < head[j].after_unit_runs by {
            assert(head[i] == merges[i] && head[j] == merges[j]);
        }
        lemma_chosen_ascend(head);
        assert forall|i: int| 0 <= i < list.len() implies merges.contains(#[trigger] list[i]) by {
            if i < before.len() {
                assert(list[i] == before[i]);
                let k = choose|k: int| 0 <= k < head.len() && head[k] == before[i];
                assert(merges[k] == list[i]);
            } else {
                assert(merges[merges.len() - 1] == list[i]);
            }
        }
        assert forall|i: int, j: int|
            #![trigger list[i], list[j]]
            0 <= i < j < list.len() implies list[i].after_unit_runs < list[j].after_unit_runs by {
            assert(list[i] == before[i]);
            if j < before.len() {
                assert(list[j] == before[j]);
            } else {
                let k = choose|k: int| 0 <= k < head.len() && head[k] == before[i];
                assert(merges[k] == list[i]);
                assert(merges[merges.len() - 1] == list[j]);
            }
        }
    }
}

/// A place is looked up by its first merge.
proof fn lemma_width_at(schedule: Seq<(usize, usize)>, i: int)
    requires
        0 <= i < schedule.len(),
        forall|j: int| 0 <= j < i ==> (#[trigger] schedule[j]).0 != schedule[i].0,
    ensures
        width_at(schedule, schedule[i].0) == Some(schedule[i].1),
    decreases schedule.len(),
{
    if i > 0 {
        assert(schedule[0].0 != schedule[i].0);
        let rest = schedule.drop_first();
        assert forall|j: int| 0 <= j < i - 1 implies (#[trigger] rest[j]).0 != rest[i - 1].0 by {
            assert(rest[j] == schedule[j + 1]);
        }
        lemma_width_at(rest, i - 1);
    }
}

proof fn lemma_no_width_at(schedule: Seq<(usize, usize)>, position: usize)
    requires
        forall|j: int| 0 <= j < schedule.len() ==> (#[trigger] schedule[j]).0 != position,
    ensures
        width_at(schedule, position) is None,
    decreases schedule.len(),
{
    if schedule.len() > 0 {
        assert(schedule[0].0 != position);
        let rest = schedule.drop_first();
        assert forall|j: int| 0 <= j < rest.len() implies (#[trigger] rest[j]).0 != position by {
            assert(rest[j] == schedule[j + 1]);
        }
        lemma_no_width_at(rest, position);
    }
}

/// The scheme runs the schedule that was chosen: when a flush is to be served, the
/// round is not over, the schedule places a merge of `width` after as many unit runs as
/// were made, and the main level holds two runs or more, then the merge of that many
/// units within the main level is what is asked for, and it is not a unit run.
pub proof fn law_the_chosen_schedule_is_run(
    scheme: EcoTune,
    tree: TreeShape,
    after: EcoTune,
    request: Option<CompactionRequest>,
    config: EcoTuneConfig,
    merge: ScheduledMerge,
)
    requires
        config.valid(),
        scheme.made_for() == config,
        scheme.schedule@ == placed(chosen(round_merges(config))),
        scheme.steps_to(tree, after, request),
        !scheme.scanned,
        scheme.position < config.runs_per_round || scheme.position == 0,
        chosen(round_merges(config)).contains(merge),
        merge.after_unit_runs == scheme.position,
        tree.levels@.len() > 1,
        tree.levels@[1].runs@.len() >= 2,
    ensures
        request == Some(
            CompactionRequest {
                first_level: 1,
                last_level: 1,
                target_level: 1,
                granularity: Granularity::Full,
                merge_units: Some(merge.width),
            },
        ),
        after.position == scheme.position,
        after.schedule == scheme.schedule,
{
    let merges = chosen(round_merges(config));
    law_the_schedule_is_consistent(config);
    lemma_chosen_ascend(round_merges(config));
    let i = choose|i: int| 0 <= i < merges.len() && merges[i] == merge;
    let schedule = scheme.schedule@;
    assert(schedule[i] == (merge.after_unit_runs, merge.width));
    assert forall|j: int| 0 <= j < i implies (#[trigger] schedule[j]).0 != schedule[i].0 by {
        assert(merges[j].after_unit_runs < merges[i].after_unit_runs);
    }
    lemma_width_at(schedule, i);
}

/// Where the schedule places nothing, or the main level holds one run at most, a full
/// top level becomes one unit run of the main level, and one that is not full is left
/// alone. At the end of a round everything goes into the last level, and a new round
/// begins. Nothing is asked for twice after one flush.
pub proof fn law_unit_runs_make_a_round(
    scheme: EcoTune,
    tree: TreeShape,
    after: EcoTune,
    request: Option<CompactionRequest>,
    config: EcoTuneConfig,
)
    requires
        config.valid(),
        scheme.made_for() == config,
        scheme.schedule@ == placed(chosen(round_merges(config))),
        scheme.steps_to(tree, after, request),
    ensures
        after.scanned,
        after.schedule == scheme.schedule,
        after.made_for() == config,
        after.top_capacity_bytes == scheme.top_capacity_bytes,
        scheme.scanned ==> request is None && after.position == scheme.position,
        !scheme.scanned && scheme.position > 0 && scheme.position >= config.runs_per_round ==> {
            &&& after.position == 0
            &&& request is None <==> tree.bytes_at(0) == 0 && tree.bytes_at(1) == 0
            &&& request matches Some(request) ==> request == (CompactionRequest {
                first_level: 0,
                last_level: 2,
                target_level: 2,
                granularity: Granularity::Full,
                merge_units: None,
            })
        },
        !scheme.scanned && (scheme.position < config.runs_per_round || scheme.position == 0) && ((
        forall|i: int|
            0 <= i < chosen(round_merges(config)).len() ==> (#[trigger] chosen(
                round_merges(config),
            )[i]).after_unit_runs != scheme.position) || tree.levels@.len() <= 1
            || tree.levels@[1].runs@.len() <= 1) ==> {
            &&& tree.bytes_at(0) >= scheme.top_capacity_bytes ==> after.position
                == scheme.position + 1 && request == Some(
                CompactionRequest {
                    first_level: 0,
                    last_level: 0,
                    target_level: 1,
                    granularity: Granularity::Full,
                    merge_units: None,
                },
            )
            &&& tree.bytes_at(0) < scheme.top_capacity_bytes ==> after.position
                == scheme.position && request is None
        },
{
    let merges = chosen(round_merges(config));
    if forall|i: int|
        0 <= i < merges.len() ==> (#[trigger] merges[i]).after_unit_runs != scheme.position {
        let schedule = scheme.schedule@;
        assert forall|j: int| 0 <= j < schedule.len() implies (#[trigger] schedule[j]).0
            != scheme.position by {
            assert(merges[j].after_unit_runs != scheme.position);
        }
        lemma_no_width_at(schedule, scheme.position);
    }
}

/// While it is not full, the horizontal part runs its own schedule: what that asks for is
/// what is asked for, and a flush counts for it.
pub proof fn law_the_part_runs_its_own_schedule(
    scheme: Vertiorizon,
    tree: TreeShape,
    after: Vertiorizon,
    request: Option<CompactionRequest>,
) -> (inner: Option<CompactionRequest>)
    requires
        scheme.steps_to(tree, after, request),
        total_of(first_sizes(tree, scheme.horizontal_levels as nat)) < at_most_u64(
            scheme.n * scheme.buffer_bytes,
        ),
    ensures
        scheme.horizontal.steps_to(tree, after.horizontal, inner),
        inner is Some ==> request == inner,
        request is None ==> inner is None,
        scheme.horizontal matches HorizontalPart::Leveling(part) ==> after.horizontal is Leveling
            && part.steps_to(tree, after.horizontal->Leveling_0, inner),
        scheme.horizontal matches HorizontalPart::Tiering(part) ==> after.horizontal is Tiering
            && part.steps_to(tree, after.horizontal->Tiering_0, inner),
{
    law_held_above_is_the_sum(tree, scheme.horizontal_levels as nat);
    assert(!scheme.part_full(tree));
    choose|inner: Option<CompactionRequest>| #[trigger]
        scheme.horizontal.steps_to(tree, after.horizontal, inner) && match inner {
            Some(inner) => request == Some(inner),
            None => request is None || request == Some(
                super::one_level(scheme.horizontal_levels as nat, Granularity::Partial),
            ),
        }
}

/// A flush is counted by the horizontal part, and changes nothing else.
pub proof fn law_the_part_counts_flushes(scheme: Vertiorizon, after: Vertiorizon)
    requires
        scheme.flushes_to(after),
    ensures
        scheme.horizontal matches HorizontalPart::Leveling(part) ==> after.horizontal is Leveling
            && part.flushes_to(after.horizontal->Leveling_0),
        scheme.horizontal matches HorizontalPart::Tiering(part) ==> after.horizontal is Tiering
            && part.flushes_to(after.horizontal->Tiering_0),
        after.n == scheme.n,
        after.resize_pending == scheme.resize_pending,
{
}

} // verus!
