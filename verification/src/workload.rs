//! Deterministic workloads for measuring the engine.
//!
//! Every number that is reported has to be reproducible from a seed, so the
//! generator is part of what is reported: a seeded generator of numbers, three
//! distributions of keys, and a mix of operations.
//!
//! The distribution of keys matters. With ascending keys every flush covers a
//! range of its own, and leveling has nothing to rewrite; scatter the same keys,
//! and it does.
//!
//! Shares are fixed-point numbers in units of 2^-40, and draws between zero and
//! one are in units of 2^-53.

use vstd::prelude::*;
use vstd::set_lib::{lemma_int_range, lemma_len_subset, lemma_map_size, set_int_range};
use vstd::string::*;

use crate::storage::order::{lemma_lex_irreflexive, lex_lt};
use crate::storage::text::{padded, push_number};

verus! {

/// One, as a fixed-point number.
pub const SHARE_UNIT: u64 = 0x100_0000_0000;

/// One, as a draw.
pub const DRAW_UNIT: u64 = 0x20_0000_0000_0000;

// ---------------------------------------------------------------------------
// Numbers
// ---------------------------------------------------------------------------

/// The state after a step.
pub open spec fn stepped(state: u64) -> u64 {
    let x = state ^ (state >> 12);
    let y = x ^ (x << 25);
    y ^ (y >> 27)
}

/// The number that a state gives.
pub open spec fn output(state: u64) -> u64 {
    ((state as nat * 0x2545_F491_4F6C_DD1D) % 0x1_0000_0000_0000_0000) as u64
}

/// The state after a number of steps.
pub open spec fn stepped_by(state: u64, steps: nat) -> u64
    decreases steps,
{
    if steps == 0 {
        state
    } else {
        stepped(stepped_by(state, (steps - 1) as nat))
    }
}

/// A generator that is not stuck never gets stuck.
pub proof fn law_the_state_stays_alive(state: u64)
    requires
        state != 0,
    ensures
        stepped(state) != 0,
{
    let x = state ^ (state >> 12);
    let y = x ^ (x << 25);
    let z = y ^ (y >> 27);
    assert(state != 0 ==> x != 0) by (bit_vector)
        requires
            x == state ^ (state >> 12),
    ;
    assert(x != 0 ==> y != 0) by (bit_vector)
        requires
            y == x ^ (x << 25),
    ;
    assert(y != 0 ==> z != 0) by (bit_vector)
        requires
            z == y ^ (y >> 27),
    ;
}

/// A small seeded generator of numbers. Not for secrets: what it has to be is
/// reproducible.
#[derive(Debug, Clone)]
pub struct Rng {
    state: u64,
}

/// The largest number that a bounded draw accepts: whole multiples of the bound
/// lie below it, so that no remainder comes up more often than another.
pub open spec fn zone(bound: u64) -> u64 {
    (u64::MAX - u64::MAX % bound - 1) as u64
}

/// The numbers that a bounded draw accepts are a whole multiple of the bound: no
/// remainder is more likely than another.
pub proof fn law_bounded_draws_are_unbiased(bound: u64)
    requires
        bound > 0,
    ensures
        (zone(bound) + 1) % bound as int == 0,
{
    let max = u64::MAX as int;
    let b = bound as int;
    vstd::arithmetic::div_mod::lemma_fundamental_div_mod(max, b);
    vstd::arithmetic::div_mod::lemma_mod_multiples_basic(max / b, b);
    assert(max - max % b == (max / b) * b) by (nonlinear_arith)
        requires
            max == b * (max / b) + max % b,
    ;
}

/// How many steps from a state give a number that is accepted, if any of the
/// first `tries` do, else all of them.
pub open spec fn steps_to_accept(state: u64, bound: u64, tries: nat) -> nat
    decreases tries,
{
    if tries == 0 {
        0
    } else if output(stepped(state)) <= zone(bound) {
        1
    } else {
        1 + steps_to_accept(stepped(state), bound, (tries - 1) as nat)
    }
}

/// A state gives a number below the bound, or none of the first `tries` numbers is
/// accepted, and it gives zero.
pub open spec fn bounded(state: u64, bound: u64, tries: nat) -> u64
    decreases tries,
{
    if bound == 0 || tries == 0 {
        0
    } else if output(stepped(state)) <= zone(bound) {
        (output(stepped(state)) % bound) as u64
    } else {
        bounded(stepped(state), bound, (tries - 1) as nat)
    }
}

/// The steps that a bounded draw takes.
pub open spec fn bounded_steps(state: u64, bound: u64) -> nat {
    if bound == 0 {
        0
    } else {
        steps_to_accept(state, bound, u64::MAX as nat)
    }
}

/// A bounded draw.
pub open spec fn bounded_draw(state: u64, bound: u64) -> u64 {
    bounded(state, bound, u64::MAX as nat)
}

/// A bounded draw is below its bound.
pub proof fn law_bounded_draws_are_below(state: u64, bound: u64, tries: nat)
    requires
        bound > 0,
    ensures
        bounded(state, bound, tries) < bound,
    decreases tries,
{
    if tries > 0 && output(stepped(state)) > zone(bound) {
        law_bounded_draws_are_below(stepped(state), bound, (tries - 1) as nat);
    }
}

/// The `n`-th of the numbers that a generator gives from a state on, counting from
/// zero.
pub open spec fn nth_output(state: u64, n: nat) -> u64 {
    output(stepped_by(state, n + 1))
}

/// The `n`-th number is the first that a bounded draw accepts.
pub open spec fn first_accepted(state: u64, bound: u64, n: nat) -> bool {
    &&& nth_output(state, n) <= zone(bound)
    &&& forall|i: nat| i < n ==> #[trigger] nth_output(state, i) > zone(bound)
}

/// A bounded draw is the remainder of the first number that it accepts, and steps
/// past exactly that number, however late it comes; below zero there is nothing, and
/// nothing is drawn.
pub proof fn law_the_first_accepted_number_is_drawn(state: u64, bound: u64, n: nat)
    requires
        bound > 0 ==> first_accepted(state, bound, n),
    ensures
        bound == 0 ==> bounded_draw(state, bound) == 0 && bounded_steps(state, bound) == 0,
        bound > 0 ==> bounded_draw(state, bound) == nth_output(state, n) % bound
            && bounded_steps(state, bound) == n + 1,
{
    if bound > 0 {
        lemma_accepted_in_time(state, bound, n);
        lemma_accepted(state, bound, n, u64::MAX as nat);
    }
}

/// Steps after steps.
proof fn lemma_steps_add(state: u64, a: nat, b: nat)
    ensures
        stepped_by(stepped_by(state, a), b) == stepped_by(state, a + b),
    decreases b,
{
    if b > 0 {
        lemma_steps_add(state, a, (b - 1) as nat);
    }
}

/// A generator that is not stuck is not stuck later.
proof fn lemma_steps_stay_alive(state: u64, n: nat)
    requires
        state != 0,
    ensures
        stepped_by(state, n) != 0,
    decreases n,
{
    if n > 0 {
        lemma_steps_stay_alive(state, (n - 1) as nat);
        law_the_state_stays_alive(stepped_by(state, (n - 1) as nat));
    }
}

/// Up to the first number that is accepted no state comes twice: what follows would
/// come twice too, and so would that number.
proof fn lemma_states_differ(state: u64, bound: u64, n: nat, i: nat, j: nat)
    requires
        first_accepted(state, bound, n),
        i < j <= n,
    ensures
        stepped_by(state, i) != stepped_by(state, j),
{
    if stepped_by(state, i) == stepped_by(state, j) {
        let left = (n + 1 - j) as nat;
        lemma_steps_add(state, i, left);
        lemma_steps_add(state, j, left);
        let earlier = (n - (j - i)) as nat;
        assert(i + left == earlier + 1);
        assert(j + left == n + 1);
        assert(nth_output(state, earlier) == nth_output(state, n));
    }
}

/// There are fewer states that are not stuck than a `u64` can count, so that the first
/// number that is accepted comes among as many.
proof fn lemma_accepted_in_time(state: u64, bound: u64, n: nat)
    requires
        bound > 0,
        first_accepted(state, bound, n),
    ensures
        n < u64::MAX,
{
    if state == 0 {
        assert(stepped_by(state, 0) == 0);
        assert(stepped(0) == 0) by (bit_vector);
        assert(stepped_by(state, 1) == stepped(stepped_by(state, 0)));
        assert(nth_output(state, 0) == 0);
        if n > 0 {
            assert(nth_output(state, 0) > zone(bound));
        }
    } else {
        let places = set_int_range(0, n as int + 1);
        let states = set_int_range(1, u64::MAX as int + 1);
        let state_at = |i: int| stepped_by(state, i as nat) as int;
        lemma_int_range(0, n as int + 1);
        lemma_int_range(1, u64::MAX as int + 1);
        assert(vstd::relations::injective_on(state_at, places)) by {
            assert forall|i: int, j: int|
                places.contains(i) && places.contains(j) && #[trigger] state_at(i)
                    == #[trigger] state_at(j) implies i == j by {
                if i < j {
                    lemma_states_differ(state, bound, n, i as nat, j as nat);
                } else if j < i {
                    lemma_states_differ(state, bound, n, j as nat, i as nat);
                }
            }
        }
        lemma_map_size(places, places.map(state_at), state_at);
        assert forall|s: int| places.map(state_at).contains(s) implies states.contains(s) by {
            let i = choose|i: int| places.contains(i) && state_at(i) == s;
            lemma_steps_stay_alive(state, i as nat);
        }
        lemma_len_subset(places.map(state_at), states);
    }
}

/// The first of several steps.
proof fn lemma_steps_shift(state: u64, n: nat)
    ensures
        stepped_by(state, n + 1) == stepped_by(stepped(state), n),
    decreases n,
{
    if n > 0 {
        lemma_steps_shift(state, (n - 1) as nat);
    } else {
        assert(stepped_by(state, 0) == state);
    }
}

proof fn lemma_accepted(state: u64, bound: u64, n: nat, tries: nat)
    requires
        bound > 0,
        n < tries,
        first_accepted(state, bound, n),
    ensures
        bounded(state, bound, tries) == nth_output(state, n) % bound,
        steps_to_accept(state, bound, tries) == n + 1,
    decreases n,
{
    let next = stepped(state);
    lemma_steps_shift(state, 0);
    assert(nth_output(state, 0) == output(next));
    if n > 0 {
        assert forall|i: nat| i < n - 1 implies #[trigger] nth_output(next, i) > zone(bound) by {
            lemma_steps_shift(state, i + 1);
            assert(nth_output(state, i + 1) > zone(bound));
        }
        lemma_steps_shift(state, n);
        lemma_accepted(next, bound, (n - 1) as nat, (tries - 1) as nat);
    }
}

impl Rng {
    /// The state.
    pub closed spec fn at(&self) -> u64 {
        self.state
    }

    /// A generator from a seed. Zero would be stuck, so it is replaced.
    pub fn new(seed: u64) -> (rng: Self)
        ensures
            rng.at() == if seed == 0 {
                0x9E37_79B9_7F4A_7C15
            } else {
                seed
            },
            rng.at() != 0,
    {
        Rng {
            state: if seed == 0 {
                0x9E37_79B9_7F4A_7C15
            } else {
                seed
            },
        }
    }

    /// The next number.
    pub fn next_u64(&mut self) -> (number: u64)
        ensures
            final(self).at() == stepped(old(self).at()),
            number == output(stepped(old(self).at())),
    {
        let mut x: u64 = self.state;
        x = x ^ (x >> 12);
        x = x ^ (x << 25);
        x = x ^ (x >> 27);
        self.state = x;
        x.wrapping_mul(0x2545_F491_4F6C_DD1D)
    }

    /// A draw between zero and one, one excluded, in units of 2^-53.
    pub fn next_draw(&mut self) -> (draw: u64)
        ensures
            final(self).at() == stepped(old(self).at()),
            draw == output(stepped(old(self).at())) >> 11,
            draw < DRAW_UNIT,
    {
        let number: u64 = self.next_u64();
        assert(number >> 11 < 0x20_0000_0000_0000) by (bit_vector);
        number >> 11
    }

    /// A draw below `bound`; zero if there is nothing below it.
    ///
    /// Numbers above the last whole multiple of the bound are drawn again: a
    /// plain remainder would favour small ones.
    pub fn below(&mut self, bound: u64) -> (draw: u64)
        ensures
            draw == bounded_draw(old(self).at(), bound),
            bound > 0 ==> draw < bound,
            final(self).at() == stepped_by(old(self).at(), bounded_steps(old(self).at(), bound)),
    {
        if bound == 0 {
            return 0;
        }
        let ghost start = self.state;
        proof {
            law_bounded_draws_are_below(start, bound, u64::MAX as nat);
        }
        let zone: u64 = u64::MAX - (u64::MAX % bound) - 1;
        let mut tries: u64 = u64::MAX;
        let ghost mut done: nat = 0;
        while tries > 0
            invariant
                bound > 0,
                zone == self::zone(bound),
                self.state == stepped_by(start, done),
                done + tries == u64::MAX,
                bounded_draw(start, bound) == bounded(self.state, bound, tries as nat),
                bounded_steps(start, bound) == done + steps_to_accept(
                    self.state,
                    bound,
                    tries as nat,
                ),
                bounded_draw(start, bound) < bound,
                start == old(self).at(),
            decreases tries,
        {
            let ghost before = self.state;
            let value: u64 = self.next_u64();
            proof {
                done = done + 1;
                assert(self.state == stepped(before));
            }
            if value <= zone {
                return value % bound;
            }
            tries = tries - 1;
        }
        0
    }
}

// ---------------------------------------------------------------------------
// Keys
// ---------------------------------------------------------------------------

/// How keys are chosen.
#[derive(Debug, Clone, Copy, PartialEq, Eq, Structural)]
pub enum KeyDistribution {
    /// Ascending, and from the beginning again at the end. The best case for
    /// compaction, and the one that hides the difference between policies.
    Sequential,
    /// All keys alike.
    Uniform,
    /// A few hot keys take most of the traffic. `theta` says how much; in units
    /// of 2^-40.
    Zipfian { theta: u64 },
}

impl KeyDistribution {
    /// The name of the distribution.
    pub open spec fn label(self) -> Seq<char> {
        match self {
            KeyDistribution::Sequential => "sequential"@,
            KeyDistribution::Uniform => "uniform"@,
            KeyDistribution::Zipfian { .. } => "zipfian"@,
        }
    }

    /// A short name.
    pub fn name(&self) -> (name: &'static str)
        ensures
            name@ == self.label(),
    {
        match self {
            KeyDistribution::Sequential => "sequential",
            KeyDistribution::Uniform => "uniform",
            KeyDistribution::Zipfian { .. } => "zipfian",
        }
    }
}

/// How many of the shares, from the front, a draw is not below.
pub open spec fn rank_of(shares: Seq<u64>, draw: u64) -> nat
    decreases shares.len(),
{
    if shares.len() == 0 || draw < shares[0] {
        0
    } else {
        1 + rank_of(shares.drop_first(), draw)
    }
}

/// Draws keys by a distribution.
#[derive(Debug, Clone)]
pub struct KeyGenerator {
    distribution: KeyDistribution,
    key_count: u64,
    next_sequential: u64,
    /// For skewed keys: up to which draw each key takes, in units of 2^-53, the
    /// hottest first.
    shares: Vec<u64>,
}

/// No fewer than one key.
pub open spec fn some_keys(key_count: u64) -> u64 {
    if key_count == 0 {
        1
    } else {
        key_count
    }
}

impl KeyGenerator {
    /// The distribution.
    pub closed spec fn kind(&self) -> KeyDistribution {
        self.distribution
    }

    /// The number of keys.
    pub closed spec fn keys(&self) -> u64 {
        self.key_count
    }

    /// The next key in ascending order.
    pub closed spec fn cursor(&self) -> u64 {
        self.next_sequential
    }

    /// The shares of skewed keys.
    pub closed spec fn table(&self) -> Seq<u64> {
        self.shares@
    }

    /// The cursor is at a key.
    pub closed spec fn wf(&self) -> bool {
        self.next_sequential < self.key_count
    }

    /// A generator of ascending or uniform keys.
    pub fn new(distribution: KeyDistribution, key_count: u64) -> (generator: Self)
        requires
            !(distribution is Zipfian),
        ensures
            generator.wf(),
            generator.kind() == distribution,
            generator.keys() == some_keys(key_count),
            generator.cursor() == 0,
    {
        Self::skewed(distribution, key_count, Vec::new())
    }

    /// A generator of keys, with the shares that skewed ones take.
    pub fn skewed(distribution: KeyDistribution, key_count: u64, shares: Vec<u64>) -> (generator:
        Self)
        ensures
            generator.wf(),
            generator.kind() == distribution,
            generator.keys() == some_keys(key_count),
            generator.cursor() == 0,
            generator.table() == shares@,
    {
        let key_count: u64 = if key_count == 0 {
            1
        } else {
            key_count
        };
        KeyGenerator { distribution, key_count, next_sequential: 0, shares }
    }

    /// The number of keys.
    pub fn key_count(&self) -> (count: u64)
        ensures
            count == self.keys(),
    {
        self.key_count
    }

    /// The next key.
    pub fn next(&mut self, rng: &mut Rng) -> (id: u64)
        requires
            old(self).wf(),
        ensures
            final(self).wf(),
            final(self).kind() == old(self).kind(),
            final(self).keys() == old(self).keys(),
            final(self).table() == old(self).table(),
            id < old(self).keys(),
            match old(self).kind() {
                KeyDistribution::Sequential => {
                    &&& id == old(self).cursor()
                    &&& final(self).cursor() == if id + 1 == old(self).keys() {
                        0
                    } else {
                        (id + 1) as u64
                    }
                    &&& final(rng).at() == old(rng).at()
                },
                KeyDistribution::Uniform => {
                    &&& id == bounded_draw(old(rng).at(), old(self).keys())
                    &&& final(self).cursor() == old(self).cursor()
                    &&& final(rng).at() == stepped_by(
                        old(rng).at(),
                        bounded_steps(old(rng).at(), old(self).keys()),
                    )
                },
                KeyDistribution::Zipfian { .. } => {
                    let rank = rank_of(
                        old(self).table(),
                        output(stepped(old(rng).at())) >> 11,
                    );
                    // The last key takes what is left.
                    &&& id == if rank < old(self).keys() {
                        rank as u64
                    } else {
                        (old(self).keys() - 1) as u64
                    }
                    &&& final(self).cursor() == old(self).cursor()
                    &&& final(rng).at() == stepped(old(rng).at())
                },
            },
    {
        match self.distribution {
            KeyDistribution::Sequential => {
                let id: u64 = self.next_sequential;
                self.next_sequential = if id + 1 == self.key_count {
                    0
                } else {
                    id + 1
                };
                id
            },
            KeyDistribution::Uniform => rng.below(self.key_count),
            KeyDistribution::Zipfian { .. } => {
                let draw: u64 = rng.next_draw();
                let rank: usize = rank(&self.shares, draw);
                if (rank as u64) < self.key_count {
                    rank as u64
                } else {
                    self.key_count - 1
                }
            },
        }
    }
}

fn rank(shares: &Vec<u64>, draw: u64) -> (rank: usize)
    ensures
        rank == rank_of(shares@, draw),
{
    let mut i: usize = 0;
    proof {
        assert(shares@.skip(0) =~= shares@);
    }
    while i < shares.len() && shares[i] <= draw
        invariant
            i <= shares@.len(),
            rank_of(shares@, draw) == i + rank_of(shares@.skip(i as int), draw),
        decreases shares@.len() - i,
    {
        proof {
            assert(shares@.skip(i as int)[0] == shares@[i as int]);
            assert(shares@.skip(i as int).drop_first() =~= shares@.skip(i + 1));
        }
        i = i + 1;
    }
    proof {
        if i < shares@.len() {
            assert(shares@.skip(i as int)[0] == shares@[i as int]);
        }
    }
    i
}

/// The eight bytes of a number, the highest first.
pub open spec fn key_of(id: u64) -> Seq<u8> {
    big_endian(id as nat, 8)
}

/// The last bytes of a number, the highest first.
pub open spec fn big_endian(number: nat, width: nat) -> Seq<u8>
    decreases width,
{
    if width == 0 {
        Seq::empty()
    } else {
        big_endian(number / 256, (width - 1) as nat).push((number % 256) as u8)
    }
}

/// 256 to a power.
pub open spec fn range_of(width: nat) -> nat
    decreases width,
{
    if width == 0 {
        1
    } else {
        256 * range_of((width - 1) as nat)
    }
}

/// Bytes with the highest first sort as their numbers do.
proof fn lemma_big_endian_order(a: nat, b: nat, width: nat)
    requires
        a < b < range_of(width),
    ensures
        lex_lt(big_endian(a, width), big_endian(b, width)),
        big_endian(a, width).len() == width,
        big_endian(b, width).len() == width,
    decreases width,
{
    let less = (width - 1) as nat;
    let x = big_endian(a / 256, less);
    let y = big_endian(b / 256, less);
    let p = (a % 256) as u8;
    let q = (b % 256) as u8;
    lemma_big_endian_len(a / 256, less);
    lemma_big_endian_len(b / 256, less);
    if a / 256 < b / 256 {
        lemma_big_endian_order(a / 256, b / 256, less);
        lemma_lex_push(x, y, p, q);
    } else {
        assert(a / 256 == b / 256);
        lemma_lex_last(x, p, q);
    }
}

proof fn lemma_big_endian_len(number: nat, width: nat)
    ensures
        big_endian(number, width).len() == width,
    decreases width,
{
    if width > 0 {
        lemma_big_endian_len(number / 256, (width - 1) as nat);
    }
}

/// What is below stays below, whatever is put behind.
proof fn lemma_lex_push(a: Seq<u8>, b: Seq<u8>, p: u8, q: u8)
    requires
        lex_lt(a, b),
        a.len() == b.len(),
    ensures
        lex_lt(a.push(p), b.push(q)),
    decreases a.len(),
{
    assert(a.push(p)[0] == a[0]);
    assert(b.push(q)[0] == b[0]);
    if a[0] == b[0] {
        assert(a.push(p).drop_first() =~= a.drop_first().push(p));
        assert(b.push(q).drop_first() =~= b.drop_first().push(q));
        lemma_lex_push(a.drop_first(), b.drop_first(), p, q);
    }
}

/// Behind the same bytes the last one decides.
proof fn lemma_lex_last(a: Seq<u8>, p: u8, q: u8)
    requires
        p < q,
    ensures
        lex_lt(a.push(p), a.push(q)),
    decreases a.len(),
{
    if a.len() > 0 {
        assert(a.push(p).drop_first() =~= a.drop_first().push(p));
        assert(a.push(q).drop_first() =~= a.drop_first().push(q));
        lemma_lex_last(a.drop_first(), p, q);
    }
}

/// Keys sort as their numbers do: encoding keeps the order both ways.
pub proof fn law_key_encoding_preserves_order(a: u64, b: u64)
    ensures
        lex_lt(key_of(a), key_of(b)) <==> a < b,
        key_of(a) == key_of(b) <==> a == b,
        key_of(a).len() == 8,
{
    lemma_big_endian_len(a as nat, 8);
    assert(range_of(8) == 0x1_0000_0000_0000_0000) by {
        reveal_with_fuel(range_of, 9);
    }
    lemma_lex_irreflexive(key_of(a));
    lemma_lex_irreflexive(key_of(b));
    if a < b {
        lemma_big_endian_order(a as nat, b as nat, 8);
    } else if b < a {
        lemma_big_endian_order(b as nat, a as nat, 8);
        crate::storage::order::lemma_lex_asymmetric(key_of(b), key_of(a));
    }
}

/// A number as a key: eight bytes, the highest first, so that keys sort as their
/// numbers do.
pub fn encode_key(id: u64) -> (key: Vec<u8>)
    ensures
        key@ == key_of(id),
        key@.len() == 8,
{
    let mut bytes: Vec<u8> = Vec::new();
    encode_into(&mut bytes, id, 8);
    proof {
        lemma_big_endian_len(id as nat, 8);
        assert(bytes@ =~= key_of(id));
    }
    bytes
}

fn encode_into(bytes: &mut Vec<u8>, number: u64, width: u32)
    ensures
        final(bytes)@ == old(bytes)@ + big_endian(number as nat, width as nat),
    decreases width,
{
    let ghost before = bytes@;
    if width == 0 {
        proof {
            assert(before + big_endian(number as nat, 0) =~= before);
        }
        return ;
    }
    encode_into(bytes, number / 256, width - 1);
    bytes.push((number % 256) as u8);
    proof {
        assert(bytes@ =~= before + big_endian(number as nat, width as nat));
    }
}

// ---------------------------------------------------------------------------
// Operations
// ---------------------------------------------------------------------------

/// One thing to do.
#[derive(Debug, Clone, PartialEq, Eq)]
pub enum Operation {
    Put { key: Vec<u8>, value: Vec<u8> },
    Get { key: Vec<u8> },
    Delete { key: Vec<u8> },
    /// A scan from `key` on, of up to `length` entries.
    Scan { key: Vec<u8>, length: usize },
}

/// What an operation is.
#[verifier::ext_equal]
pub enum OperationView {
    Put { key: Seq<u8>, value: Seq<u8> },
    Get { key: Seq<u8> },
    Delete { key: Seq<u8> },
    Scan { key: Seq<u8>, length: nat },
}

impl View for Operation {
    type V = OperationView;

    open spec fn view(&self) -> OperationView {
        match self {
            Operation::Put { key, value } => OperationView::Put { key: key@, value: value@ },
            Operation::Get { key } => OperationView::Get { key: key@ },
            Operation::Delete { key } => OperationView::Delete { key: key@ },
            Operation::Scan { key, length } => OperationView::Scan {
                key: key@,
                length: *length as nat,
            },
        }
    }
}

impl Operation {
    /// A short name.
    pub fn kind(&self) -> (kind: &'static str)
        ensures
            kind@ == match self@ {
                OperationView::Put { .. } => "put"@,
                OperationView::Get { .. } => "get"@,
                OperationView::Delete { .. } => "delete"@,
                OperationView::Scan { .. } => "scan"@,
            },
    {
        match self {
            Operation::Put { .. } => "put",
            Operation::Get { .. } => "get",
            Operation::Delete { .. } => "delete",
            Operation::Scan { .. } => "scan",
        }
    }
}

/// What mix of operations to generate, over what keys.
#[derive(Debug, Clone, Copy, PartialEq, Eq, Structural)]
pub struct WorkloadSpec {
    pub key_count: u64,
    pub value_bytes: usize,
    pub distribution: KeyDistribution,
    /// Shares, in units of 2^-40. They need not add up to one.
    pub get_ratio: u64,
    pub put_ratio: u64,
    pub delete_ratio: u64,
    pub scan_ratio: u64,
    /// Entries that a scan reads.
    pub scan_length: usize,
    pub seed: u64,
}

/// An even mix of reads and writes over skewed keys.
pub open spec fn even_mix() -> WorkloadSpec {
    WorkloadSpec {
        key_count: 100_000,
        value_bytes: 100,
        distribution: KeyDistribution::Zipfian { theta: 1_088_516_511_498 },
        get_ratio: 549_755_813_888,
        put_ratio: 549_755_813_888,
        delete_ratio: 0,
        scan_ratio: 0,
        scan_length: 100,
        seed: 42,
    }
}

impl Default for WorkloadSpec {
    /// An even mix of reads and writes over skewed keys.
    fn default() -> (spec: Self)
        ensures
            spec == even_mix(),
    {
        WorkloadSpec {
            key_count: 100_000,
            value_bytes: 100,
            distribution: KeyDistribution::Zipfian { theta: 1_088_516_511_498 },
            get_ratio: 549_755_813_888,
            put_ratio: 549_755_813_888,
            delete_ratio: 0,
            scan_ratio: 0,
            scan_length: 100,
            seed: 42,
        }
    }
}

/// A share in whole percents, the nearest, and of two the even one.
pub open spec fn percent(share: u64) -> nat {
    let scaled = share as nat * 100;
    let whole = scaled / SHARE_UNIT as nat;
    let rest = scaled % SHARE_UNIT as nat;
    if 2 * rest > SHARE_UNIT || 2 * rest == SHARE_UNIT && whole % 2 == 1 {
        whole + 1
    } else {
        whole
    }
}

fn percent_of(share: u64) -> (percents: u64)
    ensures
        percents == percent(share),
{
    let scaled: u128 = share as u128 * 100;
    proof {
        assert(scaled / 0x100_0000_0000 <= 0xffff_ffff);
    }
    let whole: u64 = (scaled / SHARE_UNIT as u128) as u64;
    let rest: u64 = (scaled % SHARE_UNIT as u128) as u64;
    if 2 * rest > SHARE_UNIT || (2 * rest == SHARE_UNIT && whole % 2 == 1) {
        whole + 1
    } else {
        whole
    }
}

/// A number as it is written.
pub open spec fn number(value: nat) -> Seq<char> {
    padded(value, 10, 0)
}

impl WorkloadSpec {
    /// Writes only: the shape that write amplification comes from.
    pub fn write_only(key_count: u64, value_bytes: usize, distribution: KeyDistribution) -> (spec:
        Self)
        ensures
            spec == (WorkloadSpec {
                key_count,
                value_bytes,
                distribution,
                get_ratio: 0,
                put_ratio: SHARE_UNIT,
                delete_ratio: 0,
                scan_ratio: 0,
                ..even_mix()
            }),
    {
        WorkloadSpec {
            key_count,
            value_bytes,
            distribution,
            get_ratio: 0,
            put_ratio: SHARE_UNIT,
            delete_ratio: 0,
            scan_ratio: 0,
            scan_length: 100,
            seed: 42,
        }
    }

    /// Reads only, against a settled tree.
    pub fn read_only(key_count: u64, value_bytes: usize, distribution: KeyDistribution) -> (spec:
        Self)
        ensures
            spec == (WorkloadSpec {
                key_count,
                value_bytes,
                distribution,
                get_ratio: SHARE_UNIT,
                put_ratio: 0,
                delete_ratio: 0,
                scan_ratio: 0,
                ..even_mix()
            }),
    {
        WorkloadSpec {
            key_count,
            value_bytes,
            distribution,
            get_ratio: SHARE_UNIT,
            put_ratio: 0,
            delete_ratio: 0,
            scan_ratio: 0,
            scan_length: 100,
            seed: 42,
        }
    }

    /// Mostly scans, where the number of runs drives the cost.
    pub fn scan_heavy(key_count: u64, value_bytes: usize, distribution: KeyDistribution) -> (spec:
        Self)
        ensures
            spec == (WorkloadSpec {
                key_count,
                value_bytes,
                distribution,
                get_ratio: 219_902_325_555,
                put_ratio: 219_902_325_555,
                delete_ratio: 0,
                scan_ratio: 659_706_976_666,
                ..even_mix()
            }),
    {
        WorkloadSpec {
            key_count,
            value_bytes,
            distribution,
            get_ratio: 219_902_325_555,
            put_ratio: 219_902_325_555,
            delete_ratio: 0,
            scan_ratio: 659_706_976_666,
            scan_length: 100,
            seed: 42,
        }
    }

    /// A label that tells the mixes apart.
    pub fn label(&self) -> (label: String)
        ensures
            label@ == self.distribution.label() + "-"@ + number(self.value_bytes as nat) + "B-g"@
                + number(percent(self.get_ratio)) + "p"@ + number(percent(self.put_ratio)) + "d"@
                + number(percent(self.delete_ratio)) + "s"@ + number(percent(self.scan_ratio)),
    {
        let mut label: String = String::from_str(self.distribution.name());
        label.append("-");
        push_number(&mut label, self.value_bytes as u64, 10, 0);
        label.append("B-g");
        push_number(&mut label, percent_of(self.get_ratio), 10, 0);
        label.append("p");
        push_number(&mut label, percent_of(self.put_ratio), 10, 0);
        label.append("d");
        push_number(&mut label, percent_of(self.delete_ratio), 10, 0);
        label.append("s");
        push_number(&mut label, percent_of(self.scan_ratio), 10, 0);
        label
    }
}

/// The shares of a mix together.
pub open spec fn total_share(spec: WorkloadSpec) -> nat {
    spec.get_ratio as nat + spec.put_ratio as nat + spec.delete_ratio as nat
        + spec.scan_ratio as nat
}

/// A draw falls within a share of the mix.
pub open spec fn falls_within(draw: u64, share: nat, total: nat) -> bool {
    draw as nat * total < share * DRAW_UNIT as nat
}

/// The operation that a draw makes of a key: each kind takes its share of the
/// mix, in the order of reads, writes, deletes and scans. A mix without shares is
/// one of writes.
pub open spec fn operation_for(spec: WorkloadSpec, id: u64, draw: u64) -> OperationView {
    let key = key_of(id);
    let total = total_share(spec);
    let gets = spec.get_ratio as nat;
    let puts = gets + spec.put_ratio as nat;
    let deletes = puts + spec.delete_ratio as nat;
    let put = OperationView::Put { key, value: Seq::new(spec.value_bytes as nat, |i: int| 0xABu8) };
    if total == 0 {
        put
    } else if falls_within(draw, gets, total) {
        OperationView::Get { key }
    } else if falls_within(draw, puts, total) {
        put
    } else if falls_within(draw, deletes, total) {
        OperationView::Delete { key }
    } else {
        OperationView::Scan { key, length: spec.scan_length as nat }
    }
}

/// Whether a draw falls within a share.
fn within(draw: u64, share: u128, total: u128) -> (is: bool)
    requires
        draw < DRAW_UNIT,
        share <= 0x4_0000_0000_0000_0000,
        total <= 0x4_0000_0000_0000_0000,
    ensures
        is == falls_within(draw, share as nat, total as nat),
{
    proof {
        assert(draw * total <= 0x20_0000_0000_0000 * 0x4_0000_0000_0000_0000) by (nonlinear_arith)
            requires
                0 <= draw < 0x20_0000_0000_0000,
                0 <= total <= 0x4_0000_0000_0000_0000,
        ;
        assert(share * DRAW_UNIT <= 0x20_0000_0000_0000 * 0x4_0000_0000_0000_0000)
            by (nonlinear_arith)
            requires
                DRAW_UNIT == 0x20_0000_0000_0000,
                0 <= share <= 0x4_0000_0000_0000_0000,
        ;
    }
    (draw as u128) * total < share * (DRAW_UNIT as u128)
}

fn fill(length: usize) -> (bytes: Vec<u8>)
    ensures
        bytes@ == Seq::new(length as nat, |i: int| 0xABu8),
{
    let mut bytes: Vec<u8> = Vec::new();
    while bytes.len() < length
        invariant
            bytes@.len() <= length,
            bytes@ == Seq::new(bytes@.len(), |i: int| 0xABu8),
        decreases length - bytes@.len(),
    {
        bytes.push(0xAB);
        proof {
            assert(bytes@ =~= Seq::new(bytes@.len(), |i: int| 0xABu8));
        }
    }
    bytes
}

/// A reproducible stream of operations.
#[derive(Debug, Clone)]
pub struct Workload {
    spec: WorkloadSpec,
    rng: Rng,
    keys: KeyGenerator,
}

impl Workload {
    /// What the stream is made of.
    pub closed spec fn made_of(&self) -> WorkloadSpec {
        self.spec
    }

    /// The state of the generator of numbers.
    pub closed spec fn at(&self) -> u64 {
        self.rng.at()
    }

    /// The generator of keys.
    pub closed spec fn generator(&self) -> KeyGenerator {
        self.keys
    }

    /// The keys are those of the mix.
    pub closed spec fn wf(&self) -> bool {
        &&& self.keys.wf()
        &&& self.keys.kind() == self.spec.distribution
        &&& self.keys.keys() == some_keys(self.spec.key_count)
    }

    /// A stream over ascending or uniform keys.
    pub fn new(spec: WorkloadSpec) -> (workload: Self)
        requires
            !(spec.distribution is Zipfian),
        ensures
            workload.wf(),
            workload.made_of() == spec,
            workload.at() == if spec.seed == 0 {
                0x9E37_79B9_7F4A_7C15
            } else {
                spec.seed
            },
            workload.generator().kind() == spec.distribution,
            workload.generator().keys() == some_keys(spec.key_count),
            workload.generator().cursor() == 0,
    {
        Self::skewed(spec, Vec::new())
    }

    /// A stream over keys, with the shares that skewed ones take.
    pub fn skewed(spec: WorkloadSpec, shares: Vec<u64>) -> (workload: Self)
        ensures
            workload.wf(),
            workload.made_of() == spec,
            workload.at() == if spec.seed == 0 {
                0x9E37_79B9_7F4A_7C15
            } else {
                spec.seed
            },
            workload.generator().kind() == spec.distribution,
            workload.generator().keys() == some_keys(spec.key_count),
            workload.generator().cursor() == 0,
            workload.generator().table() == shares@,
    {
        Workload {
            rng: Rng::new(spec.seed),
            keys: KeyGenerator::skewed(spec.distribution, spec.key_count, shares),
            spec,
        }
    }

    /// What the stream is made of.
    pub fn spec(&self) -> (spec: &WorkloadSpec)
        ensures
            *spec == self.made_of(),
    {
        &self.spec
    }

    /// The next operation: a key, then a draw that says what to do with it.
    pub fn generate(&mut self) -> (operation: Operation)
        requires
            old(self).wf(),
        ensures
            final(self).wf(),
            final(self).made_of() == old(self).made_of(),
            final(self).generator().table() == old(self).generator().table(),
            is_next(*old(self), *final(self), operation@),
    {
        let ghost start = *self;
        let id: u64 = self.keys.next(&mut self.rng);
        let ghost middle = self.rng.at();
        let draw: u64 = self.rng.next_draw();
        let ghost after = *self;
        proof {
            assert(key_drawn(start, after, id, middle));
        }
        let key: Vec<u8> = encode_key(id);
        let gets: u128 = self.spec.get_ratio as u128;
        let puts: u128 = gets + self.spec.put_ratio as u128;
        let deletes: u128 = puts + self.spec.delete_ratio as u128;
        let total: u128 = deletes + self.spec.scan_ratio as u128;
        if total == 0 {
            return Operation::Put { key, value: fill(self.spec.value_bytes) };
        }
        if within(draw, gets, total) {
            Operation::Get { key }
        } else if within(draw, puts, total) {
            Operation::Put { key, value: fill(self.spec.value_bytes) }
        } else if within(draw, deletes, total) {
            Operation::Delete { key }
        } else {
            Operation::Scan { key, length: self.spec.scan_length }
        }
    }

    /// The next operations, as many as asked for.
    pub fn take(&mut self, count: usize) -> (operations: Vec<Operation>)
        requires
            old(self).wf(),
        ensures
            final(self).wf(),
            final(self).made_of() == old(self).made_of(),
            operations@.len() == count,
            exists|states: Seq<Workload>| #[trigger]
                is_stream(states, *old(self), *final(self), operations@),
    {
        let mut operations: Vec<Operation> = Vec::new();
        let ghost mut states: Seq<Workload> = seq![*self];
        let ghost start = *self;
        while operations.len() < count
            invariant
                operations@.len() <= count,
                self.wf(),
                self.made_of() == start.made_of(),
                is_stream(states, start, *self, operations@),
                start == *old(self),
            decreases count - operations@.len(),
        {
            let ghost before = *self;
            let ghost had = operations@;
            let operation: Operation = self.generate();
            let ghost shown = operation@;
            operations.push(operation);
            proof {
                let more = states.push(*self);
                assert forall|i: int| 0 <= i < operations@.len() implies is_next(
                    #[trigger] more[i],
                    more[i + 1],
                    operations@[i]@,
                ) by {
                    if i < had.len() {
                        assert(more[i] == states[i] && more[i + 1] == states[i + 1]);
                        assert(operations@[i] == had[i]);
                    } else {
                        assert(more[i] == states.last());
                    }
                }
                states = more;
            }
        }
        operations
    }
}

/// A key was drawn, and the generator of numbers came to `middle` by it, and one
/// step further by the draw that follows.
pub open spec fn key_drawn(before: Workload, after: Workload, id: u64, middle: u64) -> bool {
    let was = before.generator();
    let is = after.generator();
    &&& after.made_of() == before.made_of()
    &&& after.at() == stepped(middle)
    &&& is.kind() == was.kind()
    &&& is.keys() == was.keys()
    &&& is.table() == was.table()
    &&& match was.kind() {
        KeyDistribution::Sequential => {
            &&& id == was.cursor()
            &&& is.cursor() == if id + 1 == was.keys() {
                0
            } else {
                (id + 1) as u64
            }
            &&& middle == before.at()
        },
        KeyDistribution::Uniform => {
            &&& id == bounded_draw(before.at(), was.keys())
            &&& is.cursor() == was.cursor()
            &&& middle == stepped_by(before.at(), bounded_steps(before.at(), was.keys()))
        },
        KeyDistribution::Zipfian { .. } => {
            let rank = rank_of(was.table(), output(stepped(before.at())) >> 11);
            &&& id == if rank < was.keys() {
                rank as u64
            } else {
                (was.keys() - 1) as u64
            }
            &&& is.cursor() == was.cursor()
            &&& middle == stepped(before.at())
        },
    }
}

/// One operation of a stream.
pub open spec fn is_next(before: Workload, after: Workload, operation: OperationView) -> bool {
    exists|id: u64, middle: u64| #[trigger]
        key_drawn(before, after, id, middle) && operation == operation_for(
            before.made_of(),
            id,
            output(stepped(middle)) >> 11,
        )
}

/// Operations one after the other, with the states of the stream between them.
pub open spec fn is_stream(
    states: Seq<Workload>,
    before: Workload,
    after: Workload,
    operations: Seq<Operation>,
) -> bool {
    &&& states.len() == operations.len() + 1
    &&& states[0] == before
    &&& states.last() == after
    &&& forall|i: int|
        0 <= i < operations.len() ==> is_next(
            #[trigger] states[i],
            states[i + 1],
            operations[i]@,
        )
}

/// The key that an operation names.
pub open spec fn key_named(operation: OperationView) -> Seq<u8> {
    match operation {
        OperationView::Put { key, .. } => key,
        OperationView::Get { key } => key,
        OperationView::Delete { key } => key,
        OperationView::Scan { key, .. } => key,
    }
}

/// Whatever is done, it is done to the key that was drawn: the next in ascending order,
/// a number below the number of keys that was drawn for it, or the rank of a draw.
pub proof fn law_operations_name_the_key_drawn(
    before: Workload,
    after: Workload,
    operation: OperationView,
)
    requires
        is_next(before, after, operation),
    ensures
        before.generator().kind() is Sequential ==> key_named(operation) == key_of(
            before.generator().cursor(),
        ),
        before.generator().kind() is Uniform ==> key_named(operation) == key_of(
            bounded_draw(before.at(), before.generator().keys()),
        ),
        before.generator().kind() is Zipfian ==> {
            let rank = rank_of(before.generator().table(), output(stepped(before.at())) >> 11);
            let keys = before.generator().keys();
            &&& rank < keys ==> key_named(operation) == key_of(rank as u64)
            &&& rank >= keys ==> key_named(operation) == key_of((keys - 1) as u64)
        },
{
}

/// What is done with a key is drawn with the upper 53 bits of the next number: of the one
/// after those that the key took.
pub proof fn law_operations_are_drawn_with_53_bits(
    before: Workload,
    after: Workload,
    operation: OperationView,
)
    requires
        is_next(before, after, operation),
    ensures
        before.generator().kind() is Sequential ==> operation == operation_for(
            before.made_of(),
            before.generator().cursor(),
            (output(stepped(before.at())) / 2048) as u64,
        ) && after.at() == stepped(before.at()),
        before.generator().kind() is Uniform ==> {
            let keys = before.generator().keys();
            let middle = stepped_by(before.at(), bounded_steps(before.at(), keys));
            operation == operation_for(
                before.made_of(),
                bounded_draw(before.at(), keys),
                (output(stepped(middle)) / 2048) as u64,
            ) && after.at() == stepped(middle)
        },
        after.made_of() == before.made_of(),
{
    assert forall|number: u64| #[trigger] (number >> 11) == number / 2048 by {
        assert(number >> 11 == number / 2048) by (bit_vector);
    }
}

/// A rank is how many shares, from the front, a draw is not below.
pub proof fn law_ranks_go_by_shares(shares: Seq<u64>, draw: u64)
    ensures
        rank_of(shares, draw) <= shares.len(),
        forall|i: int| 0 <= i < rank_of(shares, draw) ==> #[trigger] shares[i] <= draw,
        rank_of(shares, draw) < shares.len() ==> draw < shares[rank_of(shares, draw) as int],
    decreases shares.len(),
{
    if shares.len() > 0 && draw >= shares[0] {
        let rest = shares.drop_first();
        law_ranks_go_by_shares(rest, draw);
        assert forall|i: int| 0 <= i < rank_of(shares, draw) implies #[trigger] shares[i]
            <= draw by {
            if i > 0 {
                assert(rest[i - 1] == shares[i]);
            }
        }
    }
}

/// A stream over ascending keys names them in turn, from the beginning again at the
/// end: the operations of one turn name every key once, in ascending order.
pub proof fn law_ascending_streams_name_every_key(
    states: Seq<Workload>,
    operations: Seq<Operation>,
    i: int,
)
    requires
        states.len() > 0,
        is_stream(states, states[0], states.last(), operations),
        states[0].generator().kind() is Sequential,
        states[0].generator().cursor() < states[0].generator().keys(),
        0 <= i < operations.len(),
    ensures
        ({
            let keys = states[0].generator().keys() as int;
            let id = (states[0].generator().cursor() + i) % keys;
            &&& 0 <= id < keys
            &&& key_named(operations[i]@) == key_of(id as u64)
        }),
        forall|j: int|
            #![trigger operations[j]]
            0 <= j < i && states[0].generator().cursor() + i < states[0].generator().keys()
                ==> lex_lt(key_named(operations[j]@), key_named(operations[i]@)),
    decreases i,
{
    let keys = states[0].generator().keys() as int;
    let start = states[0].generator().cursor() as int;
    lemma_cursor(states, operations, i);
    law_operations_name_the_key_drawn(states[i], states[i + 1], operations[i]@);
    vstd::arithmetic::div_mod::lemma_mod_bound(start + i, keys);
    assert forall|j: int|
        #![trigger operations[j]]
        0 <= j < i && start + i < keys implies lex_lt(
        key_named(operations[j]@),
        key_named(operations[i]@),
    ) by {
        law_ascending_streams_name_every_key(states, operations, j);
        vstd::arithmetic::div_mod::lemma_small_mod((start + j) as nat, keys as nat);
        vstd::arithmetic::div_mod::lemma_small_mod((start + i) as nat, keys as nat);
        law_key_encoding_preserves_order((start + j) as u64, (start + i) as u64);
    }
}

/// The next key of an ascending stream.
proof fn lemma_cursor(states: Seq<Workload>, operations: Seq<Operation>, i: int)
    requires
        states.len() > 0,
        is_stream(states, states[0], states.last(), operations),
        states[0].generator().kind() is Sequential,
        states[0].generator().cursor() < states[0].generator().keys(),
        0 <= i < states.len(),
    ensures
        states[i].generator().kind() is Sequential,
        states[i].generator().keys() == states[0].generator().keys(),
        states[i].generator().cursor() == (states[0].generator().cursor() + i)
            % states[0].generator().keys() as int,
    decreases i,
{
    let keys = states[0].generator().keys() as int;
    let start = states[0].generator().cursor() as int;
    if i == 0 {
        vstd::arithmetic::div_mod::lemma_small_mod(start as nat, keys as nat);
    } else {
        lemma_cursor(states, operations, i - 1);
        assert(is_next(states[i - 1], states[i], operations[i - 1]@));
        let was = (start + i - 1) % keys;
        vstd::arithmetic::div_mod::lemma_mod_bound(start + i - 1, keys);
        vstd::arithmetic::div_mod::lemma_add_mod_noop(start + i - 1, 1, keys);
        if keys == 1 {
            assert((start + i) % 1 == 0);
        } else {
            vstd::arithmetic::div_mod::lemma_small_mod(1, keys as nat);
            if was + 1 < keys {
                vstd::arithmetic::div_mod::lemma_small_mod((was + 1) as nat, keys as nat);
            } else {
                vstd::arithmetic::div_mod::lemma_mod_self_0(keys);
            }
        }
    }
}

/// The state before a step.
pub open spec fn unstepped(state: u64) -> u64 {
    let y = state ^ (state >> 27) ^ (state >> 54);
    let x = y ^ (y << 25) ^ (y << 50);
    x ^ (x >> 12) ^ (x >> 24) ^ (x >> 36) ^ (x >> 48) ^ (x >> 60)
}

proof fn lemma_unstepped(state: u64)
    ensures
        stepped(unstepped(state)) == state,
{
    let y = state ^ (state >> 27) ^ (state >> 54);
    let x = y ^ (y << 25) ^ (y << 50);
    let s = x ^ (x >> 12) ^ (x >> 24) ^ (x >> 36) ^ (x >> 48) ^ (x >> 60);
    assert(s ^ (s >> 12) == x) by (bit_vector)
        requires
            s == x ^ (x >> 12) ^ (x >> 24) ^ (x >> 36) ^ (x >> 48) ^ (x >> 60),
    ;
    assert(x ^ (x << 25) == y) by (bit_vector)
        requires
            x == y ^ (y << 25) ^ (y << 50),
    ;
    assert(y ^ (y >> 27) == state) by (bit_vector)
        requires
            y == state ^ (state >> 27) ^ (state >> 54),
    ;
}

/// Every number is what some state gives.
pub proof fn law_every_number_is_given(number: u64) -> (state: u64)
    ensures
        output(stepped(state)) == number,
{
    let w = 0x1_0000_0000_0000_0000int;
    let m = 0x2545_F491_4F6C_DD1Dint;
    let inverse = 0x59071d96d81ecd35int;
    let next = (number * inverse) % w;
    vstd::arithmetic::div_mod::lemma_mod_bound(number * inverse, w);
    assert((next * m) % w == number) by {
        vstd::arithmetic::div_mod::lemma_mul_mod_noop_left(number * inverse, m, w);
        assert((number * inverse) * m == number + w * (number * 0xcf65b3f17bf4a6bint)) by (nonlinear_arith)
            requires
                inverse * m == 1 + w * 0xcf65b3f17bf4a6bint,
        ;
        vstd::arithmetic::div_mod::lemma_mod_multiples_vanish(
            number * 0xcf65b3f17bf4a6bint,
            number as int,
            w,
        );
        vstd::arithmetic::div_mod::lemma_small_mod(number as nat, w as nat);
    }
    let state = unstepped(next as u64);
    lemma_unstepped(next as u64);
    state
}

/// Uniform draws leave no key out: every number below the bound is what a draw from
/// some state gives.
pub proof fn law_every_key_is_drawn(bound: u64, id: u64) -> (state: u64)
    requires
        id < bound,
    ensures
        bounded_draw(state, bound) == id,
        bounded_steps(state, bound) == 1,
{
    let state = law_every_number_is_given(id);
    let max = u64::MAX as int;
    let b = bound as int;
    vstd::arithmetic::div_mod::lemma_fundamental_div_mod(max, b);
    assert(max / b >= 1) by (nonlinear_arith)
        requires
            max == b * (max / b) + max % b,
            0 <= max % b < b,
            0 < b <= max,
    ;
    assert(b * (max / b) >= b) by (nonlinear_arith)
        requires
            max / b >= 1,
            b > 0,
    ;
    assert(id <= zone(bound));
    vstd::arithmetic::div_mod::lemma_small_mod(id as nat, bound as nat);
    state
}

/// Every kind of operation takes its share of the draws, in the order of reads, writes,
/// deletes and scans: the first `g / t` of them are reads, for a share `g` of reads and
/// `t` of all kinds together, and so on. A mix without shares is one of writes. What is
/// written has the size of the mix, and so has a scan its length.
pub proof fn law_the_mix_is_kept(spec: WorkloadSpec, id: u64, draw: u64)
    ensures
        ({
            let operation = operation_for(spec, id, draw);
            let g = spec.get_ratio as int;
            let p = spec.put_ratio as int;
            let d = spec.delete_ratio as int;
            let s = spec.scan_ratio as int;
            let at = draw * (g + p + d + s);
            let one = 0x20_0000_0000_0000int;
            &&& g + p + d + s == 0 ==> operation is Put
            &&& g + p + d + s > 0 ==> {
                &&& operation is Get <==> at < g * one
                &&& operation is Put <==> g * one <= at < (g + p) * one
                &&& operation is Delete <==> (g + p) * one <= at < (g + p + d) * one
                &&& operation is Scan <==> (g + p + d) * one <= at
            }
            &&& operation matches OperationView::Put { value, .. } ==> value.len()
                == spec.value_bytes && forall|i: int|
                0 <= i < value.len() ==> #[trigger] value[i] == 0xAB
            &&& operation matches OperationView::Scan { length, .. } ==> length
                == spec.scan_length
            &&& key_named(operation) == key_of(id)
        }),
{
    let g = spec.get_ratio as int;
    let p = spec.put_ratio as int;
    let d = spec.delete_ratio as int;
    let one = 0x20_0000_0000_0000int;
    assert(g * one <= (g + p) * one && (g + p) * one <= (g + p + d) * one) by (nonlinear_arith)
        requires
            g >= 0,
            p >= 0,
            d >= 0,
            one > 0,
    ;
}

/// Two streams are at the same point.
pub open spec fn alike(a: Workload, b: Workload) -> bool {
    &&& a.made_of() == b.made_of()
    &&& a.at() == b.at()
    &&& a.generator().kind() == b.generator().kind()
    &&& a.generator().keys() == b.generator().keys()
    &&& a.generator().cursor() == b.generator().cursor()
    &&& a.generator().table() == b.generator().table()
}

/// Streams at the same point give the same operation next, and are at the same
/// point again after it.
proof fn lemma_next_is_determined(
    a: Workload,
    b: Workload,
    next_a: Workload,
    next_b: Workload,
    operation_a: OperationView,
    operation_b: OperationView,
)
    requires
        alike(a, b),
        is_next(a, next_a, operation_a),
        is_next(b, next_b, operation_b),
    ensures
        operation_a == operation_b,
        alike(next_a, next_b),
{
}

/// A workload is reproducible: streams that begin at the same point, such as two of
/// the same mix, seed and shares, give the same operations.
pub proof fn law_a_stream_is_determined(
    states_a: Seq<Workload>,
    states_b: Seq<Workload>,
    operations_a: Seq<Operation>,
    operations_b: Seq<Operation>,
)
    requires
        states_a.len() > 0,
        states_b.len() > 0,
        is_stream(states_a, states_a[0], states_a.last(), operations_a),
        is_stream(states_b, states_b[0], states_b.last(), operations_b),
        operations_a.len() == operations_b.len(),
        alike(states_a[0], states_b[0]),
    ensures
        forall|i: int|
            0 <= i < operations_a.len() ==> (#[trigger] operations_a[i])@ == operations_b[i]@,
        alike(states_a.last(), states_b.last()),
    decreases operations_a.len(),
{
    if operations_a.len() > 0 {
        let last = operations_a.len() - 1;
        let fewer_a = states_a.drop_last();
        let fewer_b = states_b.drop_last();
        assert forall|i: int| 0 <= i < last implies is_next(
            #[trigger] fewer_a[i],
            fewer_a[i + 1],
            operations_a.drop_last()[i]@,
        ) by {
            assert(is_next(states_a[i], states_a[i + 1], operations_a[i]@));
        }
        assert forall|i: int| 0 <= i < last implies is_next(
            #[trigger] fewer_b[i],
            fewer_b[i + 1],
            operations_b.drop_last()[i]@,
        ) by {
            assert(is_next(states_b[i], states_b[i + 1], operations_b[i]@));
        }
        law_a_stream_is_determined(
            fewer_a,
            fewer_b,
            operations_a.drop_last(),
            operations_b.drop_last(),
        );
        lemma_next_is_determined(
            states_a[last],
            states_b[last],
            states_a[last + 1],
            states_b[last + 1],
            operations_a[last]@,
            operations_b[last]@,
        );
        assert forall|i: int| 0 <= i < operations_a.len() implies (#[trigger] operations_a[i])@
            == operations_b[i]@ by {
            if i < last {
                assert(operations_a.drop_last()[i]@ == operations_b.drop_last()[i]@);
            }
        }
    }
}

/// A share is told in the nearest number of whole percents, and of two in the even one.
pub proof fn law_percents_are_the_nearest(share: u64)
    ensures
        ({
            let told = percent(share) as int;
            let one = 0x100_0000_0000int;
            let twice = 2 * (share * 100 - told * one);
            &&& -one <= twice <= one
            &&& twice == one || twice == -one ==> told % 2 == 0
        }),
{
    let one = 0x100_0000_0000int;
    let scaled = share * 100;
    let whole = scaled / one;
    let rest = scaled % one;
    assert(scaled == whole * one + rest && 0 <= rest < one) by (nonlinear_arith)
        requires
            whole == scaled / one,
            rest == scaled % one,
            one == 0x100_0000_0000,
            scaled >= 0,
    ;
    assert((whole + 1) * one == whole * one + one) by (nonlinear_arith);
}

} // verus!
