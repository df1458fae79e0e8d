//! Bloom filters: a compact answer to "could this key be in that table?".
//!
//! A negative answer is exact and saves a read; a positive one may be wrong.
//! The `k` hashes are simulated from two, `g_i(x) = h1(x) + i * h2(x)`, taken
//! from the two halves of one 64-bit hash: FNV-1a passed through the
//! MurmurHash3 finalizer.

use vstd::prelude::*;

use super::codec::{
    le_bytes, le_value, lemma_le_len, lemma_le_round_trip, lemma_pow256_values, push_u32, read_u32,
};
use super::order::copy_bytes;
use super::StorageError;

verus! {

/// The most hashes a filter is given.
pub const MAX_HASHES: u32 = 30;

/// Bytes before the bit array of an encoded filter.
pub const ENCODED_HEADER_BYTES: usize = 8;

/// The natural logarithm of 2, in units of 2^-64.
pub const LN_2_FRACTION: u64 = 0xB172_17F7_D1CF_79AC;

const FNV_OFFSET_BASIS: u64 = 0xcbf2_9ce4_8422_2325;

const FNV_PRIME: u64 = 0x0000_0100_0000_01b3;

/// What a filter holds.
#[verifier::ext_equal]
pub struct BloomView {
    /// The number of bits.
    pub num_bits: nat,
    /// The number of bits that one key sets.
    pub num_hashes: nat,
    /// The bits, eight to a byte, lowest first.
    pub bits: Seq<u8>,
}

/// FNV-1a over a byte string.
pub open spec fn fnv_of(key: Seq<u8>) -> u64
    decreases key.len(),
{
    if key.len() == 0 {
        0xcbf2_9ce4_8422_2325
    } else {
        (fnv_of(key.drop_last()) ^ (key.last() as u64)).wrapping_mul(0x0000_0100_0000_01b3)
    }
}

/// One shift-xor round.
pub open spec fn fold_high(value: u64) -> u64 {
    value ^ (value >> 33)
}

/// MurmurHash3's 64-bit finalizer.
pub open spec fn mix_of(value: u64) -> u64 {
    fold_high(
        fold_high(fold_high(value).wrapping_mul(0xff51_afd7_ed55_8ccd)).wrapping_mul(
            0xc4ce_b9fe_1a85_ec53,
        ),
    )
}

/// The hash of a key.
pub open spec fn hash_of(key: Seq<u8>) -> u64 {
    mix_of(fnv_of(key))
}

/// The low half of a hash.
pub open spec fn first_half(hash: u64) -> u32 {
    (hash & 0xFFFF_FFFF) as u32
}

/// The high half of a hash, made odd so that the probes do not collapse.
pub open spec fn second_half(hash: u64) -> u32 {
    ((hash >> 32) as u32) | 1
}

/// The `i`-th bit that a hash maps to.
pub open spec fn position(hash: u64, i: int, num_bits: nat) -> int {
    ((first_half(hash) + i * second_half(hash)) % 0x1_0000_0000) % (num_bits as int)
}

/// Bit `at` of a bit array.
pub open spec fn bit_at(bits: Seq<u8>, at: int) -> bool {
    bits[at / 8] & (1u8 << ((at % 8) as u8)) != 0
}

/// One of the bits that `hash` maps to is bit `at`.
pub open spec fn probes(filter: BloomView, hash: u64, at: int) -> bool {
    exists|i: int|
        0 <= i < filter.num_hashes && #[trigger] position(hash, i, filter.num_bits) == at
}

impl BloomView {
    /// At least one bit and one hash, and as many bits as the array holds.
    pub open spec fn wf(self) -> bool {
        &&& 0 < self.num_bits <= u32::MAX
        &&& 0 < self.num_hashes <= u32::MAX
        &&& self.num_bits == 8 * self.bits.len()
    }

    /// Every bit that `hash` maps to is set.
    pub open spec fn may_contain(self, hash: u64) -> bool {
        forall|i: int|
            0 <= i < self.num_hashes ==> bit_at(
                self.bits,
                #[trigger] position(hash, i, self.num_bits),
            )
    }

    /// `after` is this filter with the bits of `hash` set and no others.
    pub open spec fn inserted(self, after: BloomView, hash: u64) -> bool {
        &&& after.num_bits == self.num_bits
        &&& after.num_hashes == self.num_hashes
        &&& after.bits.len() == self.bits.len()
        &&& forall|at: int|
            0 <= at < self.num_bits ==> #[trigger] bit_at(after.bits, at) == (bit_at(self.bits, at)
                || probes(self, hash, at))
    }

    /// No bit is set.
    pub open spec fn clear(self) -> bool {
        forall|at: int| 0 <= at < self.num_bits ==> !#[trigger] bit_at(self.bits, at)
    }

    /// The filter as bytes: the number of bits, the number of hashes, the bits.
    pub open spec fn encoded(self) -> Seq<u8> {
        le_bytes(self.num_bits, 4) + le_bytes(self.num_hashes, 4) + self.bits
    }
}

/// The filter that bytes encode, or why they do not.
pub open spec fn parse_bloom(bytes: Seq<u8>) -> Result<BloomView, StorageError> {
    if bytes.len() < 8 {
        Err(StorageError::BloomTruncatedHeader)
    } else {
        let num_bits = le_value(bytes.subrange(0, 4));
        let num_hashes = le_value(bytes.subrange(4, 8));
        if num_bits == 0 || num_hashes == 0 {
            Err(StorageError::BloomZeroGeometry)
        } else if num_bits != 8 * (bytes.len() - 8) {
            Err(StorageError::BloomSizeMismatch)
        } else {
            Ok(BloomView { num_bits, num_hashes, bits: bytes.skip(8) })
        }
    }
}

/// Bits asked for, as a whole number of bytes of at least one and few enough
/// for a `u32`.
pub open spec fn whole_bits(bits: nat) -> nat {
    let bounded = if bits < 8 {
        8
    } else if bits > u32::MAX - 8 {
        (u32::MAX - 8) as nat
    } else {
        bits
    };
    ((bounded + 7) / 8) * 8
}

/// The bits that `entries` keys need at `bits_per_key` units of 2^-52 each,
/// rounded up.
#[verifier::opaque]
pub open spec fn bits_for(entries: nat, bits_per_key: nat) -> nat {
    (entries * bits_per_key + 0xF_FFFF_FFFF_FFFF) / 0x10_0000_0000_0000
}

/// `num_bits / entries * ln 2`, rounded to the nearest and kept between 1 and
/// the most a filter is given.
#[verifier::opaque]
pub open spec fn hashes_for(entries: nat, num_bits: nat) -> nat {
    let rounded = (num_bits * LN_2_FRACTION + entries * 0x8000_0000_0000_0000) / (entries
        * 0x1_0000_0000_0000_0000) as int;
    if rounded < 1 {
        1
    } else if rounded > MAX_HASHES {
        MAX_HASHES as nat
    } else {
        rounded as nat
    }
}

/// The number of keys that a filter is sized for: at least one.
pub open spec fn at_least_one(entries: nat) -> nat {
    if entries == 0 {
        1
    } else {
        entries
    }
}

/// The number of bits set among the first `upto`.
pub open spec fn set_bits(bits: Seq<u8>, upto: nat) -> nat
    decreases upto,
{
    if upto == 0 {
        0
    } else {
        set_bits(bits, (upto - 1) as nat) + if bit_at(bits, upto - 1) {
            1nat
        } else {
            0nat
        }
    }
}

/// A key that was inserted is never reported absent, and inserting another key
/// never makes it so.
pub proof fn law_no_false_negatives(before: BloomView, after: BloomView, hash: u64, earlier: u64)
    requires
        before.wf(),
        before.inserted(after, hash),
    ensures
        after.may_contain(hash),
        before.may_contain(earlier) ==> after.may_contain(earlier),
{
    assert forall|i: int| 0 <= i < after.num_hashes implies bit_at(
        after.bits,
        #[trigger] position(hash, i, after.num_bits),
    ) by {
        let at = position(hash, i, before.num_bits);
        assert(probes(before, hash, at));
        lemma_position_bound(hash, i, before.num_bits);
    }
    if before.may_contain(earlier) {
        assert forall|i: int| 0 <= i < after.num_hashes implies bit_at(
            after.bits,
            #[trigger] position(earlier, i, after.num_bits),
        ) by {
            lemma_position_bound(earlier, i, before.num_bits);
            assert(bit_at(before.bits, position(earlier, i, before.num_bits)));
        }
    }
}

/// A filter that nothing was inserted into reports everything absent.
pub proof fn law_an_empty_filter_rejects_everything(filter: BloomView, hash: u64)
    requires
        filter.wf(),
        filter.clear(),
    ensures
        !filter.may_contain(hash),
{
    lemma_position_bound(hash, 0, filter.num_bits);
    assert(!bit_at(filter.bits, position(hash, 0, filter.num_bits)));
}

/// A filter survives its encoding.
pub proof fn law_bloom_round_trip(filter: BloomView)
    requires
        filter.wf(),
    ensures
        parse_bloom(filter.encoded()) == Ok::<BloomView, StorageError>(filter),
        filter.encoded().len() == 8 + filter.bits.len(),
{
    broadcast use lemma_le_len;

    lemma_pow256_values();
    let bytes = filter.encoded();
    assert(bytes.subrange(0, 4) =~= le_bytes(filter.num_bits, 4));
    assert(bytes.subrange(4, 8) =~= le_bytes(filter.num_hashes, 4));
    lemma_le_round_trip(filter.num_bits, 4);
    lemma_le_round_trip(filter.num_hashes, 4);
    assert(bytes.skip(8) =~= filter.bits);
}

proof fn lemma_position_bound(hash: u64, i: int, num_bits: nat)
    requires
        num_bits > 0,
    ensures
        0 <= position(hash, i, num_bits) < num_bits,
{
}

/// Multiplying by an odd number loses nothing.
proof fn lemma_times_keeps_apart(x: u64, y: u64, factor: u64, inverse: u64, wraps: u64)
    requires
        x != y,
        factor * inverse == 1 + 0x1_0000_0000_0000_0000 * wraps,
    ensures
        x.wrapping_mul(factor) != y.wrapping_mul(factor),
{
    let w = 0x1_0000_0000_0000_0000int;
    let f = factor as int;
    let v = inverse as int;
    assert forall|z: u64| #[trigger] ((z * f) % w * v) % w == z by {
        vstd::arithmetic::div_mod::lemma_mul_mod_noop_left(z * f, v, w);
        assert((z * f) * v == z + w * (z * wraps)) by (nonlinear_arith)
            requires
                f * v == 1 + w * wraps,
        ;
        vstd::arithmetic::div_mod::lemma_mod_multiples_vanish(z * wraps, z as int, w);
        vstd::arithmetic::div_mod::lemma_small_mod(z as nat, w as nat);
    }
    assert(x.wrapping_mul(factor) == (x * f) % w);
    assert(y.wrapping_mul(factor) == (y * f) % w);
    assert(((x * f) % w * v) % w == x);
    assert(((y * f) % w * v) % w == y);
}

/// Mixing loses nothing.
proof fn lemma_mix_keeps_apart(x: u64, y: u64)
    requires
        x != y,
    ensures
        mix_of(x) != mix_of(y),
{
    assert forall|a: u64, b: u64| a != b implies #[trigger] fold_high(a) != #[trigger] fold_high(
        b,
    ) by {
        assert(a != b ==> a ^ (a >> 33) != b ^ (b >> 33)) by (bit_vector);
    }
    let a = fold_high(x);
    let b = fold_high(y);
    lemma_times_keeps_apart(
        a,
        b,
        0xff51_afd7_ed55_8ccd,
        0x4f74_430c_22a5_4005,
        0x4f3e_2925_cb7c_5b4e,
    );
    let c = fold_high(a.wrapping_mul(0xff51_afd7_ed55_8ccd));
    let d = fold_high(b.wrapping_mul(0xff51_afd7_ed55_8ccd));
    lemma_times_keeps_apart(
        c,
        d,
        0xc4ce_b9fe_1a85_ec53,
        0x9cb4_b2f8_1293_37db,
        0x7878_e448_12b2_d581,
    );
}

proof fn lemma_fnv_keeps_apart(a: Seq<u8>, b: Seq<u8>, from: int)
    requires
        a.len() == b.len(),
        0 <= from <= a.len(),
        fnv_of(a.take(from)) != fnv_of(b.take(from)),
        forall|i: int| from <= i < a.len() ==> #[trigger] a[i] == b[i],
    ensures
        fnv_of(a) != fnv_of(b),
    decreases a.len() - from,
{
    if from < a.len() {
        let x = a.take(from + 1);
        let y = b.take(from + 1);
        assert(x.drop_last() =~= a.take(from));
        assert(y.drop_last() =~= b.take(from));
        let p = fnv_of(a.take(from));
        let q = fnv_of(b.take(from));
        let byte = a[from] as u64;
        assert(p != q ==> p ^ byte != q ^ byte) by (bit_vector);
        lemma_times_keeps_apart(
            p ^ byte,
            q ^ byte,
            0x0000_0100_0000_01b3,
            0xce96_5057_aff6_957b,
            0xce_9650_590f,
        );
        lemma_fnv_keeps_apart(a, b, from + 1);
    } else {
        assert(a.take(from) =~= a);
        assert(b.take(from) =~= b);
    }
}

/// Every byte of a key counts: keys that differ in one byte have different hashes.
pub proof fn law_hashes_take_every_byte_in(key: Seq<u8>, i: int, byte: u8)
    requires
        0 <= i < key.len(),
        byte != key[i],
    ensures
        hash_of(key.update(i, byte)) != hash_of(key),
{
    let other = key.update(i, byte);
    let x = key.take(i + 1);
    let y = other.take(i + 1);
    assert(x.drop_last() =~= key.take(i));
    assert(y.drop_last() =~= key.take(i));
    let p = fnv_of(key.take(i));
    let a = key[i] as u64;
    let b = byte as u64;
    assert(a != b ==> p ^ a != p ^ b) by (bit_vector);
    lemma_times_keeps_apart(
        p ^ a,
        p ^ b,
        0x0000_0100_0000_01b3,
        0xce96_5057_aff6_957b,
        0xce_9650_590f,
    );
    assert(y.last() == byte && x.last() == key[i]);
    lemma_fnv_keeps_apart(other, key, i + 1);
    lemma_mix_keeps_apart(fnv_of(other), fnv_of(key));
}

/// The bits that are set are counted one by one: none of a clear filter, and one more for
/// each that is set.
pub proof fn law_set_bits_are_counted(bits: Seq<u8>, upto: nat)
    ensures
        set_bits(bits, upto) <= upto,
        (forall|at: int| 0 <= at < upto ==> !#[trigger] bit_at(bits, at)) ==> set_bits(bits, upto)
            == 0,
        (forall|at: int| 0 <= at < upto ==> #[trigger] bit_at(bits, at)) ==> set_bits(bits, upto)
            == upto,
        bit_at(bits, upto as int) ==> set_bits(bits, upto + 1) == set_bits(bits, upto) + 1,
        !bit_at(bits, upto as int) ==> set_bits(bits, upto + 1) == set_bits(bits, upto),
    decreases upto,
{
    if upto > 0 {
        law_set_bits_are_counted(bits, (upto - 1) as nat);
    }
}

/// A filter has the bits that its keys ask for: no fewer, and less than a byte more, but
/// for a filter of one byte.
pub proof fn law_filters_have_the_bits_asked_for(entries: nat, bits_per_key: nat)
    requires
        entries * bits_per_key <= (u32::MAX - 8) * 0x10_0000_0000_0000,
    ensures
        ({
            let bits = whole_bits(bits_for(entries, bits_per_key)) as int;
            let unit = 0x10_0000_0000_0000int;
            &&& bits % 8 == 0
            &&& 8 <= bits <= u32::MAX
            &&& bits * unit >= entries * bits_per_key
            &&& bits > 8 ==> (bits - 8) * unit < entries * bits_per_key
        }),
{
    reveal(bits_for);
    let unit = 0x10_0000_0000_0000int;
    let asked = (entries * bits_per_key) as int;
    assert(asked >= 0) by (nonlinear_arith)
        requires
            asked == entries * bits_per_key,
            entries >= 0,
            bits_per_key >= 0,
    ;
    let needed = (asked + unit - 1) / unit;
    assert(needed == bits_for(entries, bits_per_key));
    assert(needed * unit >= asked && (needed - 1) * unit < asked && needed >= 0
        && needed <= u32::MAX - 8) by (nonlinear_arith)
        requires
            needed == (asked + unit - 1) / unit,
            unit == 0x10_0000_0000_0000,
            0 <= asked <= (u32::MAX - 8) * unit,
    ;
    let bits = whole_bits(needed as nat) as int;
    assert(bits >= needed && (bits > 8 ==> bits - 8 <= needed - 1));
    assert(bits * unit >= needed * unit) by (nonlinear_arith)
        requires
            bits >= needed,
            unit > 0,
    ;
    if bits > 8 {
        assert((bits - 8) * unit <= (needed - 1) * unit) by (nonlinear_arith)
            requires
                bits - 8 <= needed - 1,
                unit > 0,
        ;
    }
}

/// A key sets the number of bits nearest to `ln 2` times the bits that there are for each,
/// at least one and no more than the most that a filter is given.
pub proof fn law_hashes_are_the_nearest_number(entries: nat, num_bits: nat)
    requires
        entries >= 1,
    ensures
        ({
            let hashes = hashes_for(entries, num_bits) as int;
            // In units of 2^-64.
            let ln_2 = 0xB172_17F7_D1CF_79ACint;
            let half = 0x8000_0000_0000_0000int;
            &&& 1 <= hashes <= 30
            &&& hashes > 1 ==> (2 * hashes - 1) * (entries * half) <= num_bits * ln_2
            &&& hashes < 30 ==> num_bits * ln_2 < (2 * hashes + 1) * (entries * half)
        }),
{
    reveal(hashes_for);
    let ln_2 = 0xB172_17F7_D1CF_79ACint;
    let half = 0x8000_0000_0000_0000int;
    let product = num_bits * ln_2;
    let n = entries * half;
    let whole = entries * 0x1_0000_0000_0000_0000int;
    assert(whole == 2 * n) by (nonlinear_arith)
        requires
            whole == entries * 0x1_0000_0000_0000_0000int,
            n == entries * 0x8000_0000_0000_0000int,
    ;
    assert(n > 0) by (nonlinear_arith)
        requires
            n == entries * 0x8000_0000_0000_0000int,
            entries >= 1,
    ;
    let rounded = (product + n) / whole;
    assert(rounded * (2 * n) <= product + n < (rounded + 1) * (2 * n)) by (nonlinear_arith)
        requires
            rounded == (product + n) / (2 * n),
            n > 0,
    ;
    let hashes = hashes_for(entries, num_bits) as int;
    assert(rounded * (2 * n) == (2 * rounded - 1) * n + n) by (nonlinear_arith);
    assert((rounded + 1) * (2 * n) == (2 * rounded + 1) * n + n) by (nonlinear_arith);
    if hashes > 1 && hashes < rounded {
        assert((2 * hashes - 1) * n <= (2 * rounded - 1) * n) by (nonlinear_arith)
            requires
                hashes <= rounded,
                n > 0,
        ;
    }
    if hashes < 30 && hashes > rounded {
        assert((2 * rounded + 1) * n <= (2 * hashes + 1) * n) by (nonlinear_arith)
            requires
                rounded <= hashes,
                n > 0,
        ;
    }
}

/// Where a hash is looked for: its low half and, step by step, multiples of its high half,
/// made odd, within the filter.
pub proof fn law_positions_step_by_the_high_half(hash: u64, i: int, num_bits: nat)
    requires
        num_bits > 0,
    ensures
        first_half(hash) == hash % 0x1_0000_0000,
        second_half(hash) % 2 == 1,
        second_half(hash) == hash / 0x1_0000_0000 || second_half(hash) == hash / 0x1_0000_0000 + 1,
        position(hash, 0, num_bits) == (hash as int % 0x1_0000_0000) % num_bits as int,
        0 <= position(hash, i, num_bits) < num_bits,
{
    assert(hash & 0xFFFF_FFFF == hash % 0x1_0000_0000) by (bit_vector);
    assert(hash >> 32 == hash / 0x1_0000_0000) by (bit_vector);
    let high = (hash >> 32) as u32;
    assert((high | 1) % 2 == 1 && ((high | 1) == high || (high | 1) == high + 1))
        by (bit_vector);
    vstd::arithmetic::div_mod::lemma_mod_bound(
        (first_half(hash) + i * second_half(hash)) % 0x1_0000_0000,
        num_bits as int,
    );
    assert(0 * second_half(hash) == 0);
    vstd::arithmetic::div_mod::lemma_small_mod(first_half(hash) as nat, 0x1_0000_0000);
}

/// Recording a hash sets the bits that it is looked for at, and no others: whatever is told
/// absent before, and has a bit that the hash does not set, is told absent after.
pub proof fn law_recording_sets_no_other_bit(
    before: BloomView,
    after: BloomView,
    hash: u64,
    other: u64,
    i: int,
)
    requires
        before.wf(),
        before.inserted(after, hash),
        0 <= i < before.num_hashes,
        !bit_at(before.bits, position(other, i, before.num_bits)),
        forall|j: int|
            0 <= j < before.num_hashes ==> #[trigger] position(hash, j, before.num_bits)
                != position(other, i, before.num_bits),
    ensures
        !after.may_contain(other),
        !before.may_contain(other),
{
    law_positions_step_by_the_high_half(other, i, before.num_bits);
    let at = position(other, i, before.num_bits);
    assert(bit_at(after.bits, at) == (bit_at(before.bits, at) || probes(before, hash, at)));
    assert(position(other, i, after.num_bits) == at);
}

proof fn lemma_set_bit(byte: u8, i: u8, j: u8)
    by (bit_vector)
    requires
        i < 8,
        j < 8,
    ensures
        ((byte | (1u8 << i)) & (1u8 << j) != 0) == (i == j || byte & (1u8 << j) != 0),
{
}

proof fn lemma_probe_step(first: u32, second: u32, i: int)
    requires
        0 <= i <= u32::MAX,
    ensures
        first.wrapping_add((i as u32).wrapping_mul(second)) == (first + i * second) % 0x1_0000_0000,
{
    let product = i * second;
    assert(0 <= product) by (nonlinear_arith)
        requires
            0 <= i,
            0 <= second,
            product == i * second,
    ;
    vstd::arithmetic::div_mod::lemma_add_mod_noop_right(
        first as int,
        product,
        0x1_0000_0000,
    );
    assert((i as u32).wrapping_mul(second) == product % 0x1_0000_0000);
}

/// A Bloom filter.
#[derive(Debug, Clone, PartialEq, Eq)]
pub struct BloomFilter {
    bits: Vec<u8>,
    num_bits: u32,
    num_hashes: u32,
}

impl View for BloomFilter {
    type V = BloomView;

    closed spec fn view(&self) -> BloomView {
        BloomView {
            num_bits: self.num_bits as nat,
            num_hashes: self.num_hashes as nat,
            bits: self.bits@,
        }
    }
}

impl BloomFilter {
    /// An empty filter for `expected_entries` keys.
    ///
    /// `bits_per_key` is in units of 2^-52. For a false-positive rate `p` the
    /// right number is `-ln p / (ln 2)^2`.
    pub fn with_capacity(expected_entries: usize, bits_per_key: u64) -> (filter: Self)
        ensures
            filter@.wf(),
            filter@.clear(),
            filter@.num_bits == whole_bits(
                bits_for(at_least_one(expected_entries as nat), bits_per_key as nat),
            ),
            filter@.num_hashes == hashes_for(
                at_least_one(expected_entries as nat),
                filter@.num_bits,
            ),
    {
        proof {
            reveal(bits_for);
            reveal(hashes_for);
        }
        let entries: u64 = if expected_entries == 0 {
            1
        } else {
            expected_entries as u64
        };
        assert(entries * bits_per_key <= 0xffff_ffff_ffff_ffff * 0xffff_ffff_ffff_ffff)
            by (nonlinear_arith)
            requires
                0 <= entries <= 0xffff_ffff_ffff_ffff,
                0 <= bits_per_key <= 0xffff_ffff_ffff_ffff,
        ;
        let bits: u128 = (entries as u128 * bits_per_key as u128 + 0xF_FFFF_FFFF_FFFF)
            / 0x10_0000_0000_0000;
        let bounded: u32 = if bits < 8 {
            8
        } else if bits > (u32::MAX - 8) as u128 {
            u32::MAX - 8
        } else {
            bits as u32
        };
        let num_bytes: u32 = (bounded + 7) / 8;
        let num_bits: u32 = num_bytes * 8;
        assert(num_bits * LN_2_FRACTION <= 0xffff_ffff * 0xffff_ffff_ffff_ffff) by (nonlinear_arith)
            requires
                0 <= num_bits <= 0xffff_ffff,
        ;
        let rounded: u128 = (num_bits as u128 * LN_2_FRACTION as u128 + entries as u128
            * 0x8000_0000_0000_0000) / (entries as u128 * 0x1_0000_0000_0000_0000);
        let num_hashes: u32 = if rounded < 1 {
            1
        } else if rounded > MAX_HASHES as u128 {
            MAX_HASHES
        } else {
            rounded as u32
        };
        let mut bytes: Vec<u8> = Vec::new();
        let mut i: u32 = 0;
        while i < num_bytes
            invariant
                i <= num_bytes,
                bytes@.len() == i,
                forall|j: int| 0 <= j < i ==> #[trigger] bytes@[j] == 0,
            decreases num_bytes - i,
        {
            bytes.push(0);
            i = i + 1;
        }
        let filter = BloomFilter { bits: bytes, num_bits, num_hashes };
        proof {
            assert forall|at: int| 0 <= at < filter@.num_bits implies !#[trigger] bit_at(
                filter@.bits,
                at,
            ) by {
                let shift = (at % 8) as u8;
                assert(0u8 & (1u8 << shift) == 0) by (bit_vector);
            }
        }
        filter
    }

    /// Records a key.
    pub fn insert(&mut self, key: &[u8])
        requires
            old(self)@.wf(),
        ensures
            final(self)@.wf(),
            old(self)@.inserted(final(self)@, hash_of(key@)),
    {
        self.insert_hash(hash_key(key));
    }

    /// Records a key by its hash.
    pub fn insert_hash(&mut self, hash: u64)
        requires
            old(self)@.wf(),
        ensures
            final(self)@.wf(),
            old(self)@.inserted(final(self)@, hash),
    {
        let ghost start = self@;
        let mut i: u32 = 0;
        while i < self.num_hashes
            invariant
                start == old(self)@,
                start.wf(),
                self@.wf(),
                self@.num_bits == start.num_bits,
                self@.num_hashes == start.num_hashes,
                self@.bits.len() == start.bits.len(),
                i <= start.num_hashes,
                forall|at: int|
                    0 <= at < start.num_bits ==> #[trigger] bit_at(self@.bits, at) == (bit_at(
                        start.bits,
                        at,
                    ) || probed(start, hash, i as int, at)),
            decreases start.num_hashes - i,
        {
            let at: u32 = bit_position(hash, i, self.num_bits);
            let index: usize = (at / 8) as usize;
            let shift: u8 = (at % 8) as u8;
            let ghost before = self@.bits;
            let byte: u8 = self.bits[index];
            self.bits.set(index, byte | (1u8 << shift));
            proof {
                let after = self@.bits;
                assert forall|b: int| 0 <= b < start.num_bits implies #[trigger] bit_at(after, b)
                    == (bit_at(start.bits, b) || probed(start, hash, i + 1, b)) by {
                    assert(bit_at(before, b) == (bit_at(start.bits, b) || probed(
                        start,
                        hash,
                        i as int,
                        b,
                    )));
                    lemma_set_bit(byte, shift, (b % 8) as u8);
                    assert(position(hash, i as int, start.num_bits) == at as int);
                    if probed(start, hash, i + 1, b) && !probed(start, hash, i as int, b) {
                        let j = choose|j: int|
                            0 <= j < i + 1 && #[trigger] position(hash, j, start.num_bits) == b;
                        assert(j == i);
                    }
                    if probed(start, hash, i as int, b) {
                        let j = choose|j: int|
                            0 <= j < i && #[trigger] position(hash, j, start.num_bits) == b;
                        assert(0 <= j < i + 1);
                    }
                    if b == at {
                        assert(probed(start, hash, i + 1, b));
                    }
                }
            }
            i = i + 1;
        }
        proof {
            assert forall|at: int| 0 <= at < start.num_bits implies probed(
                start,
                hash,
                i as int,
                at,
            ) == probes(start, hash, at) by {}
        }
    }

    /// `false` means that the key was never recorded; `true` that it may have
    /// been.
    pub fn may_contain(&self, key: &[u8]) -> (maybe: bool)
        requires
            self@.wf(),
        ensures
            maybe == self@.may_contain(hash_of(key@)),
    {
        self.may_contain_hash(hash_key(key))
    }

    /// As [`BloomFilter::may_contain`], by the key's hash.
    pub fn may_contain_hash(&self, hash: u64) -> (maybe: bool)
        requires
            self@.wf(),
        ensures
            maybe == self@.may_contain(hash),
    {
        let mut i: u32 = 0;
        while i < self.num_hashes
            invariant
                self@.wf(),
                i <= self.num_hashes,
                forall|j: int|
                    0 <= j < i ==> bit_at(
                        self@.bits,
                        #[trigger] position(hash, j, self@.num_bits),
                    ),
            decreases self.num_hashes - i,
        {
            let at: u32 = bit_position(hash, i, self.num_bits);
            let index: usize = (at / 8) as usize;
            let shift: u8 = (at % 8) as u8;
            if self.bits[index] & (1u8 << shift) == 0 {
                proof {
                    assert(!bit_at(self@.bits, position(hash, i as int, self@.num_bits)));
                }
                return false;
            }
            i = i + 1;
        }
        true
    }

    /// The number of bits.
    pub fn num_bits(&self) -> (bits: u32)
        ensures
            bits == self@.num_bits,
    {
        self.num_bits
    }

    /// The number of bits that one key sets.
    pub fn num_hashes(&self) -> (hashes: u32)
        ensures
            hashes == self@.num_hashes,
    {
        self.num_hashes
    }

    /// Bits set, over total bits, as a fraction. A filter near one has lost most
    /// of its value.
    pub fn fill_ratio(&self) -> (ratio: (u32, u32))
        requires
            self@.wf(),
        ensures
            ratio.0 == set_bits(self@.bits, self@.num_bits),
            ratio.1 == self@.num_bits,
    {
        let mut set: u32 = 0;
        let mut at: u32 = 0;
        while at < self.num_bits
            invariant
                self@.wf(),
                at <= self.num_bits,
                set <= at,
                set == set_bits(self@.bits, at as nat),
            decreases self.num_bits - at,
        {
            let index: usize = (at / 8) as usize;
            let shift: u8 = (at % 8) as u8;
            if self.bits[index] & (1u8 << shift) != 0 {
                set = set + 1;
            }
            at = at + 1;
        }
        (set, self.num_bits)
    }

    /// The filter as bytes.
    pub fn encode(&self) -> (bytes: Vec<u8>)
        ensures
            bytes@ == self@.encoded(),
    {
        let mut bytes: Vec<u8> = Vec::new();
        push_u32(&mut bytes, self.num_bits);
        push_u32(&mut bytes, self.num_hashes);
        bytes.extend_from_slice(self.bits.as_slice());
        proof {
            assert(bytes@ =~= self@.encoded());
        }
        bytes
    }

    /// Reads a filter back, or says why the bytes are not one.
    pub fn decode(bytes: &[u8]) -> (decoded: Result<Self, StorageError>)
        ensures
            match decoded {
                Ok(filter) => parse_bloom(bytes@) == Ok::<BloomView, StorageError>(filter@)
                    && filter@.wf(),
                Err(error) => parse_bloom(bytes@) == Err::<BloomView, StorageError>(error),
            },
    {
        if bytes.len() < ENCODED_HEADER_BYTES {
            return Err(StorageError::BloomTruncatedHeader);
        }
        let num_bits: u32 = read_u32(bytes, 0);
        let num_hashes: u32 = read_u32(bytes, 4);
        if num_bits == 0 || num_hashes == 0 {
            return Err(StorageError::BloomZeroGeometry);
        }
        let payload: usize = bytes.len() - ENCODED_HEADER_BYTES;
        if num_bits as u128 != payload as u128 * 8 {
            return Err(StorageError::BloomSizeMismatch);
        }
        let bits: Vec<u8> = copy_bytes(
            vstd::slice::slice_subrange(bytes, ENCODED_HEADER_BYTES, bytes.len()),
        );
        proof {
            assert(bits@ =~= bytes@.skip(8));
        }
        Ok(BloomFilter { bits, num_bits, num_hashes })
    }
}

/// One of the first `upto` bits that `hash` maps to is bit `at`.
spec fn probed(filter: BloomView, hash: u64, upto: int, at: int) -> bool {
    exists|i: int| 0 <= i < upto && #[trigger] position(hash, i, filter.num_bits) == at
}

fn bit_position(hash: u64, i: u32, num_bits: u32) -> (at: u32)
    requires
        num_bits > 0,
    ensures
        at == position(hash, i as int, num_bits as nat),
        at < num_bits,
{
    let first: u32 = (hash & 0xFFFF_FFFF) as u32;
    let second: u32 = ((hash >> 32) as u32) | 1;
    proof {
        lemma_probe_step(first, second, i as int);
    }
    first.wrapping_add(i.wrapping_mul(second)) % num_bits
}

/// The hash that filters are built on.
pub fn hash_key(key: &[u8]) -> (hash: u64)
    ensures
        hash == hash_of(key@),
{
    let mut hash: u64 = FNV_OFFSET_BASIS;
    let mut i: usize = 0;
    while i < key.len()
        invariant
            i <= key@.len(),
            hash == fnv_of(key@.take(i as int)),
        decreases key@.len() - i,
    {
        proof {
            assert(key@.take(i + 1).drop_last() =~= key@.take(i as int));
        }
        hash = (hash ^ (key[i] as u64)).wrapping_mul(FNV_PRIME);
        i = i + 1;
    }
    proof {
        assert(key@.take(i as int) =~= key@);
    }
    fmix64(hash)
}

/// MurmurHash3's 64-bit finalizer.
fn fmix64(value: u64) -> (mixed: u64)
    ensures
        mixed == mix_of(value),
{
    let mut mixed: u64 = value;
    mixed = mixed ^ (mixed >> 33);
    mixed = mixed.wrapping_mul(0xff51_afd7_ed55_8ccd);
    mixed = mixed ^ (mixed >> 33);
    mixed = mixed.wrapping_mul(0xc4ce_b9fe_1a85_ec53);
    mixed ^ (mixed >> 33)
}

} // verus!
