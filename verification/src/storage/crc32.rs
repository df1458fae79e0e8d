//! CRC-32, the checksum that every on-disk record and block carries.
//!
//! The reflected CRC-32 of IEEE 802.3: polynomial `0xEDB88320`, initial state
//! and final complement all ones.

use vstd::prelude::*;

verus! {

/// The reflected generator polynomial.
pub const POLYNOMIAL: u32 = 0xEDB8_8320;

/// The state before any byte has been fed in.
pub const INITIAL: u32 = 0xFFFF_FFFF;

/// One bit of polynomial division.
pub open spec fn crc_bit(state: u32) -> u32 {
    if state & 1 == 1 {
        (state >> 1) ^ 0xEDB8_8320u32
    } else {
        state >> 1
    }
}

/// Eight bits of polynomial division.
pub open spec fn crc_shift(state: u32) -> u32 {
    crc_bit(crc_bit(crc_bit(crc_bit(crc_bit(crc_bit(crc_bit(crc_bit(state))))))))
}

/// The state after one more byte.
pub open spec fn crc_byte(state: u32, byte: u8) -> u32 {
    crc_shift(state ^ (byte as u32))
}

/// The state after a run of bytes.
pub open spec fn crc_fold(state: u32, data: Seq<u8>) -> u32
    decreases data.len(),
{
    if data.len() == 0 {
        state
    } else {
        crc_byte(crc_fold(state, data.drop_last()), data.last())
    }
}

/// The CRC-32 of a byte string.
pub open spec fn crc_of(data: Seq<u8>) -> u32 {
    crc_fold(INITIAL, data) ^ 0xFFFF_FFFFu32
}

/// Whether `table` lists the division of each byte value.
pub open spec fn is_table(table: Seq<u32>) -> bool {
    &&& table.len() == 256
    &&& forall|i: int| 0 <= i < 256 ==> #[trigger] table[i] == crc_shift(i as u32)
}

/// Feeding a concatenation is feeding its parts in turn.
pub proof fn lemma_fold_concat(state: u32, a: Seq<u8>, b: Seq<u8>)
    ensures
        crc_fold(state, a + b) == crc_fold(crc_fold(state, a), b),
    decreases b.len(),
{
    if b.len() == 0 {
        assert(a + b =~= a);
    } else {
        assert((a + b).drop_last() =~= a + b.drop_last());
        assert((a + b).last() == b.last());
        lemma_fold_concat(state, a, b.drop_last());
    }
}

proof fn lemma_shift_splits(x: u32)
    by (bit_vector)
    ensures
        crc_shift(x) == crc_shift(x & 0xff) ^ (x >> 8),
{
}

proof fn lemma_bit_injective(x: u32, y: u32)
    by (bit_vector)
    requires
        x != y,
    ensures
        crc_bit(x) != crc_bit(y),
{
}

proof fn lemma_byte_injective(s: u32, t: u32, a: u8, b: u8)
    requires
        s != t && a == b || s == t && a != b,
    ensures
        crc_byte(s, a) != crc_byte(t, b),
{
    let x0 = s ^ (a as u32);
    let y0 = t ^ (b as u32);
    assert(x0 != y0) by (bit_vector)
        requires
            x0 == s ^ (a as u32),
            y0 == t ^ (b as u32),
            s != t && a == b || s == t && a != b,
    ;
    let x1 = crc_bit(x0);
    let y1 = crc_bit(y0);
    lemma_bit_injective(x0, y0);
    let x2 = crc_bit(x1);
    let y2 = crc_bit(y1);
    lemma_bit_injective(x1, y1);
    let x3 = crc_bit(x2);
    let y3 = crc_bit(y2);
    lemma_bit_injective(x2, y2);
    let x4 = crc_bit(x3);
    let y4 = crc_bit(y3);
    lemma_bit_injective(x3, y3);
    let x5 = crc_bit(x4);
    let y5 = crc_bit(y4);
    lemma_bit_injective(x4, y4);
    let x6 = crc_bit(x5);
    let y6 = crc_bit(y5);
    lemma_bit_injective(x5, y5);
    let x7 = crc_bit(x6);
    let y7 = crc_bit(y6);
    lemma_bit_injective(x6, y6);
    lemma_bit_injective(x7, y7);
}

/// Different states stay different under the same bytes.
proof fn lemma_fold_injective(s: u32, t: u32, data: Seq<u8>)
    requires
        s != t,
    ensures
        crc_fold(s, data) != crc_fold(t, data),
    decreases data.len(),
{
    if data.len() > 0 {
        lemma_fold_injective(s, t, data.drop_last());
        lemma_byte_injective(
            crc_fold(s, data.drop_last()),
            crc_fold(t, data.drop_last()),
            data.last(),
            data.last(),
        );
    }
}

/// A change confined to one byte, such as a flipped bit, always changes the
/// checksum.
pub proof fn law_single_byte_change_is_detected(data: Seq<u8>, i: int, byte: u8)
    requires
        0 <= i < data.len(),
        byte != data[i],
    ensures
        crc_of(data.update(i, byte)) != crc_of(data),
{
    let other = data.update(i, byte);
    let head = data.take(i);
    let tail = data.skip(i + 1);
    assert(data =~= head.push(data[i]) + tail);
    assert(other =~= head.push(byte) + tail);
    let s = crc_fold(INITIAL, head);
    assert(head.push(data[i]).drop_last() =~= head);
    assert(head.push(byte).drop_last() =~= head);
    lemma_byte_injective(s, s, data[i], byte);
    lemma_fold_concat(INITIAL, head.push(data[i]), tail);
    lemma_fold_concat(INITIAL, head.push(byte), tail);
    lemma_fold_injective(crc_byte(s, data[i]), crc_byte(s, byte), tail);
    let x = crc_fold(INITIAL, data);
    let y = crc_fold(INITIAL, other);
    assert(x ^ 0xFFFF_FFFFu32 != y ^ 0xFFFF_FFFFu32) by (bit_vector)
        requires
            x != y,
    ;
}

/// Checksumming a concatenation in parts gives the checksum of the whole.
pub proof fn law_incremental_matches_one_shot(a: Seq<u8>, b: Seq<u8>)
    ensures
        crc_of(a + b) == crc_fold(crc_fold(INITIAL, a), b) ^ 0xFFFF_FFFFu32,
{
    lemma_fold_concat(INITIAL, a, b);
}

fn build_table() -> (table: Vec<u32>)
    ensures
        is_table(table@),
{
    let mut table: Vec<u32> = Vec::new();
    let mut index: u32 = 0;
    while index < 256
        invariant
            index <= 256,
            table@.len() == index,
            forall|i: int| 0 <= i < index ==> #[trigger] table@[i] == crc_shift(i as u32),
        decreases 256 - index,
    {
        let mut state: u32 = index;
        let mut bit: u32 = 0;
        let ghost mut trail: Seq<u32> = seq![index];
        while bit < 8
            invariant
                bit <= 8,
                trail.len() == bit + 1,
                trail[0] == index,
                trail[bit as int] == state,
                forall|j: int| 0 <= j < bit ==> trail[j + 1] == crc_bit(#[trigger] trail[j]),
            decreases 8 - bit,
        {
            let ghost previous = state;
            if state & 1 == 1 {
                state = (state >> 1) ^ POLYNOMIAL;
            } else {
                state = state >> 1;
            }
            proof {
                trail = trail.push(state);
            }
            bit = bit + 1;
        }
        proof {
            assert(trail[1] == crc_bit(trail[0]));
            assert(trail[2] == crc_bit(trail[1]));
            assert(trail[3] == crc_bit(trail[2]));
            assert(trail[4] == crc_bit(trail[3]));
            assert(trail[5] == crc_bit(trail[4]));
            assert(trail[6] == crc_bit(trail[5]));
            assert(trail[7] == crc_bit(trail[6]));
            assert(trail[8] == crc_bit(trail[7]));
        }
        table.push(state);
        index = index + 1;
    }
    table
}

/// A checksum under construction, fed a piece at a time.
#[derive(Clone, Debug)]
pub struct Crc32 {
    state: u32,
    table: Vec<u32>,
}

impl Crc32 {
    /// The bytes fed in so far left the division in this state.
    pub closed spec fn state(&self) -> u32 {
        self.state
    }

    /// The lookup table is the right one.
    pub closed spec fn wf(&self) -> bool {
        is_table(self.table@)
    }

    /// A checksum of nothing yet.
    pub fn new() -> (crc: Self)
        ensures
            crc.wf(),
            crc.state() == INITIAL,
    {
        Crc32 { state: INITIAL, table: build_table() }
    }

    /// Feeds in more bytes.
    pub fn update(&mut self, data: &[u8])
        requires
            old(self).wf(),
        ensures
            final(self).wf(),
            final(self).state() == crc_fold(old(self).state(), data@),
    {
        let mut i: usize = 0;
        while i < data.len()
            invariant
                i <= data@.len(),
                self.wf(),
                self.state == crc_fold(old(self).state, data@.take(i as int)),
            decreases data@.len() - i,
        {
            let byte: u8 = data[i];
            let state: u32 = self.state;
            let mixed: u32 = state ^ (byte as u32);
            let index: u32 = mixed & 0xff;
            assert(index < 256) by (bit_vector)
                requires
                    index == mixed & 0xff,
            ;
            proof {
                lemma_shift_splits(mixed);
                assert(data@.take(i + 1).drop_last() =~= data@.take(i as int));
                assert(mixed >> 8 == state >> 8) by (bit_vector)
                    requires
                        mixed == state ^ (byte as u32),
                ;
            }
            self.state = self.table[index as usize] ^ (state >> 8);
            i = i + 1;
        }
        assert(data@.take(i as int) =~= data@);
    }

    /// The checksum of everything fed in.
    pub fn finish(&self) -> (checksum: u32)
        ensures
            checksum == self.state() ^ 0xFFFF_FFFFu32,
    {
        self.state ^ 0xFFFF_FFFF
    }
}

impl Default for Crc32 {
    fn default() -> (crc: Self)
        ensures
            crc.wf(),
            crc.state() == INITIAL,
    {
        Crc32::new()
    }
}

/// The CRC-32 of `data`.
pub fn crc32(data: &[u8]) -> (checksum: u32)
    ensures
        checksum == crc_of(data@),
{
    let mut crc: Crc32 = Crc32::new();
    crc.update(data);
    crc.finish()
}

} // verus!
