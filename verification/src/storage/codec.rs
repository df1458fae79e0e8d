//! Little-endian integers, as every on-disk format here writes them.

use vstd::prelude::*;

verus! {

/// 256 to the `width`.
pub open spec fn pow256(width: nat) -> nat
    decreases width,
{
    if width == 0 {
        1
    } else {
        256 * pow256((width - 1) as nat)
    }
}

/// The `width` low bytes of `value`, least significant first.
pub open spec fn le_bytes(value: nat, width: nat) -> Seq<u8>
    decreases width,
{
    if width == 0 {
        Seq::empty()
    } else {
        seq![(value % 256) as u8] + le_bytes(value / 256, (width - 1) as nat)
    }
}

/// The number that `bytes` spell, least significant first.
pub open spec fn le_value(bytes: Seq<u8>) -> nat
    decreases bytes.len(),
{
    if bytes.len() == 0 {
        0
    } else {
        bytes[0] as nat + 256 * le_value(bytes.drop_first())
    }
}

/// An encoding has the width asked for.
pub broadcast proof fn lemma_le_len(value: nat, width: nat)
    ensures
        #[trigger] le_bytes(value, width).len() == width,
    decreases width,
{
    if width > 0 {
        lemma_le_len(value / 256, (width - 1) as nat);
    }
}

/// Reading an encoding back gives the number, if it fits the width.
pub proof fn lemma_le_round_trip(value: nat, width: nat)
    requires
        value < pow256(width),
    ensures
        le_value(le_bytes(value, width)) == value,
    decreases width,
{
    if width > 0 {
        let rest = le_bytes(value / 256, (width - 1) as nat);
        assert(le_bytes(value, width).drop_first() =~= rest);
        lemma_le_round_trip(value / 256, (width - 1) as nat);
    }
}

/// A number read from `n` bytes is below `256^n`.
pub proof fn lemma_le_bound(bytes: Seq<u8>)
    ensures
        le_value(bytes) < pow256(bytes.len()),
    decreases bytes.len(),
{
    if bytes.len() > 0 {
        lemma_le_bound(bytes.drop_first());
    }
}

/// Encoding what was read gives the bytes back.
pub proof fn lemma_le_encodes_back(bytes: Seq<u8>)
    ensures
        le_bytes(le_value(bytes), bytes.len()) == bytes,
    decreases bytes.len(),
{
    if bytes.len() > 0 {
        lemma_le_encodes_back(bytes.drop_first());
        assert(le_value(bytes) / 256 == le_value(bytes.drop_first()));
        assert(le_value(bytes) % 256 == bytes[0]);
        assert(bytes =~= seq![bytes[0]] + bytes.drop_first());
    } else {
        assert(bytes =~= Seq::empty());
    }
}

/// Different bytes spell different numbers.
pub proof fn lemma_le_differs(bytes: Seq<u8>, others: Seq<u8>)
    requires
        bytes.len() == others.len(),
        bytes != others,
    ensures
        le_value(bytes) != le_value(others),
{
    lemma_le_encodes_back(bytes);
    lemma_le_encodes_back(others);
}

/// The widths in use.
pub proof fn lemma_pow256_values()
    ensures
        pow256(4) == 0x1_0000_0000,
        pow256(8) == 0x1_0000_0000_0000_0000,
{
    reveal_with_fuel(pow256, 9);
}

/// Appends `value` in `width` bytes.
fn push_le(out: &mut Vec<u8>, value: u64, width: usize)
    ensures
        final(out)@ == old(out)@ + le_bytes(value as nat, width as nat),
{
    let mut rest: u64 = value;
    let mut written: usize = 0;
    proof {
        assert(old(out)@ + le_bytes(value as nat, width as nat) =~= old(out)@ + le_bytes(
            value as nat,
            width as nat,
        ));
    }
    while written < width
        invariant
            written <= width,
            out@ + le_bytes(rest as nat, (width - written) as nat) == old(out)@ + le_bytes(
                value as nat,
                width as nat,
            ),
        decreases width - written,
    {
        let ghost before = out@;
        let ghost tail = le_bytes((rest / 256) as nat, (width - written - 1) as nat);
        out.push((rest % 256) as u8);
        proof {
            assert(out@ + tail =~= before + le_bytes(rest as nat, (width - written) as nat));
        }
        rest = rest / 256;
        written = written + 1;
    }
    proof {
        assert(out@ + Seq::<u8>::empty() =~= out@);
    }
}

/// Appends a `u32`, four bytes little-endian.
pub fn push_u32(out: &mut Vec<u8>, value: u32)
    ensures
        final(out)@ == old(out)@ + le_bytes(value as nat, 4),
{
    push_le(out, value as u64, 4);
}

/// Appends a `u64`, eight bytes little-endian.
pub fn push_u64(out: &mut Vec<u8>, value: u64)
    ensures
        final(out)@ == old(out)@ + le_bytes(value as nat, 8),
{
    push_le(out, value, 8);
}

/// Reads the number in the `width` bytes at `at`.
fn read_le(bytes: &[u8], at: usize, width: usize) -> (value: u64)
    requires
        width <= 8,
        at + width <= bytes@.len(),
    ensures
        value == le_value(bytes@.subrange(at as int, at + width)),
        value < pow256(width as nat),
{
    let mut value: u64 = 0;
    let mut left: usize = width;
    let available: usize = bytes.len();
    proof {
        lemma_pow256_values();
        assert(bytes@.subrange(at + width, at + width) =~= Seq::<u8>::empty());
    }
    while left > 0
        invariant
            left <= width <= 8,
            at + width <= available,
            available == bytes@.len(),
            value == le_value(bytes@.subrange(at + left, at + width)),
        decreases left,
    {
        left = left - 1;
        let ghost part = bytes@.subrange(at + left, at + width);
        proof {
            assert(part.drop_first() =~= bytes@.subrange(at + left + 1, at + width));
            lemma_le_bound(part);
            lemma_pow256_monotone(part.len(), 8);
            lemma_pow256_values();
        }
        value = value * 256 + bytes[at + left] as u64;
    }
    proof {
        lemma_le_bound(bytes@.subrange(at as int, at + width));
    }
    value
}

proof fn lemma_pow256_monotone(a: nat, b: nat)
    requires
        a <= b,
    ensures
        pow256(a) <= pow256(b),
    decreases b,
{
    if a < b {
        lemma_pow256_monotone(a, (b - 1) as nat);
    }
}

/// Reads the `u32` at `at`.
pub fn read_u32(bytes: &[u8], at: usize) -> (value: u32)
    requires
        at + 4 <= bytes@.len(),
    ensures
        value == le_value(bytes@.subrange(at as int, at + 4)),
{
    proof {
        lemma_pow256_values();
    }
    read_le(bytes, at, 4) as u32
}

/// Reads the `u64` at `at`.
pub fn read_u64(bytes: &[u8], at: usize) -> (value: u64)
    requires
        at + 8 <= bytes@.len(),
    ensures
        value == le_value(bytes@.subrange(at as int, at + 8)),
{
    read_le(bytes, at, 8)
}

} // verus!
