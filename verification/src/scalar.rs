//! Scalars as bytes: how one element is laid down in a buffer.
//!
//! An element of `width` bytes, at most 8, stands for the number that its
//! bytes spell in little-endian order. That number is the element's bit
//! pattern; what it means depends on the kind of element.

use crate::memory::AlignedBuffer;
use vstd::arithmetic::div_mod::{
    lemma_breakdown,
    lemma_fundamental_div_mod,
    lemma_fundamental_div_mod_converse,
    lemma_mod_bound,
};
use vstd::prelude::*;

verus! {

/// The number of bit patterns of `width` bytes: 256 to the power `width`.
pub open spec fn capacity(width: nat) -> nat
    decreases width,
{
    if width == 0 {
        1
    } else {
        256 * capacity((width - 1) as nat)
    }
}

/// The number that the bytes spell in little-endian order.
pub open spec fn le_value(bytes: Seq<u8>) -> nat
    decreases bytes.len(),
{
    if bytes.len() == 0 {
        0
    } else {
        bytes.first() as nat + 256 * le_value(bytes.drop_first())
    }
}

/// The `width` low bytes of `value` in little-endian order.
pub open spec fn le_bytes(value: nat, width: nat) -> Seq<u8>
    decreases width,
{
    if width == 0 {
        Seq::empty()
    } else {
        seq![(value % 256) as u8] + le_bytes(value / 256, (width - 1) as nat)
    }
}

/// The capacities of the widths up to 8.
pub proof fn lemma_capacity_values()
    ensures
        capacity(0) == 1,
        capacity(1) == 0x100,
        capacity(2) == 0x1_0000,
        capacity(3) == 0x100_0000,
        capacity(4) == 0x1_0000_0000,
        capacity(5) == 0x100_0000_0000,
        capacity(6) == 0x1_0000_0000_0000,
        capacity(7) == 0x100_0000_0000_0000,
        capacity(8) == 0x1_0000_0000_0000_0000,
{
    reveal_with_fuel(capacity, 9);
}

/// A wider pattern has at least the capacity of a narrower one.
pub proof fn lemma_capacity_monotone(narrow: nat, wide: nat)
    requires
        narrow <= wide,
    ensures
        1 <= capacity(narrow) <= capacity(wide),
    decreases wide,
{
    if wide == 0 {
    } else if narrow == wide {
        lemma_capacity_monotone((narrow - 1) as nat, (wide - 1) as nat);
    } else {
        lemma_capacity_monotone(narrow, (wide - 1) as nat);
    }
}

/// What bytes spell is less than the capacity of their number.
pub proof fn lemma_le_value_bound(bytes: Seq<u8>)
    ensures
        le_value(bytes) < capacity(bytes.len()),
    decreases bytes.len(),
{
    if bytes.len() > 0 {
        lemma_le_value_bound(bytes.drop_first());
    }
}

/// Spelling a number in `width` bytes gives `width` bytes, which spell the
/// number again as far as it fits: its remainder by the capacity.
pub proof fn lemma_le_bytes_value(value: nat, width: nat)
    ensures
        le_bytes(value, width).len() == width,
        le_value(le_bytes(value, width)) == value % capacity(width),
    decreases width,
{
    if width > 0 {
        let rest = le_bytes(value / 256, (width - 1) as nat);
        let all = le_bytes(value, width);
        lemma_le_bytes_value(value / 256, (width - 1) as nat);
        assert(all.drop_first() =~= rest);
        assert(all.first() == (value % 256) as u8);
        let c = capacity((width - 1) as nat) as int;
        lemma_capacity_monotone(0, (width - 1) as nat);
        lemma_breakdown(value as int, 256, c);
    }
}

/// Bytes are the spelling of what they spell.
pub proof fn lemma_le_value_bytes(bytes: Seq<u8>)
    ensures
        le_bytes(le_value(bytes), bytes.len()) == bytes,
    decreases bytes.len(),
{
    if bytes.len() > 0 {
        let rest = bytes.drop_first();
        lemma_le_value_bytes(rest);
        let v = le_value(bytes);
        assert(v % 256 == bytes.first() && v / 256 == le_value(rest)) by (nonlinear_arith)
            requires
                v == bytes.first() as nat + 256 * le_value(rest),
                0 <= bytes.first() < 256,
        ;
        assert(le_bytes(v, bytes.len()) =~= bytes);
    } else {
        assert(le_bytes(le_value(bytes), bytes.len()) =~= bytes);
    }
}

/// Reads the `width` bytes at `at` as one little-endian number.
pub fn read_le(buffer: &AlignedBuffer, at: usize, width: usize) -> (value: u64)
    requires
        width <= 8,
        at + width <= buffer@.len(),
    ensures
        value == le_value(buffer@.subrange(at as int, at + width)),
{
    let ghost bytes = buffer@.subrange(at as int, at + width);
    let mut value: u64 = 0;
    let mut i: usize = width;
    proof {
        buffer.lemma_len_bound();
        assert(bytes.skip(width as int) =~= Seq::<u8>::empty());
    }
    while i > 0
        invariant
            width <= 8,
            at + width <= buffer@.len(),
            buffer@.len() <= usize::MAX,
            bytes == buffer@.subrange(at as int, at + width),
            i <= width,
            value == le_value(bytes.skip(i as int)),
        decreases i,
    {
        proof {
            lemma_le_value_bound(bytes.skip(i as int));
            lemma_capacity_monotone((width - i) as nat, 7);
            lemma_capacity_values();
            assert(bytes.skip(i - 1).drop_first() =~= bytes.skip(i as int));
            assert(bytes.skip(i - 1).first() == buffer@[at + i - 1]);
        }
        i -= 1;
        value = value * 256 + buffer.read(at + i) as u64;
    }
    proof {
        assert(bytes.skip(0) =~= bytes);
    }
    value
}

/// Writes the `width` low bytes of `value` at `at`, in little-endian
/// order. The other bytes of the buffer stay as they are.
pub fn write_le(buffer: &mut AlignedBuffer, at: usize, width: usize, value: u64)
    requires
        at + width <= old(buffer)@.len(),
    ensures
        final(buffer)@.len() == old(buffer)@.len(),
        final(buffer)@.subrange(at as int, at + width) == le_bytes(value as nat, width as nat),
        forall|i: int|
            0 <= i < old(buffer)@.len() && !(at <= i < at + width) ==> final(buffer)@[i]
                == old(buffer)@[i],
        final(buffer).spec_addr() == old(buffer).spec_addr(),
        final(buffer).spec_alignment() == old(buffer).spec_alignment(),
    no_unwind
{
    let mut rest: u64 = value;
    let mut i: usize = 0;
    let ghost target = le_bytes(value as nat, width as nat);
    proof {
        buffer.lemma_len_bound();
        lemma_le_bytes_value(value as nat, width as nat);
    }
    while i < width
        invariant
            at + width <= old(buffer)@.len(),
            buffer@.len() == old(buffer)@.len(),
            buffer@.len() <= usize::MAX,
            i <= width,
            target == le_bytes(value as nat, width as nat),
            target.len() == width,
            target.skip(i as int) == le_bytes(rest as nat, (width - i) as nat),
            forall|j: int| 0 <= j < i ==> buffer@[at + j] == target[j],
            forall|j: int|
                0 <= j < old(buffer)@.len() && !(at <= j < at + i) ==> buffer@[j]
                    == old(buffer)@[j],
            buffer.spec_addr() == old(buffer).spec_addr(),
            buffer.spec_alignment() == old(buffer).spec_alignment(),
        decreases width - i,
    {
        let byte: u8 = (rest % 256) as u8;
        proof {
            let tail = le_bytes(rest as nat, (width - i) as nat);
            assert(tail.first() == byte);
            assert(target[i as int] == target.skip(i as int)[0]);
            assert(target.skip(i + 1) =~= tail.drop_first());
            assert(tail.drop_first() =~= le_bytes((rest / 256) as nat, (width - i - 1) as nat));
        }
        buffer.write(at + i, byte);
        rest = rest / 256;
        i += 1;
    }
    assert(buffer@.subrange(at as int, at + width) =~= target);
}

/// Half the capacity of `width` bytes: the least bit pattern that stands
/// for a negative number.
pub open spec fn sign_threshold(width: nat) -> nat {
    capacity(width) / 2
}

/// The signed integer that a bit pattern of `width` bytes stands for in
/// two's complement.
pub open spec fn signed_value(bits: nat, width: nat) -> int {
    if bits >= sign_threshold(width) {
        bits - capacity(width)
    } else {
        bits as int
    }
}

/// The bit pattern of `width` bytes that stands for the integer `value` in
/// two's complement, as far as it fits: its remainder by the capacity.
pub open spec fn signed_bits(value: int, width: nat) -> nat {
    (value % (capacity(width) as int)) as nat
}

/// The capacity of a width from 1 to 8, as a number of 128 bits.
pub fn capacity_of(width: usize) -> (cap: u128)
    requires
        1 <= width <= 8,
    ensures
        cap == capacity(width as nat),
{
    proof {
        lemma_capacity_values();
    }
    match width {
        1 => 0x100,
        2 => 0x1_0000,
        3 => 0x100_0000,
        4 => 0x1_0000_0000,
        5 => 0x100_0000_0000,
        6 => 0x1_0000_0000_0000,
        7 => 0x100_0000_0000_0000,
        _ => 0x1_0000_0000_0000_0000,
    }
}

/// The signed integer that a bit pattern of `width` bytes stands for.
pub fn to_signed(bits: u64, width: usize) -> (value: i64)
    requires
        1 <= width <= 8,
        bits < capacity(width as nat),
    ensures
        value == signed_value(bits as nat, width as nat),
{
    proof {
        lemma_capacity_values();
    }
    let cap: u128 = capacity_of(width);
    if bits as u128 >= cap / 2 {
        (bits as i128 - cap as i128) as i64
    } else {
        bits as i64
    }
}

/// The bit pattern of `width` bytes for a signed integer, which is cut to
/// that width.
pub fn from_signed(value: i64, width: usize) -> (bits: u64)
    requires
        1 <= width <= 8,
    ensures
        bits == signed_bits(value as int, width as nat),
        bits < capacity(width as nat),
{
    proof {
        lemma_capacity_values();
    }
    let cap: u128 = capacity_of(width);
    let shifted: u128 = (value as i128 + 0x8000_0000_0000_0000) as u128;
    // `shifted` is `value + 2^63`, and 2^63 is a multiple of every capacity
    // but the largest, of which it is the half.
    let low: u128 = shifted % cap;
    let half: u128 = 0x8000_0000_0000_0000 % cap;
    let bits: u128 = if low >= half {
        low - half
    } else {
        low + cap - half
    };
    proof {
        let v = value as int;
        let c = cap as int;
        let h = 0x8000_0000_0000_0000int;
        let q1 = (v + h) / c;
        let q2 = h / c;
        lemma_fundamental_div_mod(v + h, c);
        lemma_fundamental_div_mod(h, c);
        lemma_mod_bound(v + h, c);
        lemma_mod_bound(h, c);
        let q = if low >= half {
            q1 - q2
        } else {
            q1 - q2 - 1
        };
        assert(q * c == c * q1 - c * q2 - (if low >= half {
            0
        } else {
            c
        })) by (nonlinear_arith)
            requires
                q == if low >= half {
                    q1 - q2
                } else {
                    q1 - q2 - 1
                },
        ;
        lemma_fundamental_div_mod_converse(v, c, q, bits as int);
    }
    bits as u64
}

} // verus!
