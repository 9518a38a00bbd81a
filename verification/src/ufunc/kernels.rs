//! Scalar kernels: what an operation does to the bit patterns of single
//! elements, for each kind of element that it works on.

use crate::scalar::{capacity, capacity_of, lemma_capacity_values, signed_value, to_signed};
use crate::types::{is_integer, itemsize_of, NpyType};
use vstd::arithmetic::div_mod::lemma_mod_add_multiples_vanish;
use vstd::prelude::*;

verus! {

/// The comparisons.
#[derive(Debug, Clone, Copy, PartialEq, Eq, Structural)]
pub enum Comparison {
    /// `a == b`
    Equal,
    /// `a != b`
    NotEqual,
    /// `a < b`
    Less,
    /// `a > b`
    Greater,
    /// `a <= b`
    LessEqual,
    /// `a >= b`
    GreaterEqual,
}

/// The arithmetic operations that are defined on integers.
#[derive(Debug, Clone, Copy, PartialEq, Eq, Structural)]
pub enum Arithmetic {
    /// `a + b`
    Add,
    /// `a - b`
    Subtract,
    /// `a * b`
    Multiply,
}

/// Whether a bit pattern is not a number: an IEEE 754 number with all
/// exponent bits set and a fraction other than zero. Only the two
/// floating-point kinds have such patterns.
pub open spec fn is_nan(kind: NpyType, bits: u64) -> bool {
    match kind {
        NpyType::Float => bits % 0x8000_0000 > 0x7F80_0000,
        NpyType::Double => bits % 0x8000_0000_0000_0000 > 0x7FF0_0000_0000_0000,
        _ => false,
    }
}

/// Where a bit pattern stands in the order of its kind. Two patterns that
/// are numbers compare as their keys do.
///
/// A truth value has key 0 or 1, a signed integer its value, a byte of text
/// its code. An IEEE 754 number is a sign and a magnitude: its key is the
/// magnitude, negated where the sign bit is set, so that both zeros have
/// key 0.
pub open spec fn order_key(kind: NpyType, bits: u64) -> int {
    match kind {
        NpyType::Bool => if bits != 0 {
            1
        } else {
            0
        },
        NpyType::Float => if bits >= 0x8000_0000 {
            -(bits - 0x8000_0000)
        } else {
            bits as int
        },
        NpyType::Double => if bits >= 0x8000_0000_0000_0000 {
            -(bits - 0x8000_0000_0000_0000)
        } else {
            bits as int
        },
        NpyType::String => bits as int,
        _ => signed_value(bits as nat, itemsize_of(kind) as nat),
    }
}

/// Whether two bit patterns of a kind stand for equal values. Nothing
/// equals what is not a number.
pub open spec fn scalar_equal(kind: NpyType, a: u64, b: u64) -> bool {
    !is_nan(kind, a) && !is_nan(kind, b) && order_key(kind, a) == order_key(kind, b)
}

/// Whether the value of `a` is less than that of `b`. Nothing is less
/// than, or has less than it, what is not a number.
pub open spec fn scalar_less(kind: NpyType, a: u64, b: u64) -> bool {
    !is_nan(kind, a) && !is_nan(kind, b) && order_key(kind, a) < order_key(kind, b)
}

/// The outcome of a comparison on two bit patterns of a kind. All six
/// derive from equality and less-than: not equal is the negation of equal,
/// greater is less with the operands exchanged, less-or-equal is the
/// negation of greater, greater-or-equal that of less.
pub open spec fn compare_spec(op: Comparison, kind: NpyType, a: u64, b: u64) -> bool {
    match op {
        Comparison::Equal => scalar_equal(kind, a, b),
        Comparison::NotEqual => !scalar_equal(kind, a, b),
        Comparison::Less => scalar_less(kind, a, b),
        Comparison::Greater => scalar_less(kind, b, a),
        Comparison::LessEqual => !scalar_less(kind, b, a),
        Comparison::GreaterEqual => !scalar_less(kind, a, b),
    }
}

/// The bit pattern of a truth value.
pub open spec fn truth_bits(truth: bool) -> u64 {
    if truth {
        1
    } else {
        0
    }
}

/// Whether a bit pattern is not a number.
pub fn is_nan_bits(kind: NpyType, bits: u64) -> (nan: bool)
    ensures
        nan == is_nan(kind, bits),
{
    match kind {
        NpyType::Float => bits % 0x8000_0000 > 0x7F80_0000,
        NpyType::Double => bits % 0x8000_0000_0000_0000 > 0x7FF0_0000_0000_0000,
        _ => false,
    }
}

/// Where a bit pattern stands in the order of its kind.
pub fn order_key_of(kind: NpyType, bits: u64) -> (key: i128)
    requires
        bits < capacity(itemsize_of(kind) as nat),
    ensures
        key == order_key(kind, bits),
{
    match kind {
        NpyType::Bool => if bits != 0 {
            1
        } else {
            0
        },
        NpyType::Float => if bits >= 0x8000_0000 {
            -(bits as i128 - 0x8000_0000)
        } else {
            bits as i128
        },
        NpyType::Double => if bits >= 0x8000_0000_0000_0000 {
            -(bits as i128 - 0x8000_0000_0000_0000)
        } else {
            bits as i128
        },
        NpyType::String => bits as i128,
        NpyType::Byte => to_signed(bits, 1) as i128,
        NpyType::Short => to_signed(bits, 2) as i128,
        NpyType::Int => to_signed(bits, 4) as i128,
        NpyType::Long => to_signed(bits, 8) as i128,
    }
}

/// Compares two bit patterns of a kind.
pub fn compare_bits(op: Comparison, kind: NpyType, a: u64, b: u64) -> (truth: bool)
    requires
        a < capacity(itemsize_of(kind) as nat),
        b < capacity(itemsize_of(kind) as nat),
    ensures
        truth == compare_spec(op, kind, a, b),
{
    let numbers: bool = !is_nan_bits(kind, a) && !is_nan_bits(kind, b);
    let key_a: i128 = order_key_of(kind, a);
    let key_b: i128 = order_key_of(kind, b);
    match op {
        Comparison::Equal => numbers && key_a == key_b,
        Comparison::NotEqual => !(numbers && key_a == key_b),
        Comparison::Less => numbers && key_a < key_b,
        Comparison::Greater => numbers && key_b < key_a,
        Comparison::LessEqual => !(numbers && key_b < key_a),
        Comparison::GreaterEqual => !(numbers && key_a < key_b),
    }
}

/// The bit pattern that an arithmetic operation gives for two signed
/// integers of a kind: that of the exact result, cut to the width of the
/// kind as two's complement arithmetic does.
pub open spec fn arithmetic_spec(op: Arithmetic, kind: NpyType, a: u64, b: u64) -> u64 {
    let cap = capacity(itemsize_of(kind) as nat) as int;
    match op {
        Arithmetic::Add => ((a + b) % cap) as u64,
        Arithmetic::Subtract => ((a - b) % cap) as u64,
        Arithmetic::Multiply => ((a * b) % cap) as u64,
    }
}

/// Adds, subtracts or multiplies two signed integers of a kind, given and
/// returned as bit patterns, wrapping at the width of the kind.
pub fn arithmetic_bits(op: Arithmetic, kind: NpyType, a: u64, b: u64) -> (bits: u64)
    requires
        is_integer(kind),
        a < capacity(itemsize_of(kind) as nat),
        b < capacity(itemsize_of(kind) as nat),
    ensures
        bits == arithmetic_spec(op, kind, a, b),
        bits < capacity(itemsize_of(kind) as nat),
{
    let width: usize = match kind {
        NpyType::Byte => 1,
        NpyType::Short => 2,
        NpyType::Int => 4,
        _ => 8,
    };
    let cap: u128 = capacity_of(width);
    proof {
        lemma_capacity_values();
    }
    match op {
        Arithmetic::Add => ((a as u128 + b as u128) % cap) as u64,
        Arithmetic::Subtract => {
            proof {
                lemma_mod_add_multiples_vanish(a - b, cap as int);
            }
            ((a as u128 + cap - b as u128) % cap) as u64
        },
        Arithmetic::Multiply => {
            assert(a * b <= 0xFFFF_FFFF_FFFF_FFFF * 0xFFFF_FFFF_FFFF_FFFF) by (nonlinear_arith)
                requires
                    0 <= a <= 0xFFFF_FFFF_FFFF_FFFF,
                    0 <= b <= 0xFFFF_FFFF_FFFF_FFFF,
            ;
            ((a as u128 * b as u128) % cap) as u64
        },
    }
}

/// The sum of two integers wraps as the integers themselves do: the bit
/// pattern of a sum stands for the sum of the two values, up to a multiple
/// of the capacity.
pub proof fn lemma_add_wraps(kind: NpyType, a: u64, b: u64)
    requires
        is_integer(kind),
        a < capacity(itemsize_of(kind) as nat),
        b < capacity(itemsize_of(kind) as nat),
    ensures
        (signed_value(arithmetic_spec(Arithmetic::Add, kind, a, b) as nat, itemsize_of(kind) as nat)
            - (signed_value(a as nat, itemsize_of(kind) as nat) + signed_value(
            b as nat,
            itemsize_of(kind) as nat,
        ))) % (capacity(itemsize_of(kind) as nat) as int) == 0,
{
    lemma_capacity_values();
    let cap = capacity(itemsize_of(kind) as nat) as int;
    let sum = (a + b) % cap;
    let q = (a + b) / cap;
    vstd::arithmetic::div_mod::lemma_fundamental_div_mod(a + b, cap);
    let sa = signed_value(a as nat, itemsize_of(kind) as nat);
    let sb = signed_value(b as nat, itemsize_of(kind) as nat);
    let ss = signed_value(sum as nat, itemsize_of(kind) as nat);
    // Each signed value differs from its pattern by 0 or the capacity.
    let m = (ss - sum) / cap - (sa - a) / cap - (sb - b) / cap - q;
    assert(ss - (sa + sb) == cap * m) by (nonlinear_arith)
        requires
            cap > 0,
            ss == sum || ss == sum - cap,
            sa == a || sa == a - cap,
            sb == b || sb == b - cap,
            a + b == cap * q + sum,
            m == (ss - sum) / cap - (sa - a) / cap - (sb - b) / cap - q,
    ;
    vstd::arithmetic::div_mod::lemma_mod_multiples_basic(m, cap);
    assert(cap * m == m * cap) by (nonlinear_arith);
}

} // verus!
