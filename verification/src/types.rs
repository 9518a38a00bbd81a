//! Element types and their layout.

use vstd::prelude::*;

verus! {

/// The kind of scalar that an array holds.
#[derive(Debug, Clone, Copy, PartialEq, Eq, Hash, Structural)]
pub enum NpyType {
    /// A truth value in one byte: zero is false, anything else is true.
    Bool,
    /// A signed integer of 8 bits.
    Byte,
    /// A signed integer of 16 bits.
    Short,
    /// A signed integer of 32 bits.
    Int,
    /// A signed integer of 64 bits.
    Long,
    /// An IEEE 754 number of 32 bits.
    Float,
    /// An IEEE 754 number of 64 bits.
    Double,
    /// One byte of text.
    String,
}

/// The number of bytes that one element of the given kind takes.
pub open spec fn itemsize_of(kind: NpyType) -> usize {
    match kind {
        NpyType::Bool => 1,
        NpyType::Byte => 1,
        NpyType::Short => 2,
        NpyType::Int => 4,
        NpyType::Long => 8,
        NpyType::Float => 4,
        NpyType::Double => 8,
        NpyType::String => 1,
    }
}

/// The alignment in bytes of an element of the given kind: its size.
pub open spec fn alignment_of(kind: NpyType) -> usize {
    itemsize_of(kind)
}

/// Whether the kind is a signed integer.
pub open spec fn is_integer(kind: NpyType) -> bool {
    kind == NpyType::Byte || kind == NpyType::Short || kind == NpyType::Int || kind
        == NpyType::Long
}

/// Whether the kind is an IEEE 754 number.
pub open spec fn is_float(kind: NpyType) -> bool {
    kind == NpyType::Float || kind == NpyType::Double
}

impl NpyType {
    /// Whether this kind is a signed integer.
    pub fn is_integer(&self) -> (yes: bool)
        ensures
            yes == is_integer(*self),
    {
        match self {
            NpyType::Byte | NpyType::Short | NpyType::Int | NpyType::Long => true,
            _ => false,
        }
    }

    /// Whether this kind is an IEEE 754 number.
    pub fn is_float(&self) -> (yes: bool)
        ensures
            yes == is_float(*self),
    {
        match self {
            NpyType::Float | NpyType::Double => true,
            _ => false,
        }
    }
}

/// Describes the elements of an array: their kind, their size in bytes and
/// their alignment. A descriptor never changes once it is made.
#[derive(Debug, Clone, Copy, PartialEq, Eq, Structural)]
pub struct DType {
    type_: NpyType,
    itemsize: usize,
    align: usize,
}

impl DType {
    #[verifier::type_invariant]
    spec fn well_formed(self) -> bool {
        &&& self.itemsize == itemsize_of(self.type_)
        &&& self.align == alignment_of(self.type_)
    }

    /// The kind of element described.
    pub closed spec fn kind(self) -> NpyType {
        self.type_
    }

    /// The descriptor of the given kind of element.
    pub fn new(kind: NpyType) -> (dtype: DType)
        ensures
            dtype.kind() == kind,
    {
        let size: usize = match kind {
            NpyType::Bool => 1,
            NpyType::Byte => 1,
            NpyType::Short => 2,
            NpyType::Int => 4,
            NpyType::Long => 8,
            NpyType::Float => 4,
            NpyType::Double => 8,
            NpyType::String => 1,
        };
        DType { type_: kind, itemsize: size, align: size }
    }

    /// The kind of element described.
    pub fn type_(&self) -> (kind: NpyType)
        ensures
            kind == self.kind(),
    {
        self.type_
    }

    /// The size of one element in bytes: never zero, and at most 8.
    pub fn itemsize(&self) -> (size: usize)
        ensures
            size == itemsize_of(self.kind()),
            1 <= size <= 8,
    {
        proof {
            use_type_invariant(self);
        }
        self.itemsize
    }

    /// The alignment of one element in bytes, a power of two.
    pub fn align(&self) -> (align: usize)
        ensures
            align == alignment_of(self.kind()),
    {
        proof {
            use_type_invariant(self);
        }
        self.align
    }
}

} // verus!
