//! The array: a shape, strides and an element type over a buffer of bytes.
//!
//! An array owns its buffer. Its elements are numbered in row-major order;
//! element number `k` lies at the array's offset plus the sum of its
//! coordinates times the strides. Each element is at most 8 bytes wide and
//! is read and written as a bit pattern, a number below the capacity of the
//! element's width.

use crate::axes::lemma_transposed_layout;
use crate::layout::{
    all_nonnegative,
    flat_index,
    lemma_flat_index,
    lemma_packed_layout,
    lemma_positive_iff_nonempty,
    lemma_squeezed_layout,
    lemma_strided_offset_bounds,
    lemma_unit_axis,
    max_extent,
    min_extent,
    offset_of,
    squeezed_strides,
    strided_offset,
    valid_index,
};
use crate::memory::{AlignedBuffer, allocate_aligned};
use crate::scalar::{
    capacity,
    le_bytes,
    le_value,
    lemma_capacity_values,
    lemma_le_bytes_value,
    lemma_le_value_bound,
    read_le,
    write_le,
};
use crate::shape::{
    axes_view,
    c_stride,
    copy_shape,
    is_permutation,
    lemma_c_stride_step,
    permuted_shape,
    resolve_reshape_shape,
    resolve_reshape_spec,
    shape_product,
    ShapeError,
    squeeze_spec,
    squeezed_shape,
    transpose_axes,
    transpose_dimensions,
};
use crate::types::{alignment_of, DType, itemsize_of, NpyType};
use vstd::prelude::*;

verus! {

/// Why an operation on arrays was refused.
#[derive(Debug, Clone, Copy, PartialEq, Eq, Structural)]
pub enum ArrayError {
    /// A shape is malformed, or two shapes cannot be brought together.
    InvalidShape,
    /// The total element counts of two shapes differ.
    SizeMismatch,
    /// An axis is out of range or occurs twice.
    InvalidDimension,
    /// Two arrays that must have the same shape do not.
    ShapeMismatch,
    /// The element type is not one that the operation works on.
    TypeMismatch,
    /// An index is out of range, or has the wrong number of components.
    IndexError,
    /// The array is too large to be held in memory.
    OutOfMemory,
}

impl ArrayError {
    /// The text of this error as a sequence of characters.
    pub open spec fn spec_message(self) -> Seq<char> {
        match self {
            ArrayError::InvalidShape => "Invalid shape"@,
            ArrayError::SizeMismatch => "Size mismatch"@,
            ArrayError::InvalidDimension => "Invalid dimension"@,
            ArrayError::ShapeMismatch => "Shape mismatch"@,
            ArrayError::TypeMismatch => "Type mismatch"@,
            ArrayError::IndexError => "Index out of bounds"@,
            ArrayError::OutOfMemory => "Out of memory"@,
        }
    }

    /// A short human-readable description of the error.
    pub fn message(&self) -> (text: String)
        ensures
            text@ == self.spec_message(),
    {
        match self {
            ArrayError::InvalidShape => "Invalid shape".to_owned(),
            ArrayError::SizeMismatch => "Size mismatch".to_owned(),
            ArrayError::InvalidDimension => "Invalid dimension".to_owned(),
            ArrayError::ShapeMismatch => "Shape mismatch".to_owned(),
            ArrayError::TypeMismatch => "Type mismatch".to_owned(),
            ArrayError::IndexError => "Index out of bounds".to_owned(),
            ArrayError::OutOfMemory => "Out of memory".to_owned(),
        }
    }
}

/// What an array is, apart from where its bytes lie: its shape, the kind of
/// its elements, and the bit patterns of its elements in row-major order.
#[verifier::ext_equal]
pub struct ArrayView {
    /// The size of each dimension.
    pub shape: Seq<i64>,
    /// The kind of element.
    pub dtype: NpyType,
    /// The bit pattern of each element, in row-major order.
    pub elements: Seq<u64>,
}

impl ArrayView {
    /// The number of elements that the shape calls for.
    pub open spec fn size(self) -> int {
        shape_product(self.shape)
    }

    /// The width of one element in bytes.
    pub open spec fn itemsize(self) -> nat {
        itemsize_of(self.dtype) as nat
    }

    /// Whether the view is one of an array: no dimension is negative, there
    /// are as many elements as the shape calls for, and each bit pattern
    /// fits the width of the element kind.
    pub open spec fn wf(self) -> bool {
        &&& all_nonnegative(self.shape)
        &&& self.elements.len() == self.size()
        &&& forall|k: int|
            0 <= k < self.elements.len() ==> self.elements[k] < capacity(self.itemsize())
    }
}

/// An array of the given shape and kind whose elements all have the bit
/// pattern `bits`.
pub open spec fn filled_view(shape: Seq<i64>, dtype: NpyType, bits: u64) -> ArrayView {
    ArrayView {
        shape,
        dtype,
        elements: Seq::new(shape_product(shape) as nat, |k: int| bits),
    }
}

/// The bit pattern of the number one in the given kind of element.
pub open spec fn one_bits(dtype: NpyType) -> u64 {
    match dtype {
        NpyType::Float => 0x3F80_0000,
        NpyType::Double => 0x3FF0_0000_0000_0000,
        _ => 1,
    }
}

/// Whether an array of this shape and element kind can be laid out packed
/// and allocated: every row-major stride fits in 64 bits, and the bytes
/// together with the alignment do not exceed what an allocation may hold.
pub open spec fn can_allocate(shape: Seq<i64>, dtype: NpyType) -> bool {
    &&& forall|axis: int|
        -1 <= axis < shape.len() ==> #[trigger] c_stride(shape, itemsize_of(dtype) as int, axis)
            <= i64::MAX
    &&& shape_product(shape) * itemsize_of(dtype) + alignment_of(dtype) <= isize::MAX
}

/// An n-dimensional array of elements of one kind.
#[derive(Debug)]
pub struct Array {
    /// The size of each dimension.
    shape: Vec<i64>,
    /// The step in bytes along each dimension.
    strides: Vec<i64>,
    /// The element type.
    dtype: DType,
    /// The bytes that hold the elements.
    buffer: AlignedBuffer,
    /// Where in the buffer the first element lies.
    offset: usize,
    /// The number of elements.
    size: usize,
    /// Whether the strides are the row-major strides of the shape.
    packed: bool,
}

/// Row-major strides for a shape without negative dimensions, and the
/// number of bytes that the whole takes, where every stride and that
/// number fit in 64 bits.
fn packed_layout(shape: &[i64], itemsize: usize) -> (layout: Option<(Vec<i64>, u64)>)
    requires
        all_nonnegative(shape@),
        1 <= itemsize <= 8,
    ensures
        match layout {
            Some((strides, bytes)) => {
                &&& strides.len() == shape.len()
                &&& forall|axis: int|
                    0 <= axis < shape.len() ==> strides[axis] == c_stride(
                        shape@,
                        itemsize as int,
                        axis,
                    )
                &&& forall|axis: int|
                    -1 <= axis < shape.len() ==> 0 <= #[trigger] c_stride(
                        shape@,
                        itemsize as int,
                        axis,
                    ) <= i64::MAX
                &&& bytes == shape_product(shape@) * itemsize
            },
            None => exists|axis: int|
                -1 <= axis < shape.len() && #[trigger] c_stride(shape@, itemsize as int, axis)
                    > i64::MAX,
        },
{
    let n: usize = shape.len();
    let mut strides: Vec<i64> = vec![0; n];
    let mut current: u64 = itemsize as u64;
    let mut i: usize = n;
    proof {
        assert(shape@.skip(n as int) =~= Seq::<i64>::empty());
        assert(c_stride(shape@, itemsize as int, n - 1) == itemsize * 1);
    }
    while i > 0
        invariant
            n == shape.len(),
            strides.len() == n,
            i <= n,
            all_nonnegative(shape@),
            current == c_stride(shape@, itemsize as int, i - 1),
            0 <= current <= i64::MAX,
            forall|axis: int|
                i <= axis < n ==> strides[axis] == c_stride(shape@, itemsize as int, axis),
            forall|axis: int|
                i - 1 <= axis < n ==> 0 <= #[trigger] c_stride(shape@, itemsize as int, axis)
                    <= i64::MAX,
        decreases i,
    {
        i -= 1;
        strides.set(i, current as i64);
        let d: u64 = shape[i] as u64;
        proof {
            lemma_c_stride_step(shape@, itemsize as int, i - 1);
            assert(0 <= current * d <= 0x8000_0000_0000_0000 * 0x8000_0000_0000_0000)
                by (nonlinear_arith)
                requires
                    0 <= current < 0x8000_0000_0000_0000,
                    0 <= d < 0x8000_0000_0000_0000,
            ;
        }
        let next: u128 = current as u128 * d as u128;
        if next > 0x7FFF_FFFF_FFFF_FFFF {
            return None;
        }
        current = next as u64;
    }
    proof {
        assert(shape@.skip(0) =~= shape@);
        assert(itemsize * shape_product(shape@) == shape_product(shape@) * itemsize)
            by (nonlinear_arith);
    }
    Some((strides, current))
}

/// Whether a layout is packed: the strides are the row-major strides of
/// the shape, and the whole takes no more bytes than can be allocated.
pub open spec fn is_packed_layout(shape: Seq<i64>, strides: Seq<i64>, dtype: NpyType) -> bool {
    &&& shape.len() == strides.len()
    &&& forall|axis: int|
        0 <= axis < shape.len() ==> strides[axis] == c_stride(
            shape,
            itemsize_of(dtype) as int,
            axis,
        )
    &&& shape_product(shape) * itemsize_of(dtype) + alignment_of(dtype) <= isize::MAX
}

/// Whether a layout is packed.
fn detect_packed(shape: &[i64], strides: &[i64], dtype: &DType) -> (packed: bool)
    requires
        all_nonnegative(shape@),
        shape.len() == strides.len(),
    ensures
        packed == is_packed_layout(shape@, strides@, dtype.kind()),
{
    let itemsize: usize = dtype.itemsize();
    let align: usize = dtype.align();
    proof {
        assert(c_stride(shape@, itemsize as int, -1) == itemsize * shape_product(shape@)) by {
            assert(shape@.skip(0) =~= shape@);
        }
        assert(itemsize * shape_product(shape@) == shape_product(shape@) * itemsize)
            by (nonlinear_arith);
        lemma_positive_iff_nonempty(shape@);
    }
    match packed_layout(shape, itemsize) {
        Some((packed_strides, bytes)) => {
            let same: bool = crate::shape::same_shape(packed_strides.as_slice(), strides);
            proof {
                if is_packed_layout(shape@, strides@, dtype.kind()) {
                    assert(packed_strides@ =~= strides@);
                }
                if same {
                    assert forall|axis: int| 0 <= axis < shape.len() implies strides[axis]
                        == c_stride(shape@, itemsize as int, axis) by {
                        assert(strides[axis] == packed_strides[axis]);
                    }
                }
            }
            same && bytes <= (isize::MAX as u64) - (align as u64)
        },
        None => {
            proof {
                let axis = choose|axis: int|
                    -1 <= axis < shape.len() && #[trigger] c_stride(shape@, itemsize as int, axis)
                        > i64::MAX;
                if is_packed_layout(shape@, strides@, dtype.kind()) {
                    if axis >= 0 {
                        assert(strides[axis] == c_stride(shape@, itemsize as int, axis));
                    }
                }
            }
            false
        },
    }
}

/// The bytes of an all-zero run spell zero.
proof fn lemma_zero_bytes(bytes: Seq<u8>)
    requires
        forall|i: int| 0 <= i < bytes.len() ==> bytes[i] == 0,
    ensures
        le_value(bytes) == 0,
    decreases bytes.len(),
{
    if bytes.len() > 0 {
        lemma_zero_bytes(bytes.drop_first());
    }
}

impl View for Array {
    type V = ArrayView;

    closed spec fn view(&self) -> ArrayView {
        ArrayView {
            shape: self.shape@,
            dtype: self.dtype.kind(),
            elements: Seq::new(
                self.size as nat,
                |k: int| self.bits_at(self.offset + strided_offset(k, self.shape@, self.strides@)),
            ),
        }
    }
}

impl Array {
    #[verifier::type_invariant]
    spec fn well_formed(self) -> bool {
        &&& self.shape.len() == self.strides.len()
        &&& all_nonnegative(self.shape@)
        &&& self.size == shape_product(self.shape@)
        &&& self.packed == is_packed_layout(self.shape@, self.strides@, self.dtype.kind())
        &&& self.size > 0 ==> {
            &&& 0 <= self.offset + min_extent(self.shape@, self.strides@)
            &&& self.offset + max_extent(self.shape@, self.strides@) + itemsize_of(
                self.dtype.kind(),
            ) <= self.buffer@.len()
        }
    }

    /// The step in bytes along each dimension.
    pub closed spec fn spec_strides(&self) -> Seq<i64> {
        self.strides@
    }

    /// Where in the buffer the first element lies.
    pub closed spec fn spec_offset(&self) -> int {
        self.offset as int
    }

    /// Whether the strides are the row-major strides of the shape, so that
    /// the elements lie one after the other without gaps.
    pub closed spec fn is_packed(&self) -> bool {
        self.packed && is_packed_layout(self.shape@, self.strides@, self.dtype.kind())
    }

    /// An array is packed exactly when its layout is, where the array is
    /// marked as its layout is.
    pub proof fn lemma_packed_is_layout(&self)
        requires
            self.is_packed(),
        ensures
            is_packed_layout(self@.shape, self.spec_strides(), self@.dtype),
    {
    }

    /// Whether the buffer can be looked at as an array of the given shape
    /// and strides, from the place of the first element on: there is one
    /// stride for each dimension, no dimension is negative, the number of
    /// elements fits in 63 bits and in a machine word, and every element
    /// lies in the buffer.
    pub open spec fn can_view(&self, shape: Seq<i64>, strides: Seq<i64>) -> bool {
        &&& shape.len() == strides.len()
        &&& all_nonnegative(shape)
        &&& shape_product(shape) <= i64::MAX
        &&& shape_product(shape) <= usize::MAX
        &&& shape_product(shape) > 0 ==> self.holds(
            self.spec_offset() + min_extent(shape, strides),
        ) && self.holds(self.spec_offset() + max_extent(shape, strides))
    }

    /// In a packed array, element number `k` lies `k` items from the first.
    pub proof fn lemma_packed_element(&self, k: int)
        requires
            self.is_packed(),
            self@.wf(),
            0 <= k < self@.elements.len(),
        ensures
            self@.elements[k] == self.bits_at(self.spec_offset() + k * self@.itemsize()),
    {
        lemma_positive_iff_nonempty(self.shape@);
        lemma_packed_layout(k, self.shape@, self.strides@, itemsize_of(self.dtype.kind()) as int);
    }

    /// The bytes of the buffer.
    pub closed spec fn spec_bytes(&self) -> Seq<u8> {
        self.buffer@
    }

    /// What the buffer holds at a place is what its bytes there spell, and
    /// it holds an element wherever it has the bytes of one.
    pub proof fn lemma_bytes(&self, at: int)
        ensures
            self.holds(at) == (0 <= at && at + self@.itemsize() <= self.spec_bytes().len()),
            self.bits_at(at) == le_value(self.spec_bytes().subrange(at, at + self@.itemsize()))
                as u64,
    {
    }

    /// The place in the buffer of element number `k`.
    pub open spec fn place(&self, k: int) -> int {
        self.spec_offset() + strided_offset(k, self@.shape, self.spec_strides())
    }

    /// Whether the buffer holds an element at byte `at`.
    pub closed spec fn holds(&self, at: int) -> bool {
        0 <= at && at + itemsize_of(self.dtype.kind()) <= self.buffer@.len()
    }

    /// The bit pattern of the element at byte `at` of the buffer.
    pub closed spec fn bits_at(&self, at: int) -> u64 {
        le_value(self.buffer@.subrange(at, at + itemsize_of(self.dtype.kind()))) as u64
    }

    /// Element number `k` is what the buffer holds at the array's offset
    /// plus the offset of the element.
    pub proof fn lemma_element(&self, k: int)
        requires
            0 <= k < self@.elements.len(),
        ensures
            self@.elements[k] == self.bits_at(
                self.spec_offset() + strided_offset(k, self@.shape, self.spec_strides()),
            ),
    {
    }

    /// The buffer holds elements everywhere between two places where it
    /// holds one.
    pub proof fn lemma_holds_between(&self, low: int, high: int, at: int)
        requires
            self.holds(low),
            self.holds(high),
            low <= at <= high,
        ensures
            self.holds(at),
    {
    }

    /// A new array of the given shape and element type, with every element
    /// zero, laid out packed in row-major order.
    ///
    /// A negative dimension is an invalid shape. A shape that cannot be
    /// laid out or allocated is refused as out of memory.
    pub fn new(shape: Vec<i64>, dtype: DType) -> (result: Result<Array, ArrayError>)
        ensures
            match result {
                Ok(array) => {
                    &&& all_nonnegative(shape@)
                    &&& can_allocate(shape@, dtype.kind())
                    &&& array@ == filled_view(shape@, dtype.kind(), 0)
                    &&& array@.wf()
                    &&& array.is_packed()
                },
                Err(e) => {
                    ||| e == ArrayError::InvalidShape && !all_nonnegative(shape@)
                    ||| e == ArrayError::OutOfMemory && all_nonnegative(shape@) && !can_allocate(
                        shape@,
                        dtype.kind(),
                    )
                },
            },
    {
        let n: usize = shape.len();
        let mut i: usize = 0;
        while i < n
            invariant
                n == shape.len(),
                i <= n,
                forall|j: int| 0 <= j < i ==> shape[j] >= 0,
            decreases n - i,
        {
            if shape[i] < 0 {
                return Err(ArrayError::InvalidShape);
            }
            i += 1;
        }
        let itemsize: usize = dtype.itemsize();
        let align: usize = dtype.align();
        let ghost kind = dtype.kind();
        match packed_layout(shape.as_slice(), itemsize) {
            None => Err(ArrayError::OutOfMemory),
            Some((strides, bytes)) => {
                assert(c_stride(shape@, itemsize as int, -1) == itemsize * shape_product(shape@))
                    by {
                    assert(shape@.skip(0) =~= shape@);
                }
                if bytes > (isize::MAX as u64) - (align as u64) {
                    return Err(ArrayError::OutOfMemory);
                }
                proof {
                    lemma_alignment_is_power_of_two(kind);
                    lemma_positive_iff_nonempty(shape@);
                    assert(shape_product(shape@) <= bytes) by (nonlinear_arith)
                        requires
                            bytes == shape_product(shape@) * itemsize,
                            itemsize >= 1,
                            shape_product(shape@) >= 0,
                    ;
                }
                let size: usize = (bytes / (itemsize as u64)) as usize;
                proof {
                    assert(bytes / (itemsize as u64) == shape_product(shape@)) by (nonlinear_arith)
                        requires
                            bytes == shape_product(shape@) * itemsize,
                            itemsize >= 1,
                    ;
                }
                let buffer = allocate_aligned(bytes as usize, align);
                proof {
                    if size > 0 {
                        lemma_packed_layout(0, shape@, strides@, itemsize as int);
                        assert((size - 1) * itemsize + itemsize == size * itemsize)
                            by (nonlinear_arith);
                    }
                }
                let array = Array { shape, strides, dtype, buffer, offset: 0, size, packed: true };
                proof {
                    assert forall|k: int| 0 <= k < size implies #[trigger] array@.elements[k]
                        == 0 by {
                        let at = strided_offset(k, array.shape@, array.strides@);
                        lemma_packed_layout(k, array.shape@, array.strides@, itemsize as int);
                        assert(at + itemsize <= bytes) by (nonlinear_arith)
                            requires
                                at == k * itemsize,
                                0 <= k < size,
                                bytes == size * itemsize,
                        ;
                        assert(at >= 0) by (nonlinear_arith)
                            requires
                                at == k * itemsize,
                                0 <= k,
                        ;
                        lemma_zero_bytes(array.buffer@.subrange(at, at + itemsize));
                    }
                    assert(array@.elements =~= filled_view(array.shape@, kind, 0).elements);
                    lemma_capacity_values();
                    crate::scalar::lemma_capacity_monotone(0, itemsize as nat);
                }
                Ok(array)
            },
        }
    }

    /// A new array of the given shape and element type in which every
    /// element has the low bytes of `bits`, as many as an element is wide.
    pub fn filled(shape: Vec<i64>, dtype: DType, bits: u64) -> (result: Result<Array, ArrayError>)
        ensures
            match result {
                Ok(array) => {
                    &&& all_nonnegative(shape@)
                    &&& can_allocate(shape@, dtype.kind())
                    &&& array@ == filled_view(
                        shape@,
                        dtype.kind(),
                        ((bits as nat) % capacity(itemsize_of(dtype.kind()) as nat)) as u64,
                    )
                    &&& array@.wf()
                    &&& array.is_packed()
                },
                Err(e) => {
                    ||| e == ArrayError::InvalidShape && !all_nonnegative(shape@)
                    ||| e == ArrayError::OutOfMemory && all_nonnegative(shape@) && !can_allocate(
                        shape@,
                        dtype.kind(),
                    )
                },
            },
    {
        let ghost wanted = shape@;
        let mut array: Array = match Array::new(shape, dtype) {
            Ok(array) => array,
            Err(e) => {
                return Err(e);
            },
        };
        let size: usize = array.size();
        let mut k: usize = 0;
        proof {
            lemma_capacity_values();
        }
        while k < size
            invariant
                k <= size,
                size == array@.elements.len(),
                size == shape_product(wanted),
                array@.shape == wanted,
                array@.dtype == dtype.kind(),
                array.is_packed(),
                array@.wf(),
                forall|j: int|
                    0 <= j < k ==> #[trigger] array@.elements[j] == (bits as nat) % capacity(
                        itemsize_of(dtype.kind()) as nat,
                    ),
            decreases size - k,
        {
            let ghost before = array@.elements;
            array.put(k, bits);
            proof {
                assert forall|j: int| 0 <= j < k + 1 implies #[trigger] array@.elements[j] == (
                bits as nat) % capacity(itemsize_of(dtype.kind()) as nat) by {
                    if j < k {
                        assert(array@.elements[j] == before[j]);
                    }
                }
            }
            k += 1;
        }
        proof {
            let stored = ((bits as nat) % capacity(itemsize_of(dtype.kind()) as nat)) as u64;
            assert(array@.elements =~= filled_view(wanted, dtype.kind(), stored).elements);
        }
        Ok(array)
    }

    /// Gives a packed array another shape, without moving its elements.
    ///
    /// `new_shape` may hold -1 once, for a dimension to be inferred from
    /// the number of elements. The array is taken over: the result owns its
    /// buffer. An array that is not packed cannot be reshaped in place and
    /// is refused as an invalid shape.
    pub fn reshape(self, new_shape: &[i64]) -> (result: Result<Array, ArrayError>)
        ensures
            match result {
                Ok(array) => {
                    &&& self.is_packed()
                    &&& reshape_spec(self@, new_shape@) == Ok::<ArrayView, ArrayError>(array@)
                    &&& array@.wf()
                    &&& array.is_packed()
                },
                Err(e) => {
                    ||| e == ArrayError::InvalidShape && !self.is_packed()
                    ||| self.is_packed() && reshape_spec(self@, new_shape@) == Err::<
                        ArrayView,
                        ArrayError,
                    >(e)
                },
            },
    {
        proof {
            use_type_invariant(&self);
            self.lemma_view_wf();
        }
        if !self.packed {
            return Err(ArrayError::InvalidShape);
        }
        let itemsize: usize = self.dtype.itemsize();
        let ghost old_view = self@;
        let ghost old_strides = self.strides@;
        proof {
            lemma_positive_iff_nonempty(self.shape@);
            assert(self.size <= self.size * itemsize) by (nonlinear_arith)
                requires
                    itemsize >= 1,
            ;
        }
        let resolved: Vec<i64> = match resolve_reshape_shape(self.shape.as_slice(), new_shape) {
            Ok(shape) => shape,
            Err(ShapeError::SizeMismatch) => {
                return Err(ArrayError::SizeMismatch);
            },
            Err(_) => {
                return Err(ArrayError::InvalidShape);
            },
        };
        let n: usize = resolved.len();
        let mut i: usize = 0;
        while i < n
            invariant
                n == resolved.len(),
                i <= n,
                self.packed,
                resolve_reshape_spec(self@.shape, new_shape@) == Ok::<Seq<i64>, ShapeError>(
                    resolved@,
                ),
                forall|j: int| 0 <= j < i ==> resolved[j] >= 0,
            decreases n - i,
        {
            if resolved[i] < 0 {
                return Err(ArrayError::InvalidShape);
            }
            i += 1;
        }
        proof {
            crate::shape::lemma_reshape_preserves_size(self.shape@, new_shape@);
        }
        let strides: Vec<i64> = match packed_layout(resolved.as_slice(), itemsize) {
            Some((strides, _)) => strides,
            None => {
                return Err(ArrayError::OutOfMemory);
            },
        };
        let Array { shape: _, strides: _, dtype, buffer, offset, size, packed: _ } = self;
        proof {
            assert(c_stride(resolved@, itemsize as int, -1) == itemsize * shape_product(resolved@))
                by {
                assert(resolved@.skip(0) =~= resolved@);
            }
            assert(itemsize * size == size * itemsize) by (nonlinear_arith);
            lemma_positive_iff_nonempty(resolved@);
            if size > 0 {
                lemma_packed_layout(0, resolved@, strides@, itemsize as int);
                lemma_packed_layout(0, old_view.shape, old_strides, itemsize as int);
            }
        }
        let array = Array { shape: resolved, strides, dtype, buffer, offset, size, packed: true };
        proof {
            assert forall|k: int| 0 <= k < size implies #[trigger] array@.elements[k]
                == old_view.elements[k] by {
                lemma_packed_layout(k, array.shape@, array.strides@, itemsize as int);
                lemma_packed_layout(k, old_view.shape, old_strides, itemsize as int);
            }
            assert(array@.elements =~= old_view.elements);
            array.lemma_view_wf();
        }
        Ok(array)
    }

    /// Looks at the buffer of this array as an array of another shape and
    /// other strides, from the place of the first element on and with the
    /// same element type. Nothing is copied; the array is taken over, and
    /// the result owns its buffer.
    ///
    /// A layout that [`Array::can_view`] does not allow is an invalid
    /// shape.
    pub fn with_layout(self, shape: Vec<i64>, strides: Vec<i64>) -> (result: Result<
        Array,
        ArrayError,
    >)
        ensures
            match result {
                Ok(view) => {
                    &&& self.can_view(shape@, strides@)
                    &&& view@.shape == shape@
                    &&& view@.dtype == self@.dtype
                    &&& view@.wf()
                    &&& view.spec_strides() == strides@
                    &&& view.spec_offset() == self.spec_offset()
                    &&& view.is_packed() == is_packed_layout(shape@, strides@, self@.dtype)
                    &&& view.spec_bytes() == self.spec_bytes()
                    &&& forall|at: int| view.bits_at(at) == self.bits_at(at)
                    &&& forall|at: int| view.holds(at) == self.holds(at)
                    &&& forall|k: int|
                        0 <= k < view@.elements.len() ==> #[trigger] view@.elements[k]
                            == self.bits_at(
                            self.spec_offset() + strided_offset(k, shape@, strides@),
                        )
                },
                Err(e) => e == ArrayError::InvalidShape && !self.can_view(shape@, strides@),
            },
    {
        proof {
            use_type_invariant(&self);
        }
        let n: usize = shape.len();
        if strides.len() != n {
            return Err(ArrayError::InvalidShape);
        }
        let mut i: usize = 0;
        while i < n
            invariant
                n == shape.len(),
                i <= n,
                forall|j: int| 0 <= j < i ==> shape[j] >= 0,
            decreases n - i,
        {
            if shape[i] < 0 {
                return Err(ArrayError::InvalidShape);
            }
            i += 1;
        }
        proof {
            lemma_positive_iff_nonempty(shape@);
        }
        let size: usize = match crate::shape::bounded_product(shape.as_slice()) {
            Some(p) => {
                if p > i64::MAX as i128 || p > usize::MAX as i128 {
                    return Err(ArrayError::InvalidShape);
                }
                p as usize
            },
            None => {
                return Err(ArrayError::InvalidShape);
            },
        };
        let itemsize: usize = self.dtype.itemsize();
        let align: usize = self.dtype.align();
        let len: usize = self.buffer.len();
        if size > 0 {
            proof {
                lemma_positive_iff_nonempty(shape@);
            }
            match crate::layout::bounded_extents(shape.as_slice(), strides.as_slice()) {
                None => {
                    return Err(ArrayError::InvalidShape);
                },
                Some((low, high)) => {
                    let first: i128 = self.offset as i128 + low;
                    let last: i128 = self.offset as i128 + high + itemsize as i128;
                    if first < 0 || last > len as i128 {
                        return Err(ArrayError::InvalidShape);
                    }
                },
            }
        }
        let packed: bool = detect_packed(shape.as_slice(), strides.as_slice(), &self.dtype);
        let ghost before = self;
        let Array { shape: _, strides: _, dtype, buffer, offset, size: _, packed: _ } = self;
        let view = Array { shape, strides, dtype, buffer, offset, size, packed };
        proof {
            view.lemma_view_wf();
            assert forall|at: int| view.bits_at(at) == before.bits_at(at) by {}
            assert forall|at: int| view.holds(at) == before.holds(at) by {}
        }
        Ok(view)
    }

    /// Permutes the axes of the array, without moving its elements: axis
    /// `i` of the result is axis `axes[i]` of the array, with its size
    /// and its stride. Without `axes` the order of all axes is reversed.
    /// The array is taken over, and the result owns its buffer.
    ///
    /// The element at an index of the array is the element of the result at
    /// the index with its components permuted as the axes are. Axes that
    /// are not a permutation of the axes of the array are an invalid
    /// dimension.
    pub fn transpose(self, axes: Option<&[usize]>) -> (result: Result<Array, ArrayError>)
        ensures
            match result {
                Ok(out) => {
                    let applied = transpose_axes(self@.shape.len(), axes_view(axes));
                    &&& is_permutation(applied, self@.shape.len())
                    &&& out@.shape == permuted_shape(self@.shape, applied)
                    &&& out.spec_strides() == permuted_shape(self.spec_strides(), applied)
                    &&& out.spec_offset() == self.spec_offset()
                    &&& out.is_packed() == is_packed_layout(
                        out@.shape,
                        out.spec_strides(),
                        out@.dtype,
                    )
                    &&& out@.dtype == self@.dtype
                    &&& out@.elements.len() == self@.elements.len()
                    &&& out@.wf()
                    &&& forall|index: Seq<i64>|
                        #![trigger flat_index(index, self@.shape)]
                        valid_index(index, self@.shape) ==> out@.elements[flat_index(
                            permuted_shape(index, applied),
                            out@.shape,
                        )] == self@.elements[flat_index(index, self@.shape)]
                },
                Err(e) => e == ArrayError::InvalidDimension && !is_permutation(
                    transpose_axes(self@.shape.len(), axes_view(axes)),
                    self@.shape.len(),
                ),
            },
    {
        proof {
            use_type_invariant(&self);
            self.lemma_view_wf();
        }
        let ndim: usize = self.shape.len();
        let new_shape: Vec<i64> = match transpose_dimensions(self.shape.as_slice(), axes) {
            Ok((new_shape, _)) => new_shape,
            Err(_) => {
                return Err(ArrayError::InvalidDimension);
            },
        };
        let ghost applied = transpose_axes(self.shape@.len(), axes_view(axes));
        let mut new_strides: Vec<i64> = Vec::with_capacity(ndim);
        let mut i: usize = 0;
        while i < ndim
            invariant
                i <= ndim,
                ndim == self.shape.len(),
                ndim == self.strides.len(),
                applied == transpose_axes(self.shape@.len(), axes_view(axes)),
                is_permutation(applied, self.shape@.len()),
                new_strides.len() == i,
                forall|j: int| 0 <= j < i ==> new_strides[j] == self.strides[applied[j] as int],
            decreases ndim - i,
        {
            let axis: usize = match axes {
                Some(given) => given[i],
                None => ndim - 1 - i,
            };
            assert(axis == applied[i as int]);
            new_strides.push(self.strides[axis]);
            i += 1;
        }
        let itemsize: usize = self.dtype.itemsize();
        let align: usize = self.dtype.align();
        proof {
            assert(new_strides@ =~= permuted_shape(self.strides@, applied));
            lemma_transposed_layout(self.shape@, self.strides@, self.shape@, applied);
            assert forall|j: int| 0 <= j < new_shape.len() implies new_shape[j] >= 0 by {
                assert(new_shape[j] == self.shape[applied[j] as int]);
            }
        }
        let packed: bool = detect_packed(new_shape.as_slice(), new_strides.as_slice(), &self.dtype);
        let ghost before = self;
        let Array { shape: _, strides: _, dtype, buffer, offset, size, packed: _ } = self;
        let out = Array {
            shape: new_shape,
            strides: new_strides,
            dtype,
            buffer,
            offset,
            size,
            packed,
        };
        proof {
            out.lemma_view_wf();
            assert forall|index: Seq<i64>|
                #![trigger flat_index(index, before@.shape)]
                valid_index(index, before@.shape) implies out@.elements[flat_index(
                permuted_shape(index, applied),
                out@.shape,
            )] == before@.elements[flat_index(index, before@.shape)] by {
                let moved = permuted_shape(index, applied);
                lemma_transposed_layout(before.shape@, before.strides@, index, applied);
                lemma_flat_index(index, before.shape@, before.strides@);
                lemma_flat_index(moved, out.shape@, out.strides@);
            }
        }
        Ok(out)
    }

    /// Removes axes of size 1, without moving the elements: the given axis
    /// if the array has it and it has size 1, or every axis of size 1
    /// where no axis is given. The array is taken over, and the result owns
    /// its buffer and holds the same elements in the same order.
    pub fn squeeze(self, axis: Option<usize>) -> (out: Array)
        ensures
            out@.shape == squeeze_spec(self@.shape, axis),
            out@.dtype == self@.dtype,
            out@.elements == self@.elements,
            out@.wf(),
            out.spec_offset() == self.spec_offset(),
            out.spec_strides() == match axis {
                Some(ax) => if ax < self@.shape.len() && self@.shape[ax as int] == 1 {
                    self.spec_strides().remove(ax as int)
                } else {
                    self.spec_strides()
                },
                None => squeezed_strides(self@.shape, self.spec_strides()),
            },
            out.is_packed() == is_packed_layout(out@.shape, out.spec_strides(), out@.dtype),
    {
        proof {
            use_type_invariant(&self);
            self.lemma_view_wf();
        }
        let ndim: usize = self.shape.len();
        let itemsize: usize = self.dtype.itemsize();
        let align: usize = self.dtype.align();
        let ghost before = self;
        let mut new_shape: Vec<i64> = Vec::new();
        let mut new_strides: Vec<i64> = Vec::new();
        match axis {
            Some(ax) => {
                new_shape = copy_shape(self.shape.as_slice());
                new_strides = copy_shape(self.strides.as_slice());
                if ax < ndim && self.shape[ax] == 1 {
                    new_shape.remove(ax);
                    new_strides.remove(ax);
                    proof {
                        lemma_unit_axis(0, self.shape@, self.strides@, ax as int);
                        assert forall|k: int|
                            strided_offset(k, new_shape@, new_strides@) == strided_offset(
                                k,
                                self.shape@,
                                self.strides@,
                            ) by {
                            lemma_unit_axis(k, self.shape@, self.strides@, ax as int);
                        }
                        assert forall|i: int| 0 <= i < new_shape.len() implies new_shape[i]
                            >= 0 by {
                            if i < ax {
                                assert(new_shape[i] == self.shape[i]);
                            } else {
                                assert(new_shape[i] == self.shape[i + 1]);
                            }
                        }
                    }
                }
            },
            None => {
                let mut i: usize = 0;
                proof {
                    assert(self.shape@.take(0) =~= Seq::<i64>::empty());
                    assert(self.strides@.take(0) =~= Seq::<i64>::empty());
                    reveal(Seq::filter);
                }
                while i < ndim
                    invariant
                        i <= ndim,
                        ndim == self.shape.len(),
                        ndim == self.strides.len(),
                        all_nonnegative(self.shape@),
                        new_shape@ == squeezed_shape(self.shape@.take(i as int)),
                        new_strides@ == squeezed_strides(
                            self.shape@.take(i as int),
                            self.strides@.take(i as int),
                        ),
                        all_nonnegative(new_shape@),
                    decreases ndim - i,
                {
                    proof {
                        let grown = self.shape@.take(i + 1);
                        assert(grown.drop_last() =~= self.shape@.take(i as int));
                        assert(self.strides@.take(i + 1).drop_last() =~= self.strides@.take(
                            i as int,
                        ));
                        assert(grown =~= self.shape@.take(i as int).push(self.shape[i as int]));
                        self.shape@.take(i as int).lemma_filter_push(
                            self.shape[i as int],
                            |d: i64| d != 1,
                        );
                    }
                    if self.shape[i] != 1 {
                        new_shape.push(self.shape[i]);
                        new_strides.push(self.strides[i]);
                    }
                    i += 1;
                }
                proof {
                    assert(self.shape@.take(ndim as int) =~= self.shape@);
                    assert(self.strides@.take(ndim as int) =~= self.strides@);
                    lemma_squeezed_layout(0, self.shape@, self.strides@);
                    assert forall|k: int|
                        strided_offset(k, new_shape@, new_strides@) == strided_offset(
                            k,
                            self.shape@,
                            self.strides@,
                        ) by {
                        lemma_squeezed_layout(k, self.shape@, self.strides@);
                    }
                }
            },
        }
        let packed: bool = detect_packed(new_shape.as_slice(), new_strides.as_slice(), &self.dtype);
        let Array { shape: _, strides: _, dtype, buffer, offset, size, packed: _ } = self;
        let out = Array {
            shape: new_shape,
            strides: new_strides,
            dtype,
            buffer,
            offset,
            size,
            packed,
        };
        proof {
            out.lemma_view_wf();
            assert(out@.elements =~= before@.elements);
        }
        out
    }

    /// Inserts an axis of size 1 at `axis`, which may be any position from
    /// 0 to the number of dimensions, without moving the elements. The
    /// array is taken over, and the result owns its buffer and holds the
    /// same elements in the same order. An axis beyond the number of
    /// dimensions is an invalid dimension.
    pub fn expand_dims(self, axis: usize) -> (result: Result<Array, ArrayError>)
        ensures
            match result {
                Ok(out) => {
                    &&& axis <= self@.shape.len()
                    &&& out@.shape == self@.shape.insert(axis as int, 1i64)
                    &&& out@.dtype == self@.dtype
                    &&& out@.elements == self@.elements
                    &&& out@.wf()
                    &&& out.spec_offset() == self.spec_offset()
                    &&& out.spec_strides().len() == out@.shape.len()
                    &&& out.spec_strides().remove(axis as int) == self.spec_strides()
                    &&& out.is_packed() == is_packed_layout(
                        out@.shape,
                        out.spec_strides(),
                        out@.dtype,
                    )
                },
                Err(e) => e == ArrayError::InvalidDimension && axis > self@.shape.len(),
            },
    {
        proof {
            use_type_invariant(&self);
            self.lemma_view_wf();
        }
        let ndim: usize = self.shape.len();
        if axis > ndim {
            return Err(ArrayError::InvalidDimension);
        }
        let itemsize: usize = self.dtype.itemsize();
        let align: usize = self.dtype.align();
        let ghost before = self;
        // The stride that the new axis has in a packed layout, if it fits.
        let natural: i128 = if axis < ndim {
            assert(-0x8000_0000_0000_0000 * 0x8000_0000_0000_0000 <= self.strides[axis as int]
                * self.shape[axis as int] <= 0x8000_0000_0000_0000 * 0x8000_0000_0000_0000)
                by (nonlinear_arith)
                requires
                    -0x8000_0000_0000_0000 <= self.strides[axis as int] < 0x8000_0000_0000_0000,
                    0 <= self.shape[axis as int] < 0x8000_0000_0000_0000,
            ;
            self.strides[axis] as i128 * self.shape[axis] as i128
        } else {
            itemsize as i128
        };
        let stride: i64 = if natural >= i64::MIN as i128 && natural <= i64::MAX as i128 {
            natural as i64
        } else {
            0
        };
        let mut new_shape: Vec<i64> = copy_shape(self.shape.as_slice());
        let mut new_strides: Vec<i64> = copy_shape(self.strides.as_slice());
        new_shape.insert(axis, 1);
        new_strides.insert(axis, stride);
        proof {
            assert(new_shape@.remove(axis as int) =~= self.shape@);
            assert(new_strides@.remove(axis as int) =~= self.strides@);
            lemma_unit_axis(0, new_shape@, new_strides@, axis as int);
            assert forall|k: int|
                strided_offset(k, new_shape@, new_strides@) == strided_offset(
                    k,
                    self.shape@,
                    self.strides@,
                ) by {
                lemma_unit_axis(k, new_shape@, new_strides@, axis as int);
            }
            assert forall|i: int| 0 <= i < new_shape.len() implies new_shape[i] >= 0 by {
                if i < axis {
                    assert(new_shape[i] == self.shape[i]);
                } else if i > axis {
                    assert(new_shape[i] == self.shape[i - 1]);
                }
            }
        }
        let packed: bool = detect_packed(new_shape.as_slice(), new_strides.as_slice(), &self.dtype);
        let Array { shape: _, strides: _, dtype, buffer, offset, size, packed: _ } = self;
        let out = Array {
            shape: new_shape,
            strides: new_strides,
            dtype,
            buffer,
            offset,
            size,
            packed,
        };
        proof {
            out.lemma_view_wf();
            assert(out@.elements =~= before@.elements);
        }
        Ok(out)
    }

    /// Gives a packed array the shape of one dimension that holds all its
    /// elements, without moving them. The array is taken over, and the
    /// result owns its buffer. An array that is not packed is refused as an
    /// invalid shape.
    pub fn flatten(self) -> (result: Result<Array, ArrayError>)
        ensures
            match result {
                Ok(out) => {
                    &&& self.is_packed()
                    &&& out@.shape == seq![self@.elements.len() as i64]
                    &&& out@.dtype == self@.dtype
                    &&& out@.elements == self@.elements
                    &&& out@.wf()
                    &&& out.is_packed()
                },
                Err(e) => e == ArrayError::InvalidShape && !self.is_packed(),
            },
    {
        proof {
            use_type_invariant(&self);
            self.lemma_view_wf();
        }
        if !self.packed {
            return Err(ArrayError::InvalidShape);
        }
        let itemsize: usize = self.dtype.itemsize();
        let ghost kind = self.dtype.kind();
        proof {
            assert(self.size <= self.size * itemsize) by (nonlinear_arith)
                requires
                    itemsize >= 1,
            ;
        }
        let mut flat: Vec<i64> = Vec::with_capacity(1);
        flat.push(self.size as i64);
        let ghost wanted = seq![self.size as i64];
        proof {
            let w = itemsize as int;
            assert(flat@ =~= wanted);
            assert(wanted.drop_last() =~= Seq::<i64>::empty());
            assert(shape_product(wanted) == self.size) by {
                reveal_with_fuel(shape_product, 2);
            }
            assert(crate::shape::inferred_count(wanted) == 0) by {
                reveal_with_fuel(crate::shape::inferred_count, 2);
            }
            assert(wanted.skip(1) =~= Seq::<i64>::empty());
            assert(wanted.skip(0) =~= wanted);
            assert(c_stride(wanted, w, 0) == w * 1);
            assert(c_stride(wanted, w, -1) == w * self.size);
            assert(w * self.size == self.size * w) by (nonlinear_arith);
            assert forall|axis: int| -1 <= axis < wanted.len() implies #[trigger] c_stride(
                wanted,
                w,
                axis,
            ) <= i64::MAX by {
                if axis == 0 {
                    assert(c_stride(wanted, w, 0) == w * 1);
                } else {
                    assert(c_stride(wanted, w, -1) == w * self.size);
                }
            }
            assert(can_allocate(wanted, kind));
            assert(all_nonnegative(wanted));
        }
        match self.reshape(flat.as_slice()) {
            Ok(out) => Ok(out),
            Err(_) => Err(ArrayError::InvalidShape),
        }
    }

    /// The size of each dimension.
    pub fn shape(&self) -> (shape: &[i64])
        ensures
            shape@ == self@.shape,
            self@.wf(),
    {
        proof {
            use_type_invariant(self);
            self.lemma_view_wf();
        }
        self.shape.as_slice()
    }

    /// The step in bytes along each dimension. Where the array holds an
    /// element, the buffer holds one at both extents of the strides.
    pub fn strides(&self) -> (strides: &[i64])
        ensures
            strides@ == self.spec_strides(),
            strides.len() == self@.shape.len(),
            self@.size() > 0 ==> self.holds(
                self.spec_offset() + min_extent(self@.shape, self.spec_strides()),
            ) && self.holds(self.spec_offset() + max_extent(self@.shape, self.spec_strides())),
            self@.size() > 0 ==> 0 <= self.spec_offset() + min_extent(
                self@.shape,
                self.spec_strides(),
            ) && self.spec_offset() + max_extent(self@.shape, self.spec_strides()) <= usize::MAX,
    {
        proof {
            self.buffer.lemma_len_bound();
        }
        proof {
            use_type_invariant(self);
            if self.size > 0 {
                lemma_positive_iff_nonempty(self.shape@);
                crate::layout::lemma_extent_signs(self.shape@, self.strides@);
            }
        }
        self.strides.as_slice()
    }

    /// Where in the buffer the first element lies.
    pub fn offset(&self) -> (offset: usize)
        ensures
            offset == self.spec_offset(),
    {
        self.offset
    }

    /// The element type.
    pub fn dtype(&self) -> (dtype: &DType)
        ensures
            dtype.kind() == self@.dtype,
    {
        &self.dtype
    }

    /// The number of elements.
    pub fn size(&self) -> (size: usize)
        ensures
            size == self@.size(),
            size == self@.elements.len(),
            self@.wf(),
    {
        proof {
            use_type_invariant(self);
            self.lemma_view_wf();
        }
        self.size
    }

    /// The number of dimensions.
    pub fn ndim(&self) -> (ndim: usize)
        ensures
            ndim == self@.shape.len(),
    {
        self.shape.len()
    }

    /// The size of one element in bytes.
    pub fn itemsize(&self) -> (size: usize)
        ensures
            size == self@.itemsize(),
            1 <= size <= 8,
    {
        self.dtype.itemsize()
    }

    /// Whether the elements lie packed in row-major order.
    pub fn is_c_contiguous(&self) -> (packed: bool)
        ensures
            packed == self.is_packed(),
            packed == is_packed_layout(self@.shape, self.spec_strides(), self@.dtype),
    {
        proof {
            use_type_invariant(self);
        }
        self.packed
    }

    /// The view of a live array is well-formed.
    proof fn lemma_view_wf(&self)
        requires
            self.well_formed(),
        ensures
            self@.wf(),
            self@.size() == self.size,
    {
        assert forall|k: int| 0 <= k < self@.elements.len() implies self@.elements[k] < capacity(
            self@.itemsize(),
        ) by {
            let at = self.offset + strided_offset(k, self.shape@, self.strides@);
            lemma_positive_iff_nonempty(self.shape@);
            lemma_strided_offset_bounds(k, self.shape@, self.strides@);
            let bytes = self.buffer@.subrange(at, at + itemsize_of(self.dtype.kind()));
            lemma_le_value_bound(bytes);
            lemma_capacity_values();
        }
    }

    /// The bit pattern of the element at byte `at` of the buffer.
    pub fn read_bits(&self, at: usize) -> (bits: u64)
        requires
            self.holds(at as int),
        ensures
            bits == self.bits_at(at as int),
            bits < capacity(self@.itemsize()),
    {
        let width: usize = self.dtype.itemsize();
        proof {
            lemma_le_value_bound(self.buffer@.subrange(at as int, at + width));
            lemma_capacity_values();
        }
        read_le(&self.buffer, at, width)
    }

    /// The bit pattern of the element at byte `at` of the buffer, or an
    /// index error where the buffer holds no element there.
    pub fn read(&self, at: usize) -> (result: Result<u64, ArrayError>)
        ensures
            match result {
                Ok(bits) => self.holds(at as int) && bits == self.bits_at(at as int),
                Err(e) => e == ArrayError::IndexError && !self.holds(at as int),
            },
    {
        let len: usize = self.buffer.len();
        let width: usize = self.dtype.itemsize();
        if len < width || at > len - width {
            return Err(ArrayError::IndexError);
        }
        Ok(self.read_bits(at))
    }

    /// Where in the buffer element number `k` lies.
    pub fn locate(&self, k: usize) -> (at: usize)
        requires
            k < self@.elements.len(),
        ensures
            at == self.spec_offset() + strided_offset(k as int, self@.shape, self.spec_strides()),
            self.holds(at as int),
            self.bits_at(at as int) == self@.elements[k as int],
    {
        proof {
            use_type_invariant(self);
            lemma_positive_iff_nonempty(self.shape@);
            lemma_strided_offset_bounds(k as int, self.shape@, self.strides@);
            crate::layout::lemma_extent_signs(self.shape@, self.strides@);
        }
        proof {
            self.buffer.lemma_len_bound();
        }
        offset_of(self.offset, k, self.shape.as_slice(), self.strides.as_slice())
    }

    /// The bit pattern of element number `k` in row-major order.
    pub fn element(&self, k: usize) -> (bits: u64)
        requires
            k < self@.elements.len(),
        ensures
            bits == self@.elements[k as int],
            bits < capacity(self@.itemsize()),
    {
        let at: usize = self.locate(k);
        self.read_bits(at)
    }

    /// The bit pattern of element number `k` in row-major order, or an index
    /// error where there is no such element.
    pub fn get(&self, k: usize) -> (result: Result<u64, ArrayError>)
        ensures
            match result {
                Ok(bits) => k < self@.elements.len() && bits == self@.elements[k as int],
                Err(e) => e == ArrayError::IndexError && k >= self@.elements.len(),
            },
    {
        if k >= self.size {
            return Err(ArrayError::IndexError);
        }
        Ok(self.element(k))
    }

    /// Stores the low bytes of `bits` as element number `k` in row-major
    /// order, as many as an element is wide.
    ///
    /// The bytes of the element are overwritten and no others. In a packed
    /// array no other element changes; in an array whose elements overlap,
    /// those that share bytes with the element change with it.
    pub fn put(&mut self, k: usize, bits: u64)
        requires
            k < old(self)@.elements.len(),
        ensures
            final(self)@.shape == old(self)@.shape,
            final(self)@.dtype == old(self)@.dtype,
            final(self)@.elements.len() == old(self)@.elements.len(),
            final(self)@.wf(),
            final(self).is_packed() == old(self).is_packed(),
            final(self).spec_strides() == old(self).spec_strides(),
            final(self).spec_offset() == old(self).spec_offset(),
            old(self).holds(old(self).place(k as int)),
            final(self).spec_bytes() == old(self).spec_bytes().subrange(
                0,
                old(self).place(k as int),
            ) + le_bytes(bits as nat, old(self)@.itemsize()) + old(self).spec_bytes().subrange(
                old(self).place(k as int) + old(self)@.itemsize(),
                old(self).spec_bytes().len() as int,
            ),
            final(self)@.elements[k as int] == (bits as nat) % capacity(old(self)@.itemsize()),
            old(self).is_packed() ==> final(self)@.elements == old(self)@.elements.update(
                k as int,
                final(self)@.elements[k as int],
            ),
    {
        proof {
            use_type_invariant(&*self);
            lemma_positive_iff_nonempty(self.shape@);
            lemma_strided_offset_bounds(k as int, self.shape@, self.strides@);
            crate::layout::lemma_extent_signs(self.shape@, self.strides@);
        }
        proof {
            self.buffer.lemma_len_bound();
        }
        let width: usize = self.dtype.itemsize();
        let at: usize = offset_of(self.offset, k, self.shape.as_slice(), self.strides.as_slice());
        write_le(&mut self.buffer, at, width, bits);
        proof {
            lemma_le_bytes_value(bits as nat, width as nat);
            lemma_capacity_values();
            assert(self@.elements[k as int] == self.bits_at(at as int));
            assert(self.buffer@ =~= old(self).buffer@.subrange(0, at as int) + le_bytes(
                bits as nat,
                width as nat,
            ) + old(self).buffer@.subrange(at + width, old(self).buffer@.len() as int)) by {
                let target = le_bytes(bits as nat, width as nat);
                assert(target =~= self.buffer@.subrange(at as int, at + width));
                assert forall|i: int| 0 <= i < self.buffer@.len() implies self.buffer@[i] == (
                old(self).buffer@.subrange(0, at as int) + target + old(self).buffer@.subrange(
                    at + width,
                    old(self).buffer@.len() as int,
                ))[i] by {
                    if at <= i < at + width {
                        assert(self.buffer@[i] == self.buffer@.subrange(at as int, at + width)[i
                            - at]);
                    }
                }
            }
            if self.packed {
                assert forall|j: int|
                    0 <= j < self.size && j != k implies #[trigger] self@.elements[j]
                    == old(self)@.elements[j] by {
                    lemma_packed_layout(j, self.shape@, self.strides@, width as int);
                    lemma_packed_layout(k as int, self.shape@, self.strides@, width as int);
                    lemma_strided_offset_bounds(j, self.shape@, self.strides@);
                    let other = self.offset + j * width;
                    assert(other + width <= at || at + width <= other) by (nonlinear_arith)
                        requires
                            other == self.offset + j * width,
                            at == self.offset + k * width,
                            j != k,
                    ;
                    let fresh = self.buffer@.subrange(other, other + width);
                    assert(fresh =~= old(self).buffer@.subrange(other, other + width));
                }
                assert(self@.elements =~= old(self)@.elements.update(
                    k as int,
                    self@.elements[k as int],
                ));
            }
        }
        proof {
            self.lemma_view_wf();
        }
    }
    /// Stores the low bytes of `bits` as element number `k` in row-major
    /// order, as [`Array::put`] does. Where there is no such element
    /// nothing changes and an index error comes back.
    pub fn set(&mut self, k: usize, bits: u64) -> (result: Result<(), ArrayError>)
        ensures
            final(self)@.shape == old(self)@.shape,
            final(self)@.dtype == old(self)@.dtype,
            final(self)@.elements.len() == old(self)@.elements.len(),
            final(self).is_packed() == old(self).is_packed(),
            final(self).spec_strides() == old(self).spec_strides(),
            final(self).spec_offset() == old(self).spec_offset(),
            match result {
                Ok(_) => {
                    &&& k < old(self)@.elements.len()
                    &&& final(self)@.wf()
                    &&& old(self).holds(old(self).place(k as int))
                    &&& final(self).spec_bytes() == old(self).spec_bytes().subrange(
                        0,
                        old(self).place(k as int),
                    ) + le_bytes(bits as nat, old(self)@.itemsize())
                        + old(self).spec_bytes().subrange(
                        old(self).place(k as int) + old(self)@.itemsize(),
                        old(self).spec_bytes().len() as int,
                    )
                    &&& final(self)@.elements[k as int] == (bits as nat) % capacity(
                        old(self)@.itemsize(),
                    )
                    &&& old(self).is_packed() ==> final(self)@.elements
                        == old(self)@.elements.update(k as int, final(self)@.elements[k as int])
                },
                Err(e) => {
                    &&& e == ArrayError::IndexError
                    &&& k >= old(self)@.elements.len()
                    &&& final(self)@ == old(self)@
                    &&& final(self).spec_bytes() == old(self).spec_bytes()
                },
            },
    {
        if k >= self.size {
            return Err(ArrayError::IndexError);
        }
        self.put(k, bits);
        Ok(())
    }

}

/// What reshaping a packed array comes to.
///
/// A request that cannot be resolved is refused with the error of the
/// resolution, a resolved shape with a negative dimension as an invalid
/// shape, and one whose strides cannot be laid out as out of memory.
/// Otherwise the array has the resolved shape and its elements as before.
pub open spec fn reshape_spec(array: ArrayView, new_shape: Seq<i64>) -> Result<
    ArrayView,
    ArrayError,
> {
    match resolve_reshape_spec(array.shape, new_shape) {
        Err(ShapeError::SizeMismatch) => Err(ArrayError::SizeMismatch),
        Err(_) => Err(ArrayError::InvalidShape),
        Ok(shape) => if !all_nonnegative(shape) {
            Err(ArrayError::InvalidShape)
        } else if !can_allocate(shape, array.dtype) {
            Err(ArrayError::OutOfMemory)
        } else {
            Ok(ArrayView { shape, dtype: array.dtype, elements: array.elements })
        },
    }
}

/// Reshaping an array and then reshaping the result to the shape that the
/// array had gives the array again: the same shape, the same elements in
/// the same order.
pub proof fn lemma_reshape_round_trip(array: ArrayView, new_shape: Seq<i64>)
    requires
        array.wf(),
        can_allocate(array.shape, array.dtype),
        reshape_spec(array, new_shape) is Ok,
    ensures
        reshape_spec(array, new_shape)->Ok_0.wf(),
        reshape_spec(array, new_shape)->Ok_0.elements == array.elements,
        reshape_spec(reshape_spec(array, new_shape)->Ok_0, array.shape) == Ok::<
            ArrayView,
            ArrayError,
        >(array),
{
    lemma_positive_iff_nonempty(array.shape);
    lemma_size_fits(array.shape, array.dtype);
    lemma_no_inferred(array.shape);
    crate::shape::lemma_reshape_round_trip(array.shape, new_shape);
}

/// A shape that can be allocated holds a number of elements that fits in
/// 64 bits.
pub proof fn lemma_size_fits(shape: Seq<i64>, dtype: NpyType)
    requires
        all_nonnegative(shape),
        can_allocate(shape, dtype),
    ensures
        0 <= shape_product(shape) <= i64::MAX,
{
    lemma_positive_iff_nonempty(shape);
    let p = shape_product(shape);
    let w = itemsize_of(dtype) as int;
    assert(p <= p * w) by (nonlinear_arith)
        requires
            p >= 0,
            w >= 1,
    ;
}

/// A shape without negative dimensions leaves nothing to infer.
pub proof fn lemma_no_inferred(shape: Seq<i64>)
    requires
        all_nonnegative(shape),
    ensures
        crate::shape::inferred_count(shape) == 0,
    decreases shape.len(),
{
    if shape.len() > 0 {
        assert forall|i: int| 0 <= i < shape.drop_last().len() implies shape.drop_last()[i]
            >= 0 by {
            assert(shape.drop_last()[i] == shape[i]);
        }
        lemma_no_inferred(shape.drop_last());
    }
}

impl Clone for Array {
    /// A copy of the array in a buffer of its own: the same shape, strides
    /// and elements.
    fn clone(&self) -> (copy: Array)
        ensures
            copy@ == self@,
            copy@.wf(),
            copy.is_packed() == self.is_packed(),
            copy.spec_strides() == self.spec_strides(),
            copy.spec_offset() == self.spec_offset(),
    {
        proof {
            use_type_invariant(self);
            self.lemma_view_wf();
        }
        let copy = Array {
            shape: copy_shape(self.shape.as_slice()),
            strides: copy_shape(self.strides.as_slice()),
            dtype: self.dtype,
            buffer: crate::memory::duplicate(&self.buffer),
            offset: self.offset,
            size: self.size,
            packed: self.packed,
        };
        proof {
            assert(copy@.elements =~= self@.elements);
        }
        copy
    }
}

/// Every alignment of an element kind is a power of two.
pub proof fn lemma_alignment_is_power_of_two(kind: NpyType)
    ensures
        crate::memory::is_power_of_two(alignment_of(kind) as int),
{
    reveal_with_fuel(crate::memory::is_power_of_two, 5);
}

/// A new array of the given shape and element type with every element
/// zero.
pub fn zeros(shape: Vec<i64>, dtype: DType) -> (result: Result<Array, ArrayError>)
    ensures
        match result {
            Ok(array) => {
                &&& all_nonnegative(shape@)
                &&& can_allocate(shape@, dtype.kind())
                &&& array@ == filled_view(shape@, dtype.kind(), 0)
                &&& array@.wf()
                &&& array.is_packed()
            },
            Err(e) => {
                ||| e == ArrayError::InvalidShape && !all_nonnegative(shape@)
                ||| e == ArrayError::OutOfMemory && all_nonnegative(shape@) && !can_allocate(
                    shape@,
                    dtype.kind(),
                )
            },
        },
{
    Array::new(shape, dtype)
}

/// A new array of the given shape and element type whose contents are
/// not meant to be read before they are written. Its elements are zero.
pub fn empty(shape: Vec<i64>, dtype: DType) -> (result: Result<Array, ArrayError>)
    ensures
        match result {
            Ok(array) => {
                &&& all_nonnegative(shape@)
                &&& can_allocate(shape@, dtype.kind())
                &&& array@ == filled_view(shape@, dtype.kind(), 0)
                &&& array@.wf()
                &&& array.is_packed()
            },
            Err(e) => {
                ||| e == ArrayError::InvalidShape && !all_nonnegative(shape@)
                ||| e == ArrayError::OutOfMemory && all_nonnegative(shape@) && !can_allocate(
                    shape@,
                    dtype.kind(),
                )
            },
        },
{
    Array::new(shape, dtype)
}

/// A new array of the given shape and element type with every element
/// one.
pub fn ones(shape: Vec<i64>, dtype: DType) -> (result: Result<Array, ArrayError>)
    ensures
        match result {
            Ok(array) => {
                &&& all_nonnegative(shape@)
                &&& can_allocate(shape@, dtype.kind())
                &&& array@ == filled_view(shape@, dtype.kind(), one_bits(dtype.kind()))
                &&& array@.wf()
                &&& array.is_packed()
            },
            Err(e) => {
                ||| e == ArrayError::InvalidShape && !all_nonnegative(shape@)
                ||| e == ArrayError::OutOfMemory && all_nonnegative(shape@) && !can_allocate(
                    shape@,
                    dtype.kind(),
                )
            },
        },
{
    let bits: u64 = match dtype.type_() {
        NpyType::Float => 0x3F80_0000,
        NpyType::Double => 0x3FF0_0000_0000_0000,
        _ => 1,
    };
    proof {
        lemma_capacity_values();
        vstd::arithmetic::div_mod::lemma_small_mod(
            bits as nat,
            capacity(itemsize_of(dtype.kind()) as nat),
        );
    }
    Array::filled(shape, dtype, bits)
}

} // verus!
