//! Arithmetic on two arrays of signed integers, element by element.
//!
//! The two arrays are broadcast together and must have the same kind of
//! element, a signed integer. Results wrap at the width of the elements.

use crate::array::{Array, ArrayError, ArrayView, can_allocate};
use crate::broadcasting::{
    broadcast_compatible,
    broadcast_shape,
    broadcast_shapes,
    broadcast_source,
};
use crate::scalar::{capacity, lemma_capacity_values};
use crate::types::{DType, is_integer, itemsize_of, NpyType};
use crate::ufunc::kernels::{Arithmetic, arithmetic_bits, arithmetic_spec};
use crate::ufunc::loop_exec::{binary_loop, binary_result, elementwise_view, lemma_stored_fits};
use vstd::prelude::*;

verus! {

/// The array that an arithmetic operation on two arrays gives.
pub open spec fn arithmetic_view(op: Arithmetic, left: ArrayView, right: ArrayView) -> ArrayView {
    elementwise_view(
        left,
        right,
        left.dtype,
        |x: u64, y: u64| arithmetic_spec(op, left.dtype, x, y),
    )
}

/// What an arithmetic operation on two arrays comes to.
///
/// Shapes that cannot be broadcast together are an invalid shape; after
/// that, elements of different kinds or of a kind other than a signed
/// integer are a type mismatch; after that, a result too large to allocate
/// is out of memory.
pub open spec fn arithmetic_arrays_spec(
    op: Arithmetic,
    left: ArrayView,
    right: ArrayView,
) -> Result<ArrayView, ArrayError> {
    if !broadcast_compatible(left.shape, right.shape) {
        Err(ArrayError::InvalidShape)
    } else if left.dtype != right.dtype || !is_integer(left.dtype) {
        Err(ArrayError::TypeMismatch)
    } else if !can_allocate(broadcast_shape(left.shape, right.shape), left.dtype) {
        Err(ArrayError::OutOfMemory)
    } else {
        Ok(arithmetic_view(op, left, right))
    }
}

/// Whether `result` is what [`arithmetic_arrays_spec`] calls for.
pub open spec fn is_arithmetic(
    result: Result<Array, ArrayError>,
    op: Arithmetic,
    left: ArrayView,
    right: ArrayView,
) -> bool {
    match result {
        Ok(out) => {
            &&& arithmetic_arrays_spec(op, left, right) is Ok
            &&& out@ == arithmetic_view(op, left, right)
            &&& out@.wf()
            &&& out.is_packed()
        },
        Err(e) => arithmetic_arrays_spec(op, left, right) == Err::<ArrayView, ArrayError>(e),
    }
}

/// Applies an arithmetic operation to two arrays element by element
/// through the broadcasting loop.
pub fn arithmetic_arrays(op: Arithmetic, left: &Array, right: &Array) -> (result: Result<
    Array,
    ArrayError,
>)
    ensures
        is_arithmetic(result, op, left@, right@),
{
    let dtype: DType = *left.dtype();
    let kind: NpyType = dtype.type_();
    if broadcast_shapes(left.shape(), right.shape()).is_err() {
        return Err(ArrayError::InvalidShape);
    }
    if kind != right.dtype().type_() || !kind.is_integer() {
        return Err(ArrayError::TypeMismatch);
    }
    let kernel = |x: u64, y: u64| -> (z: u64)
        requires
            x < capacity(itemsize_of(kind) as nat),
            y < capacity(itemsize_of(kind) as nat),
        ensures
            z == arithmetic_spec(op, kind, x, y),
            z < capacity(itemsize_of(kind) as nat),
        { arithmetic_bits(op, kind, x, y) };
    match binary_loop(left, right, dtype, kernel) {
        Err(e) => Err(e),
        Ok(out) => {
            proof {
                let expected = arithmetic_view(op, left@, right@);
                lemma_capacity_values();
                assert forall|k: int| 0 <= k < out@.elements.len() implies out@.elements[k]
                    == expected.elements[k] by {
                    let x = left@.elements[broadcast_source(k, out@.shape, left@.shape)];
                    let y = right@.elements[broadcast_source(k, out@.shape, right@.shape)];
                    assert(binary_result(kernel, x, y, kind, out@.elements[k]));
                    lemma_stored_fits(arithmetic_spec(op, kind, x, y), kind);
                }
                assert(out@ =~= expected);
            }
            Ok(out)
        },
    }
}

/// The sums of the elements of two arrays.
pub fn add(a1: &Array, a2: &Array) -> (result: Result<Array, ArrayError>)
    ensures
        is_arithmetic(result, Arithmetic::Add, a1@, a2@),
{
    arithmetic_arrays(Arithmetic::Add, a1, a2)
}

/// The differences of the elements of two arrays.
pub fn subtract(a1: &Array, a2: &Array) -> (result: Result<Array, ArrayError>)
    ensures
        is_arithmetic(result, Arithmetic::Subtract, a1@, a2@),
{
    arithmetic_arrays(Arithmetic::Subtract, a1, a2)
}

/// The products of the elements of two arrays.
pub fn multiply(a1: &Array, a2: &Array) -> (result: Result<Array, ArrayError>)
    ensures
        is_arithmetic(result, Arithmetic::Multiply, a1@, a2@),
{
    arithmetic_arrays(Arithmetic::Multiply, a1, a2)
}

} // verus!
