//! Comparisons of two arrays, element by element.
//!
//! The two arrays are broadcast together and must have the same kind of
//! element. The result is an array of truth values of the common shape.

use crate::array::{Array, ArrayError, ArrayView, can_allocate};
use crate::broadcasting::{
    broadcast_compatible,
    broadcast_shape,
    broadcast_shapes,
    broadcast_source,
    lemma_broadcast_same_shape,
};
use crate::layout::lemma_positive_iff_nonempty;
use crate::scalar::{capacity, lemma_capacity_values};
use crate::types::{DType, itemsize_of, NpyType};
use crate::ufunc::kernels::{
    compare_bits,
    compare_spec,
    Comparison,
    scalar_equal,
    scalar_less,
    truth_bits,
};
use crate::ufunc::loop_exec::{binary_loop, binary_result, elementwise_view};
use vstd::prelude::*;

verus! {

/// The array of truth values that a comparison of two arrays gives.
pub open spec fn compare_view(op: Comparison, left: ArrayView, right: ArrayView) -> ArrayView {
    elementwise_view(
        left,
        right,
        NpyType::Bool,
        |x: u64, y: u64| truth_bits(compare_spec(op, left.dtype, x, y)),
    )
}

/// What comparing two arrays comes to.
///
/// Shapes that cannot be broadcast together are an invalid shape; after
/// that, elements of different kinds are a type mismatch; after that, a
/// result too large to allocate is out of memory.
pub open spec fn compare_arrays_spec(op: Comparison, left: ArrayView, right: ArrayView) -> Result<
    ArrayView,
    ArrayError,
> {
    if !broadcast_compatible(left.shape, right.shape) {
        Err(ArrayError::InvalidShape)
    } else if left.dtype != right.dtype {
        Err(ArrayError::TypeMismatch)
    } else if !can_allocate(broadcast_shape(left.shape, right.shape), NpyType::Bool) {
        Err(ArrayError::OutOfMemory)
    } else {
        Ok(compare_view(op, left, right))
    }
}

/// Whether `result` is what [`compare_arrays_spec`] calls for.
pub open spec fn is_comparison(
    result: Result<Array, ArrayError>,
    op: Comparison,
    left: ArrayView,
    right: ArrayView,
) -> bool {
    match result {
        Ok(out) => {
            &&& compare_arrays_spec(op, left, right) is Ok
            &&& out@ == compare_view(op, left, right)
            &&& out@.wf()
            &&& out.is_packed()
        },
        Err(e) => compare_arrays_spec(op, left, right) == Err::<ArrayView, ArrayError>(e),
    }
}

/// Compares two arrays element by element through the broadcasting loop.
pub fn compare_arrays(op: Comparison, left: &Array, right: &Array) -> (result: Result<
    Array,
    ArrayError,
>)
    ensures
        is_comparison(result, op, left@, right@),
{
    let kind: NpyType = left.dtype().type_();
    if broadcast_shapes(left.shape(), right.shape()).is_err() {
        return Err(ArrayError::InvalidShape);
    }
    if kind != right.dtype().type_() {
        return Err(ArrayError::TypeMismatch);
    }
    let kernel = |x: u64, y: u64| -> (z: u64)
        requires
            x < capacity(itemsize_of(kind) as nat),
            y < capacity(itemsize_of(kind) as nat),
        ensures
            z == truth_bits(compare_spec(op, kind, x, y)),
        {
            if compare_bits(op, kind, x, y) {
                1
            } else {
                0
            }
        };
    match binary_loop(left, right, DType::new(NpyType::Bool), kernel) {
        Err(e) => Err(e),
        Ok(out) => {
            proof {
                let expected = compare_view(op, left@, right@);
                lemma_capacity_values();
                assert forall|k: int| 0 <= k < out@.elements.len() implies out@.elements[k]
                    == expected.elements[k] by {
                    assert(binary_result(
                        kernel,
                        left@.elements[broadcast_source(k, out@.shape, left@.shape)],
                        right@.elements[broadcast_source(k, out@.shape, right@.shape)],
                        NpyType::Bool,
                        out@.elements[k],
                    ));
                }
                assert(out@ =~= expected);
            }
            Ok(out)
        },
    }
}

/// The elements of `a1` that equal those of `a2`.
pub fn equal(a1: &Array, a2: &Array) -> (result: Result<Array, ArrayError>)
    ensures
        is_comparison(result, Comparison::Equal, a1@, a2@),
{
    compare_arrays(Comparison::Equal, a1, a2)
}

/// The elements of `a1` that differ from those of `a2`: the negation of
/// [`equal`].
pub fn not_equal(a1: &Array, a2: &Array) -> (result: Result<Array, ArrayError>)
    ensures
        is_comparison(result, Comparison::NotEqual, a1@, a2@),
{
    compare_arrays(Comparison::NotEqual, a1, a2)
}

/// The elements of `a1` that are less than those of `a2`.
pub fn less(a1: &Array, a2: &Array) -> (result: Result<Array, ArrayError>)
    ensures
        is_comparison(result, Comparison::Less, a1@, a2@),
{
    compare_arrays(Comparison::Less, a1, a2)
}

/// The elements of `a1` that are greater than those of `a2`: [`less`] with
/// the operands exchanged.
pub fn greater(a1: &Array, a2: &Array) -> (result: Result<Array, ArrayError>)
    ensures
        is_comparison(result, Comparison::Greater, a1@, a2@),
{
    compare_arrays(Comparison::Greater, a1, a2)
}

/// The elements of `a1` that are at most those of `a2`: the negation of
/// [`greater`].
pub fn less_equal(a1: &Array, a2: &Array) -> (result: Result<Array, ArrayError>)
    ensures
        is_comparison(result, Comparison::LessEqual, a1@, a2@),
{
    compare_arrays(Comparison::LessEqual, a1, a2)
}

/// The elements of `a1` that are at least those of `a2`: the negation of
/// [`less`].
pub fn greater_equal(a1: &Array, a2: &Array) -> (result: Result<Array, ArrayError>)
    ensures
        is_comparison(result, Comparison::GreaterEqual, a1@, a2@),
{
    compare_arrays(Comparison::GreaterEqual, a1, a2)
}

/// The truth value that a bit pattern of a truth value stands for.
pub open spec fn truth_of(bits: u64) -> bool {
    bits != 0
}

/// Not-equal is the negation of equal and greater-or-equal the negation of
/// less, at every element; less-or-equal is the negation of greater. All
/// four results have the same shape.
pub proof fn lemma_comparison_duality(left: ArrayView, right: ArrayView, k: int)
    requires
        0 <= k < shape_len(left, right),
    ensures
        compare_view(Comparison::NotEqual, left, right).shape == compare_view(
            Comparison::Equal,
            left,
            right,
        ).shape,
        truth_of(compare_view(Comparison::NotEqual, left, right).elements[k]) == !truth_of(
            compare_view(Comparison::Equal, left, right).elements[k],
        ),
        truth_of(compare_view(Comparison::GreaterEqual, left, right).elements[k]) == !truth_of(
            compare_view(Comparison::Less, left, right).elements[k],
        ),
        truth_of(compare_view(Comparison::LessEqual, left, right).elements[k]) == !truth_of(
            compare_view(Comparison::Greater, left, right).elements[k],
        ),
{
}

/// The number of elements of the common shape of two arrays.
pub open spec fn shape_len(left: ArrayView, right: ArrayView) -> int {
    crate::shape::shape_product(broadcast_shape(left.shape, right.shape))
}

/// Greater is less with the operands exchanged: on arrays of one shape,
/// `greater(a, b)` and `less(b, a)` agree at every element.
pub proof fn lemma_greater_is_less_exchanged(left: ArrayView, right: ArrayView, k: int)
    requires
        left.wf(),
        right.wf(),
        left.shape == right.shape,
        left.dtype == right.dtype,
        0 <= k < left.elements.len(),
    ensures
        compare_view(Comparison::Greater, left, right).shape == left.shape,
        compare_view(Comparison::Less, right, left).shape == left.shape,
        compare_view(Comparison::Greater, left, right).elements[k] == compare_view(
            Comparison::Less,
            right,
            left,
        ).elements[k],
        compare_view(Comparison::Equal, left, right).elements[k] == truth_bits(
            scalar_equal(left.dtype, left.elements[k], right.elements[k]),
        ),
        compare_view(Comparison::Less, left, right).elements[k] == truth_bits(
            scalar_less(left.dtype, left.elements[k], right.elements[k]),
        ),
{
    lemma_positive_iff_nonempty(left.shape);
    lemma_broadcast_same_shape(k, left.shape);
}

} // verus!
