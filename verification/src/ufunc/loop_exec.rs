//! The loops that apply a scalar kernel to every element.
//!
//! A kernel works on bit patterns: it takes the pattern of one element, or
//! of one element of each operand, and gives the pattern of the result. The
//! low bytes of what it gives are stored, as many as an element of the
//! output is wide.

use crate::array::{Array, ArrayError, ArrayView, can_allocate};
use crate::broadcasting::{
    broadcast_shape,
    broadcast_shapes,
    broadcast_shapes_spec,
    broadcast_source,
    broadcast_strides,
    broadcast_strides_spec,
    lemma_broadcast_covers,
    lemma_broadcast_walk,
};
use crate::layout::{
    all_positive,
    lemma_positive_iff_nonempty,
    lemma_product_positive,
    lemma_strided_offset_bounds,
    max_extent,
    min_extent,
    offset_of,
    strided_offset,
};
use crate::scalar::{capacity, lemma_capacity_values};
use crate::shape::{copy_shape, same_shape, shape_product};
use crate::types::{DType, itemsize_of, NpyType};
use vstd::prelude::*;

verus! {

/// What is stored of a bit pattern in an element of the given kind: its
/// low bytes, as many as the element is wide.
pub open spec fn stored_bits(bits: u64, dtype: NpyType) -> u64 {
    ((bits as nat) % capacity(itemsize_of(dtype) as nat)) as u64
}

/// A bit pattern that fits the width of a kind is stored as it is.
pub proof fn lemma_stored_fits(bits: u64, dtype: NpyType)
    requires
        bits < capacity(itemsize_of(dtype) as nat),
    ensures
        stored_bits(bits, dtype) == bits,
{
    vstd::arithmetic::div_mod::lemma_small_mod(bits as nat, capacity(itemsize_of(dtype) as nat));
}

/// Whether `stored` is what an element of the given kind keeps of
/// something that `kernel` may give for `x`.
pub open spec fn unary_result<K: Fn(u64) -> u64>(
    kernel: K,
    x: u64,
    dtype: NpyType,
    stored: u64,
) -> bool {
    exists|y: u64| call_ensures(kernel, (x,), y) && stored == #[trigger] stored_bits(y, dtype)
}

/// Whether `stored` is what an element of the given kind keeps of
/// something that `kernel` may give for `x` and `y`.
pub open spec fn binary_result<K: Fn(u64, u64) -> u64>(
    kernel: K,
    x: u64,
    y: u64,
    dtype: NpyType,
    stored: u64,
) -> bool {
    exists|z: u64| call_ensures(kernel, (x, y), z) && stored == #[trigger] stored_bits(z, dtype)
}

/// Applies `kernel` to every element of `input` and stores what it gives
/// in `output`, element by element.
///
/// `output` must have the shape of `input`, else the shapes do not match,
/// and must be packed, else it is refused as an invalid shape; it is left
/// as it is where it is refused.
pub fn unary_loop_into<K: Fn(u64) -> u64>(input: &Array, output: &mut Array, kernel: K) -> (result:
    Result<(), ArrayError>)
    requires
        forall|x: u64| x < capacity(input@.itemsize()) ==> call_requires(kernel, (x,)),
    ensures
        final(output)@.shape == old(output)@.shape,
        final(output)@.dtype == old(output)@.dtype,
        final(output).is_packed() == old(output).is_packed(),
        match result {
            Ok(_) => {
                &&& old(output)@.shape == input@.shape
                &&& old(output).is_packed()
                &&& final(output)@.wf()
                &&& forall|k: int|
                    0 <= k < final(output)@.elements.len() ==> #[trigger] unary_result(
                        kernel,
                        input@.elements[k],
                        final(output)@.dtype,
                        final(output)@.elements[k],
                    )
            },
            Err(e) => {
                &&& final(output)@ == old(output)@
                &&& final(output).spec_bytes() == old(output).spec_bytes()
                &&& if old(output)@.shape != input@.shape {
                    e == ArrayError::ShapeMismatch
                } else {
                    e == ArrayError::InvalidShape && !old(output).is_packed()
                }
            },
        },
{
    if !same_shape(output.shape(), input.shape()) {
        return Err(ArrayError::ShapeMismatch);
    }
    if !output.is_c_contiguous() {
        return Err(ArrayError::InvalidShape);
    }
    let size: usize = input.size();
    let ghost kind = output@.dtype;
    let ghost mut raw: Seq<u64> = Seq::empty();
    let mut k: usize = 0;
    while k < size
        invariant
            k <= size,
            size == input@.elements.len(),
            input@.wf(),
            output@.shape == input@.shape,
            output@.shape == old(output)@.shape,
            output@.dtype == kind,
            output@.elements.len() == size,
            output.is_packed(),
            output@.wf(),
            forall|x: u64| x < capacity(input@.itemsize()) ==> call_requires(kernel, (x,)),
            raw.len() == k,
            forall|j: int|
                0 <= j < k ==> call_ensures(kernel, (input@.elements[j],), #[trigger] raw[j]),
            forall|j: int|
                0 <= j < k ==> #[trigger] output@.elements[j] == stored_bits(raw[j], kind),
        decreases size - k,
    {
        let x: u64 = input.element(k);
        let y: u64 = kernel(x);
        let ghost before = output@.elements;
        output.put(k, y);
        proof {
            raw = raw.push(y);
            lemma_capacity_values();
            assert forall|j: int| 0 <= j < k + 1 implies #[trigger] output@.elements[j]
                == stored_bits(raw[j], kind) by {
                if j < k {
                    assert(output@.elements[j] == before[j]);
                }
            }
        }
        k += 1;
    }
    proof {
        assert forall|j: int| 0 <= j < output@.elements.len() implies #[trigger] unary_result(
            kernel,
            input@.elements[j],
            kind,
            output@.elements[j],
        ) by {
            let y = raw[j];
            assert(call_ensures(kernel, (input@.elements[j],), y));
            assert(output@.elements[j] == stored_bits(y, kind));
        }
    }
    Ok(())
}

/// Applies `kernel` to every element of `input`.
///
/// The result is a new packed array of the shape of `input` and of element
/// type `out_dtype`. Element number `k` of it holds what `kernel` gave for
/// element number `k` of `input`.
pub fn unary_loop<K: Fn(u64) -> u64>(input: &Array, out_dtype: DType, kernel: K) -> (result: Result<
    Array,
    ArrayError,
>)
    requires
        forall|x: u64| x < capacity(input@.itemsize()) ==> call_requires(kernel, (x,)),
    ensures
        match result {
            Ok(out) => {
                &&& can_allocate(input@.shape, out_dtype.kind())
                &&& out@.shape == input@.shape
                &&& out@.dtype == out_dtype.kind()
                &&& out@.wf()
                &&& out.is_packed()
                &&& forall|k: int|
                    0 <= k < out@.elements.len() ==> #[trigger] unary_result(
                        kernel,
                        input@.elements[k],
                        out_dtype.kind(),
                        out@.elements[k],
                    )
            },
            Err(e) => e == ArrayError::OutOfMemory && !can_allocate(input@.shape, out_dtype.kind()),
        },
{
    let mut out: Array = match Array::new(copy_shape(input.shape()), out_dtype) {
        Ok(out) => out,
        Err(e) => {
            return Err(e);
        },
    };
    match unary_loop_into(input, &mut out, kernel) {
        Ok(_) => Ok(out),
        Err(_) => Err(ArrayError::OutOfMemory),
    }
}

/// The array that holds, for every position of the common shape of two
/// arrays, what `f` makes of the two elements that broadcasting reads
/// there.
pub open spec fn elementwise_view(
    left: ArrayView,
    right: ArrayView,
    dtype: NpyType,
    f: spec_fn(u64, u64) -> u64,
) -> ArrayView {
    let shape = broadcast_shape(left.shape, right.shape);
    ArrayView {
        shape,
        dtype,
        elements: Seq::new(
            shape_product(shape) as nat,
            |k: int|
                f(
                    left.elements[broadcast_source(k, shape, left.shape)],
                    right.elements[broadcast_source(k, shape, right.shape)],
                ),
        ),
    }
}

/// Applies `kernel` to every pair of elements of two arrays that are
/// broadcast together.
///
/// The result is a new packed array of the common shape of the two arrays
/// and of element type `out_dtype`. Its element number `k` holds what
/// `kernel` gave for the two elements that broadcasting reads at `k`:
/// those that [`broadcast_source`] names. Shapes that cannot be broadcast
/// together are an invalid shape.
pub fn binary_loop<K: Fn(u64, u64) -> u64>(
    left: &Array,
    right: &Array,
    out_dtype: DType,
    kernel: K,
) -> (result: Result<Array, ArrayError>)
    requires
        forall|x: u64, y: u64|
            x < capacity(left@.itemsize()) && y < capacity(right@.itemsize()) ==> call_requires(
                kernel,
                (x, y),
            ),
    ensures
        match result {
            Ok(out) => {
                &&& broadcast_shapes_spec(left@.shape, right@.shape) == Some(out@.shape)
                &&& can_allocate(out@.shape, out_dtype.kind())
                &&& out@.dtype == out_dtype.kind()
                &&& out@.wf()
                &&& out.is_packed()
                &&& forall|k: int|
                    0 <= k < out@.elements.len() ==> #[trigger] binary_result(
                        kernel,
                        left@.elements[broadcast_source(k, out@.shape, left@.shape)],
                        right@.elements[broadcast_source(k, out@.shape, right@.shape)],
                        out_dtype.kind(),
                        out@.elements[k],
                    )
            },
            Err(e) => match broadcast_shapes_spec(left@.shape, right@.shape) {
                None => e == ArrayError::InvalidShape,
                Some(shape) => e == ArrayError::OutOfMemory && !can_allocate(
                    shape,
                    out_dtype.kind(),
                ),
            },
        },
{
    let left_shape: &[i64] = left.shape();
    let right_shape: &[i64] = right.shape();
    let out_shape: Vec<i64> = match broadcast_shapes(left_shape, right_shape) {
        Ok(shape) => shape,
        Err(_) => {
            return Err(ArrayError::InvalidShape);
        },
    };
    let left_strides: &[i64] = left.strides();
    let right_strides: &[i64] = right.strides();
    proof {
        lemma_broadcast_covers(left@.shape, right@.shape);
    }
    let left_walk: Vec<i64> = match broadcast_strides(
        left_shape,
        left_strides,
        out_shape.as_slice(),
    ) {
        Ok(walk) => walk,
        Err(_) => {
            return Err(ArrayError::InvalidShape);
        },
    };
    let right_walk: Vec<i64> = match broadcast_strides(
        right_shape,
        right_strides,
        out_shape.as_slice(),
    ) {
        Ok(walk) => walk,
        Err(_) => {
            return Err(ArrayError::InvalidShape);
        },
    };
    let mut out: Array = match Array::new(copy_shape(out_shape.as_slice()), out_dtype) {
        Ok(out) => out,
        Err(e) => {
            return Err(e);
        },
    };
    let size: usize = out.size();
    let left_base: usize = left.offset();
    let right_base: usize = right.offset();
    let ghost mut raw: Seq<u64> = Seq::empty();
    let mut k: usize = 0;
    proof {
        if size > 0 {
            lemma_positive_iff_nonempty(out_shape@);
        }
    }
    while k < size
        invariant
            k <= size,
            size == shape_product(out_shape@),
            size > 0 ==> all_positive(out_shape@),
            left_shape@ == left@.shape,
            right_shape@ == right@.shape,
            left_strides@ == left.spec_strides(),
            right_strides@ == right.spec_strides(),
            left_strides.len() == left_shape.len(),
            right_strides.len() == right_shape.len(),
            crate::broadcasting::broadcasts_to(left_shape@, out_shape@),
            crate::broadcasting::broadcasts_to(right_shape@, out_shape@),
            left_walk@ == broadcast_strides_spec(left_shape@, left_strides@, out_shape@),
            right_walk@ == broadcast_strides_spec(right_shape@, right_strides@, out_shape@),
            left_base == left.spec_offset(),
            right_base == right.spec_offset(),
            left@.size() > 0 ==> left.holds(
                left.spec_offset() + min_extent(left@.shape, left.spec_strides()),
            ) && left.holds(left.spec_offset() + max_extent(left@.shape, left.spec_strides())),
            left@.size() > 0 ==> 0 <= left.spec_offset() + min_extent(
                left@.shape,
                left.spec_strides(),
            ) && left.spec_offset() + max_extent(left@.shape, left.spec_strides()) <= usize::MAX,
            right@.size() > 0 ==> right.holds(
                right.spec_offset() + min_extent(right@.shape, right.spec_strides()),
            ) && right.holds(right.spec_offset() + max_extent(right@.shape, right.spec_strides())),
            right@.size() > 0 ==> 0 <= right.spec_offset() + min_extent(
                right@.shape,
                right.spec_strides(),
            ) && right.spec_offset() + max_extent(right@.shape, right.spec_strides())
                <= usize::MAX,
            left@.wf(),
            right@.wf(),
            out@.shape == out_shape@,
            out@.dtype == out_dtype.kind(),
            out@.elements.len() == size,
            out.is_packed(),
            out@.wf(),
            forall|x: u64, y: u64|
                x < capacity(left@.itemsize()) && y < capacity(right@.itemsize())
                    ==> call_requires(kernel, (x, y)),
            raw.len() == k,
            forall|j: int|
                0 <= j < k ==> call_ensures(
                    kernel,
                    (
                        left@.elements[broadcast_source(j, out_shape@, left@.shape)],
                        right@.elements[broadcast_source(j, out_shape@, right@.shape)],
                    ),
                    #[trigger] raw[j],
                ),
            forall|j: int|
                0 <= j < k ==> #[trigger] out@.elements[j] == stored_bits(
                    raw[j],
                    out_dtype.kind(),
                ),
        decreases size - k,
    {
        let ghost left_source = broadcast_source(k as int, out_shape@, left@.shape);
        let ghost right_source = broadcast_source(k as int, out_shape@, right@.shape);
        proof {
            lemma_broadcast_walk(k as int, left_shape@, left_strides@, out_shape@);
            lemma_broadcast_walk(k as int, right_shape@, right_strides@, out_shape@);
            lemma_product_positive(left_shape@);
            lemma_product_positive(right_shape@);
            lemma_strided_offset_bounds(left_source, left_shape@, left_strides@);
            lemma_strided_offset_bounds(right_source, right_shape@, right_strides@);
            left.lemma_element(left_source);
            right.lemma_element(right_source);
            left.lemma_holds_between(
                left.spec_offset() + min_extent(left@.shape, left.spec_strides()),
                left.spec_offset() + max_extent(left@.shape, left.spec_strides()),
                left.spec_offset() + strided_offset(left_source, left_shape@, left_strides@),
            );
            right.lemma_holds_between(
                right.spec_offset() + min_extent(right@.shape, right.spec_strides()),
                right.spec_offset() + max_extent(right@.shape, right.spec_strides()),
                right.spec_offset() + strided_offset(right_source, right_shape@, right_strides@),
            );
        }
        let left_at: usize = offset_of(left_base, k, out_shape.as_slice(), left_walk.as_slice());
        let right_at: usize = offset_of(right_base, k, out_shape.as_slice(), right_walk.as_slice());
        let x: u64 = left.read_bits(left_at);
        let y: u64 = right.read_bits(right_at);
        let z: u64 = kernel(x, y);
        let ghost before = out@.elements;
        out.put(k, z);
        proof {
            raw = raw.push(z);
            lemma_capacity_values();
            assert forall|j: int| 0 <= j < k + 1 implies #[trigger] out@.elements[j]
                == stored_bits(raw[j], out_dtype.kind()) by {
                if j < k {
                    assert(out@.elements[j] == before[j]);
                }
            }
        }
        k += 1;
    }
    proof {
        assert forall|j: int| 0 <= j < out@.elements.len() implies #[trigger] binary_result(
            kernel,
            left@.elements[broadcast_source(j, out@.shape, left@.shape)],
            right@.elements[broadcast_source(j, out@.shape, right@.shape)],
            out_dtype.kind(),
            out@.elements[j],
        ) by {
            let z = raw[j];
            assert(call_ensures(
                kernel,
                (
                    left@.elements[broadcast_source(j, out@.shape, left@.shape)],
                    right@.elements[broadcast_source(j, out@.shape, right@.shape)],
                ),
                z,
            ));
            assert(out@.elements[j] == stored_bits(z, out_dtype.kind()));
        }
    }
    Ok(out)
}

} // verus!
