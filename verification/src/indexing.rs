//! Indexing: one element by its coordinates, elements by an array of
//! positions, elements by a mask.

use crate::array::{Array, ArrayError, ArrayView, can_allocate};
use crate::layout::{flat_index, flat_index_of, index_offset, lemma_flat_index, valid_index};
use crate::scalar::{signed_value, to_signed};
use crate::shape::{copy_shape, same_shape, shape_product};
use crate::types::{DType, is_integer, itemsize_of, NpyType};
use crate::ufunc::loop_exec::lemma_stored_fits;
use vstd::prelude::*;

verus! {

/// Finds the element of `array` that `indices` names.
///
/// The index must have one component for each dimension, each from 0 up to
/// but not including the size of the dimension; a negative component is out
/// of range. The result is the place of the element in the array's buffer,
/// in bytes, to be read with [`Array::read`].
pub fn index_array(array: &Array, indices: &[i64]) -> (result: Result<usize, ArrayError>)
    ensures
        match result {
            Ok(at) => {
                &&& valid_index(indices@, array@.shape)
                &&& at == array.spec_offset() + index_offset(indices@, array.spec_strides())
                &&& array.holds(at as int)
                &&& array.bits_at(at as int) == array@.elements[flat_index(indices@, array@.shape)]
            },
            Err(e) => e == ArrayError::IndexError && !valid_index(indices@, array@.shape),
        },
{
    let size: usize = array.size();
    let strides: &[i64] = array.strides();
    match flat_index_of(indices, array.shape()) {
        None => Err(ArrayError::IndexError),
        Some(k) => {
            proof {
                lemma_flat_index(indices@, array@.shape, array.spec_strides());
            }
            Ok(array.locate(k))
        },
    }
}

/// The position that an entry of an index array stands for in a sequence
/// of `size` elements: a negative entry counts from the end.
pub open spec fn wrapped_position(entry: int, size: int) -> int {
    if entry < 0 {
        entry + size
    } else {
        entry
    }
}

/// The entry of an index array that a bit pattern of its kind stands for.
pub open spec fn index_entry(bits: u64, kind: NpyType) -> int {
    signed_value(bits as nat, itemsize_of(kind) as nat)
}

/// Whether every entry of the index array names one of `size` elements.
pub open spec fn positions_in_range(indices: ArrayView, size: int) -> bool {
    forall|k: int|
        0 <= k < indices.elements.len() ==> 0 <= wrapped_position(
            index_entry(#[trigger] indices.elements[k], indices.dtype),
            size,
        ) < size
}

/// The array of the elements that the entries of `indices` name, in the
/// order and as often as they are named, in the shape of `indices`.
pub open spec fn gathered_view(array: ArrayView, indices: ArrayView) -> ArrayView {
    ArrayView {
        shape: indices.shape,
        dtype: array.dtype,
        elements: Seq::new(
            indices.elements.len(),
            |k: int|
                array.elements[wrapped_position(
                    index_entry(indices.elements[k], indices.dtype),
                    array.elements.len() as int,
                )],
        ),
    }
}

/// What gathering comes to.
///
/// An index array whose elements are not signed integers is a type
/// mismatch; after that, a result too large to allocate is out of memory;
/// after that, an entry that names no element is an index error.
pub open spec fn gather_spec(array: ArrayView, indices: ArrayView) -> Result<
    ArrayView,
    ArrayError,
> {
    if !is_integer(indices.dtype) {
        Err(ArrayError::TypeMismatch)
    } else if !can_allocate(indices.shape, array.dtype) {
        Err(ArrayError::OutOfMemory)
    } else if !positions_in_range(indices, array.elements.len() as int) {
        Err(ArrayError::IndexError)
    } else {
        Ok(gathered_view(array, indices))
    }
}

/// Selects elements of `array` by an array of positions.
///
/// `array` is taken as the flat sequence of its elements in row-major
/// order, whatever its shape. Each entry of `indices` names one position in
/// that sequence; a negative entry counts from the end, so that -1 names
/// the last element. The result has the shape of `indices` and the element
/// type of `array`. Entries may repeat and come in any order.
pub fn fancy_index_array(array: &Array, indices: &Array) -> (result: Result<Array, ArrayError>)
    ensures
        match result {
            Ok(out) => {
                &&& gather_spec(array@, indices@) is Ok
                &&& out@ == gathered_view(array@, indices@)
                &&& out@.wf()
                &&& out.is_packed()
            },
            Err(e) => gather_spec(array@, indices@) == Err::<ArrayView, ArrayError>(e),
        },
{
    let index_kind: NpyType = indices.dtype().type_();
    if !index_kind.is_integer() {
        return Err(ArrayError::TypeMismatch);
    }
    let width: usize = indices.itemsize();
    let size: usize = array.size();
    let count: usize = indices.size();
    let dtype: DType = *array.dtype();
    let mut out: Array = match Array::new(copy_shape(indices.shape()), dtype) {
        Ok(out) => out,
        Err(e) => {
            return Err(e);
        },
    };
    let ghost expected = gathered_view(array@, indices@);
    let mut k: usize = 0;
    while k < count
        invariant
            k <= count,
            count == indices@.elements.len(),
            size == array@.elements.len(),
            array@.wf(),
            indices@.wf(),
            is_integer(indices@.dtype),
            index_kind == indices@.dtype,
            width == itemsize_of(index_kind),
            1 <= width <= 8,
            out@.shape == indices@.shape,
            out@.dtype == array@.dtype,
            out@.elements.len() == count,
            out.is_packed(),
            out@.wf(),
            can_allocate(indices@.shape, array@.dtype),
            expected == gathered_view(array@, indices@),
            forall|j: int|
                0 <= j < k ==> 0 <= wrapped_position(
                    index_entry(#[trigger] indices@.elements[j], indices@.dtype),
                    size as int,
                ) < size,
            forall|j: int| 0 <= j < k ==> #[trigger] out@.elements[j] == expected.elements[j],
        decreases count - k,
    {
        let entry_bits: u64 = indices.element(k);
        let entry: i64 = to_signed(entry_bits, width);
        let position: i128 = if entry < 0 {
            entry as i128 + size as i128
        } else {
            entry as i128
        };
        if position < 0 || position >= size as i128 {
            proof {
                assert(!(0 <= wrapped_position(
                    index_entry(indices@.elements[k as int], indices@.dtype),
                    size as int,
                ) < size));
            }
            return Err(ArrayError::IndexError);
        }
        let bits: u64 = array.element(position as usize);
        let ghost before = out@.elements;
        out.put(k, bits);
        proof {
            lemma_stored_fits(bits, array@.dtype);
            assert forall|j: int| 0 <= j < k + 1 implies #[trigger] out@.elements[j]
                == expected.elements[j] by {
                if j < k {
                    assert(out@.elements[j] == before[j]);
                }
            }
        }
        k += 1;
    }
    proof {
        assert(out@ =~= expected);
    }
    Ok(out)
}

/// The elements at which the mask is true, in their order. A mask entry is
/// true where it is not zero.
pub open spec fn compressed(elements: Seq<u64>, mask: Seq<u64>) -> Seq<u64>
    decreases elements.len(),
{
    if elements.len() == 0 || mask.len() == 0 {
        Seq::empty()
    } else if mask.last() != 0 {
        compressed(elements.drop_last(), mask.drop_last()).push(elements.last())
    } else {
        compressed(elements.drop_last(), mask.drop_last())
    }
}

/// The array of one dimension that holds the elements of `array` at which
/// `mask` is true.
pub open spec fn compressed_view(array: ArrayView, mask: ArrayView) -> ArrayView {
    ArrayView {
        shape: seq![compressed(array.elements, mask.elements).len() as i64],
        dtype: array.dtype,
        elements: compressed(array.elements, mask.elements),
    }
}

/// What selecting by a mask comes to.
///
/// A mask whose elements are not truth values is a type mismatch; after
/// that, a mask of another shape than the array is a shape mismatch; after
/// that, a result too large to allocate is out of memory.
pub open spec fn compress_spec(array: ArrayView, mask: ArrayView) -> Result<ArrayView, ArrayError> {
    if mask.dtype != NpyType::Bool {
        Err(ArrayError::TypeMismatch)
    } else if mask.shape != array.shape {
        Err(ArrayError::ShapeMismatch)
    } else if compressed(array.elements, mask.elements).len() > i64::MAX || !can_allocate(
        compressed_view(array, mask).shape,
        array.dtype,
    ) {
        Err(ArrayError::OutOfMemory)
    } else {
        Ok(compressed_view(array, mask))
    }
}

/// No more elements are kept than there are.
pub proof fn lemma_compressed_len(elements: Seq<u64>, mask: Seq<u64>)
    ensures
        compressed(elements, mask).len() <= elements.len(),
    decreases elements.len(),
{
    if elements.len() > 0 && mask.len() > 0 {
        lemma_compressed_len(elements.drop_last(), mask.drop_last());
    }
}

/// A mask that is false everywhere keeps nothing.
pub proof fn lemma_compress_none(elements: Seq<u64>, mask: Seq<u64>)
    requires
        forall|i: int| 0 <= i < mask.len() ==> mask[i] == 0,
    ensures
        compressed(elements, mask) == Seq::<u64>::empty(),
    decreases elements.len(),
{
    if elements.len() > 0 && mask.len() > 0 {
        lemma_compress_none(elements.drop_last(), mask.drop_last());
    }
}

/// A mask that is true everywhere keeps every element, in order.
pub proof fn lemma_compress_all(elements: Seq<u64>, mask: Seq<u64>)
    requires
        mask.len() == elements.len(),
        forall|i: int| 0 <= i < mask.len() ==> mask[i] != 0,
    ensures
        compressed(elements, mask) == elements,
    decreases elements.len(),
{
    if elements.len() > 0 {
        lemma_compress_all(elements.drop_last(), mask.drop_last());
        assert(elements.drop_last().push(elements.last()) =~= elements);
    } else {
        assert(compressed(elements, mask) =~= elements);
    }
}

/// Selects the elements of `array` at which `mask` is true.
///
/// The mask must hold truth values and have the shape of `array`. The
/// result has one dimension, as long as there are true entries in the
/// mask, and holds the elements at those entries in row-major order.
pub fn boolean_index_array(array: &Array, mask: &Array) -> (result: Result<Array, ArrayError>)
    ensures
        match result {
            Ok(out) => {
                &&& compress_spec(array@, mask@) is Ok
                &&& out@ == compressed_view(array@, mask@)
                &&& out@.wf()
                &&& out.is_packed()
            },
            Err(e) => compress_spec(array@, mask@) == Err::<ArrayView, ArrayError>(e),
        },
{
    if mask.dtype().type_() != NpyType::Bool {
        return Err(ArrayError::TypeMismatch);
    }
    if !same_shape(mask.shape(), array.shape()) {
        return Err(ArrayError::ShapeMismatch);
    }
    let size: usize = array.size();
    let mask_size: usize = mask.size();
    let dtype: DType = *array.dtype();
    let ghost elements = array@.elements;
    let ghost truths = mask@.elements;
    let mut count: usize = 0;
    let mut i: usize = 0;
    proof {
        assert(elements.take(0) =~= Seq::<u64>::empty());
    }
    while i < size
        invariant
            i <= size,
            size == elements.len(),
            size == truths.len(),
            elements == array@.elements,
            truths == mask@.elements,
            count == compressed(elements.take(i as int), truths.take(i as int)).len(),
            count <= i,
        decreases size - i,
    {
        proof {
            assert(elements.take(i + 1).drop_last() =~= elements.take(i as int));
            assert(truths.take(i + 1).drop_last() =~= truths.take(i as int));
        }
        let truth: u64 = mask.element(i);
        if truth != 0 {
            count += 1;
        }
        i += 1;
    }
    proof {
        assert(elements.take(size as int) =~= elements);
        assert(truths.take(size as int) =~= truths);
    }
    if count as u64 > i64::MAX as u64 {
        return Err(ArrayError::OutOfMemory);
    }
    let mut shape: Vec<i64> = Vec::with_capacity(1);
    shape.push(count as i64);
    assert(shape@ =~= compressed_view(array@, mask@).shape);
    let mut out: Array = match Array::new(shape, dtype) {
        Ok(out) => out,
        Err(e) => {
            return Err(e);
        },
    };
    let ghost expected = compressed(elements, truths);
    let mut kept: usize = 0;
    let mut j: usize = 0;
    proof {
        assert(shape_product(out@.shape) == count) by {
            assert(out@.shape.drop_last() =~= Seq::<i64>::empty());
            reveal_with_fuel(shape_product, 2);
        }
    }
    while j < size
        invariant
            j <= size,
            size == elements.len(),
            size == truths.len(),
            elements == array@.elements,
            truths == mask@.elements,
            array@.wf(),
            expected == compressed(elements, truths),
            count == expected.len(),
            out@.dtype == array@.dtype,
            out@.shape == compressed_view(array@, mask@).shape,
            out@.elements.len() == count,
            out.is_packed(),
            out@.wf(),
            kept == compressed(elements.take(j as int), truths.take(j as int)).len(),
            kept <= count,
            forall|m: int|
                0 <= m < kept ==> #[trigger] out@.elements[m] == compressed(
                    elements.take(j as int),
                    truths.take(j as int),
                )[m],
        decreases size - j,
    {
        proof {
            assert(elements.take(j + 1).drop_last() =~= elements.take(j as int));
            assert(truths.take(j + 1).drop_last() =~= truths.take(j as int));
            lemma_compressed_prefix(elements, truths, j + 1);
        }
        let truth: u64 = mask.element(j);
        if truth != 0 {
            let bits: u64 = array.element(j);
            let ghost before = out@.elements;
            out.put(kept, bits);
            proof {
                lemma_stored_fits(bits, array@.dtype);
                assert forall|m: int| 0 <= m < kept + 1 implies #[trigger] out@.elements[m]
                    == compressed(elements.take(j + 1), truths.take(j + 1))[m] by {
                    if m < kept {
                        assert(out@.elements[m] == before[m]);
                    }
                }
            }
            kept += 1;
        }
        j += 1;
    }
    proof {
        assert(elements.take(size as int) =~= elements);
        assert(truths.take(size as int) =~= truths);
        assert(out@.elements =~= expected);
        assert(out@ =~= compressed_view(array@, mask@));
    }
    Ok(out)
}

/// What is kept of a prefix is no longer than what is kept of the whole.
pub proof fn lemma_compressed_prefix(elements: Seq<u64>, mask: Seq<u64>, k: int)
    requires
        elements.len() == mask.len(),
        0 <= k <= elements.len(),
    ensures
        compressed(elements.take(k), mask.take(k)).len() <= compressed(elements, mask).len(),
    decreases elements.len(),
{
    if k == elements.len() {
        assert(elements.take(k) =~= elements);
        assert(mask.take(k) =~= mask);
    } else {
        assert(elements.drop_last().take(k) =~= elements.take(k));
        assert(mask.drop_last().take(k) =~= mask.take(k));
        lemma_compressed_prefix(elements.drop_last(), mask.drop_last(), k);
    }
}

} // verus!
