//! Masked arrays: an array together with a mask that marks some of its
//! elements as not valid.

use crate::array::{Array, ArrayError, ArrayView};
use crate::shape::same_shape;
use crate::types::{DType, NpyType};
use vstd::prelude::*;

verus! {

/// An array with a mask of the same shape. An element is masked where the
/// mask is true, that is not zero; a masked element is there, but not
/// valid.
#[derive(Debug)]
pub struct MaskedArray {
    data: Array,
    mask: Array,
}

/// Whether `mask` is a mask for `data`: an array of truth values of the
/// same shape.
pub open spec fn is_mask_for(mask: ArrayView, data: ArrayView) -> bool {
    mask.dtype == NpyType::Bool && mask.shape == data.shape
}

/// How many entries of a mask are true.
pub open spec fn count_true(mask: Seq<u64>) -> nat
    decreases mask.len(),
{
    if mask.len() == 0 {
        0
    } else {
        count_true(mask.drop_last()) + if mask.last() != 0 {
            1nat
        } else {
            0nat
        }
    }
}

impl MaskedArray {
    #[verifier::type_invariant]
    spec fn well_formed(self) -> bool {
        is_mask_for(self.mask@, self.data@) && self.mask@.wf() && self.data@.wf()
    }

    /// The view of the data.
    pub closed spec fn data_view(&self) -> ArrayView {
        self.data@
    }

    /// The view of the mask.
    pub closed spec fn mask_view(&self) -> ArrayView {
        self.mask@
    }

    /// Puts an array and a mask together. A mask that does not hold truth
    /// values is a type mismatch, and after that a mask of another shape
    /// than the data a shape mismatch.
    pub fn new(data: Array, mask: Array) -> (result: Result<MaskedArray, ArrayError>)
        ensures
            match result {
                Ok(masked) => {
                    &&& is_mask_for(mask@, data@)
                    &&& masked.data_view() == data@
                    &&& masked.mask_view() == mask@
                },
                Err(e) => {
                    ||| e == ArrayError::TypeMismatch && mask@.dtype != NpyType::Bool
                    ||| e == ArrayError::ShapeMismatch && mask@.dtype == NpyType::Bool
                        && mask@.shape != data@.shape
                },
            },
    {
        if mask.dtype().type_() != NpyType::Bool {
            return Err(ArrayError::TypeMismatch);
        }
        if !same_shape(mask.shape(), data.shape()) {
            return Err(ArrayError::ShapeMismatch);
        }
        Ok(MaskedArray { data, mask })
    }

    /// The data.
    pub fn data(&self) -> (data: &Array)
        ensures
            data@ == self.data_view(),
    {
        &self.data
    }

    /// The mask: an array of truth values of the shape of the data.
    pub fn mask(&self) -> (mask: &Array)
        ensures
            mask@ == self.mask_view(),
            is_mask_for(self.mask_view(), self.data_view()),
    {
        proof {
            use_type_invariant(self);
        }
        &self.mask
    }

    /// The size of each dimension.
    pub fn shape(&self) -> (shape: &[i64])
        ensures
            shape@ == self.data_view().shape,
            shape@ == self.mask_view().shape,
    {
        proof {
            use_type_invariant(self);
        }
        self.data.shape()
    }

    /// The number of elements, masked or not.
    pub fn size(&self) -> (size: usize)
        ensures
            size == self.data_view().elements.len(),
            size == self.mask_view().elements.len(),
    {
        proof {
            use_type_invariant(self);
        }
        self.data.size()
    }

    /// The number of dimensions.
    pub fn ndim(&self) -> (ndim: usize)
        ensures
            ndim == self.data_view().shape.len(),
    {
        self.data.ndim()
    }

    /// Whether element number `k` in row-major order is masked, or an
    /// index error where there is no such element.
    pub fn is_masked(&self, k: usize) -> (result: Result<bool, ArrayError>)
        ensures
            match result {
                Ok(masked) => k < self.mask_view().elements.len() && masked == (
                self.mask_view().elements[k as int] != 0),
                Err(e) => e == ArrayError::IndexError && k >= self.mask_view().elements.len(),
            },
    {
        match self.mask.get(k) {
            Ok(bits) => Ok(bits != 0),
            Err(e) => Err(e),
        }
    }

    /// The number of elements that are masked.
    pub fn count_masked(&self) -> (count: usize)
        ensures
            count == count_true(self.mask_view().elements),
    {
        let size: usize = self.mask.size();
        let ghost truths = self.mask@.elements;
        let mut count: usize = 0;
        let mut i: usize = 0;
        proof {
            assert(truths.take(0) =~= Seq::<u64>::empty());
        }
        while i < size
            invariant
                i <= size,
                size == truths.len(),
                truths == self.mask@.elements,
                count == count_true(truths.take(i as int)),
                count <= i,
            decreases size - i,
        {
            proof {
                assert(truths.take(i + 1).drop_last() =~= truths.take(i as int));
            }
            let truth: u64 = self.mask.element(i);
            if truth != 0 {
                count += 1;
            }
            i += 1;
        }
        proof {
            assert(truths.take(size as int) =~= truths);
        }
        count
    }
}

/// Puts an array and a mask together.
pub fn masked_array(data: Array, mask: Array) -> (result: Result<MaskedArray, ArrayError>)
    ensures
        match result {
            Ok(masked) => {
                &&& is_mask_for(mask@, data@)
                &&& masked.data_view() == data@
                &&& masked.mask_view() == mask@
            },
            Err(e) => {
                ||| e == ArrayError::TypeMismatch && mask@.dtype != NpyType::Bool
                ||| e == ArrayError::ShapeMismatch && mask@.dtype == NpyType::Bool && mask@.shape
                    != data@.shape
            },
        },
{
    MaskedArray::new(data, mask)
}

/// Whether `k` is one of the positions.
pub open spec fn names_position(positions: Seq<usize>, k: int) -> bool {
    exists|i: int| #![trigger positions[i]] 0 <= i < positions.len() && positions[i] == k
}

/// Masks the elements of an array at the given positions, counted in
/// row-major order, and no others. A position that names no element is an
/// index error; a mask that cannot be allocated is out of memory.
pub fn masked_array_with_indices(data: Array, indices: &[usize]) -> (result: Result<
    MaskedArray,
    ArrayError,
>)
    ensures
        match result {
            Ok(masked) => {
                &&& masked.data_view() == data@
                &&& is_mask_for(masked.mask_view(), data@)
                &&& masked.mask_view().elements.len() == data@.elements.len()
                &&& forall|i: int| 0 <= i < indices.len() ==> indices[i] < data@.elements.len()
                &&& forall|k: int|
                    0 <= k < data@.elements.len() ==> #[trigger] masked.mask_view().elements[k]
                        == if names_position(indices@, k) {
                        1u64
                    } else {
                        0u64
                    }
            },
            Err(e) => {
                ||| e == ArrayError::OutOfMemory && !crate::array::can_allocate(
                    data@.shape,
                    NpyType::Bool,
                )
                ||| e == ArrayError::IndexError && exists|i: int|
                    #![trigger indices[i]]
                    0 <= i < indices.len() && indices[i] >= data@.elements.len()
            },
        },
{
    let size: usize = data.size();
    let mut mask: Array = match Array::new(
        crate::shape::copy_shape(data.shape()),
        DType::new(NpyType::Bool),
    ) {
        Ok(mask) => mask,
        Err(_) => {
            return Err(ArrayError::OutOfMemory);
        },
    };
    let n: usize = indices.len();
    let mut i: usize = 0;
    while i < n
        invariant
            n == indices.len(),
            i <= n,
            size == data@.elements.len(),
            mask@.shape == data@.shape,
            mask@.dtype == NpyType::Bool,
            mask@.elements.len() == size,
            mask.is_packed(),
            mask@.wf(),
            forall|j: int| 0 <= j < i ==> indices[j] < size,
            forall|k: int|
                0 <= k < size ==> #[trigger] mask@.elements[k] == if names_position(
                    indices@.take(i as int),
                    k,
                ) {
                    1u64
                } else {
                    0u64
                },
        decreases n - i,
    {
        let position: usize = indices[i];
        if position >= size {
            return Err(ArrayError::IndexError);
        }
        let ghost before = mask@.elements;
        let ghost seen = indices@.take(i as int);
        let ghost grown = indices@.take(i + 1);
        mask.put(position, 1);
        proof {
            crate::scalar::lemma_capacity_values();
            assert(mask@.elements[position as int] == 1nat % crate::scalar::capacity(1));
            assert(grown.drop_last() =~= seen);
            assert forall|k: int| 0 <= k < size implies #[trigger] mask@.elements[k]
                == if names_position(grown, k) {
                1u64
            } else {
                0u64
            } by {
                if k == position {
                    assert(grown[i as int] == k);
                } else {
                    assert(mask@.elements[k] == before[k]);
                    if names_position(seen, k) {
                        let w = choose|w: int| 0 <= w < seen.len() && seen[w] == k;
                        assert(grown[w] == k);
                    }
                    if names_position(grown, k) {
                        let w = choose|w: int| 0 <= w < grown.len() && grown[w] == k;
                        assert(w < i);
                        assert(seen[w] == k);
                    }
                }
            }
        }
        i += 1;
    }
    proof {
        assert(indices@.take(n as int) =~= indices@);
    }
    MaskedArray::new(data, mask)
}

/// A mask that is true at every position marks every element.
pub proof fn lemma_count_all_true(mask: Seq<u64>)
    requires
        forall|i: int| 0 <= i < mask.len() ==> mask[i] != 0,
    ensures
        count_true(mask) == mask.len(),
    decreases mask.len(),
{
    if mask.len() > 0 {
        lemma_count_all_true(mask.drop_last());
    }
}

/// A mask that is false at every position marks no element.
pub proof fn lemma_count_all_false(mask: Seq<u64>)
    requires
        forall|i: int| 0 <= i < mask.len() ==> mask[i] == 0,
    ensures
        count_true(mask) == 0,
    decreases mask.len(),
{
    if mask.len() > 0 {
        lemma_count_all_false(mask.drop_last());
    }
}

} // verus!
