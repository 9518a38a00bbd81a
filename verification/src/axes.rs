//! Permutations of axes.
//!
//! What an array measures over all its axes, the number of its elements and
//! the reach of its strides, is a product or a sum of one term for each
//! axis. Such a product or sum does not depend on the order of the axes.

use crate::layout::{index_offset, max_extent, min_extent, valid_index};
use crate::shape::{is_permutation, permuted_shape, shape_product};
use vstd::prelude::*;
use vstd::set_lib::{lemma_int_range, lemma_subset_equality, set_int_range};

verus! {

/// The sum of the terms.
pub open spec fn sum_of(terms: Seq<int>) -> int
    decreases terms.len(),
{
    if terms.len() == 0 {
        0
    } else {
        sum_of(terms.drop_last()) + terms.last()
    }
}

/// The product of the factors.
pub open spec fn product_of(factors: Seq<int>) -> int
    decreases factors.len(),
{
    if factors.len() == 0 {
        1
    } else {
        product_of(factors.drop_last()) * factors.last()
    }
}

/// A sequence with its entries in the order of the axes: entry `i` of the
/// result is entry `axes[i]` of the sequence.
pub open spec fn permuted(entries: Seq<int>, axes: Seq<usize>) -> Seq<int> {
    Seq::new(axes.len(), |i: int| entries[axes[i] as int])
}

/// A sum is one of its terms plus the sum of the others; a product is one
/// of its factors times the product of the others.
pub proof fn lemma_take_out(entries: Seq<int>, p: int)
    requires
        0 <= p < entries.len(),
    ensures
        sum_of(entries) == entries[p] + sum_of(entries.remove(p)),
        product_of(entries) == entries[p] * product_of(entries.remove(p)),
    decreases entries.len(),
{
    if p == entries.len() - 1 {
        assert(entries.remove(p) =~= entries.drop_last());
        let x = product_of(entries.drop_last());
        let y = entries.last();
        assert(x * y == y * x) by (nonlinear_arith);
    } else {
        lemma_take_out(entries.drop_last(), p);
        assert(entries.remove(p).drop_last() =~= entries.drop_last().remove(p));
        assert(entries.remove(p).last() == entries.last());
        let x = entries[p];
        let y = product_of(entries.drop_last().remove(p));
        let z = entries.last();
        assert((x * y) * z == x * (y * z)) by (nonlinear_arith);
    }
}

/// A permutation of the axes names every axis.
pub proof fn lemma_permutation_names(axes: Seq<usize>, axis: int) -> (p: int)
    requires
        is_permutation(axes, axes.len()),
        0 <= axis < axes.len(),
    ensures
        0 <= p < axes.len(),
        axes[p] == axis,
{
    let n = axes.len() as int;
    let named = Seq::new(axes.len(), |i: int| axes[i] as int);
    assert(named.no_duplicates()) by {
        assert forall|i: int, j: int| 0 <= i < named.len() && 0 <= j < named.len() && i
            != j implies named[i] != named[j] by {
            if i < j {
                assert(axes[i] != axes[j]);
            } else {
                assert(axes[j] != axes[i]);
            }
        }
    }
    named.unique_seq_to_set();
    lemma_int_range(0, n);
    assert(named.to_set().subset_of(set_int_range(0, n))) by {
        assert forall|v: int| named.to_set().contains(v) implies set_int_range(0, n).contains(
            v,
        ) by {
            let i = choose|i: int| 0 <= i < named.len() && named[i] == v;
            assert(axes[i] < n);
        }
    }
    vstd::seq_lib::seq_to_set_is_finite(named);
    lemma_subset_equality(named.to_set(), set_int_range(0, n));
    assert(set_int_range(0, n).contains(axis));
    assert(named.to_set().contains(axis));
    let p = choose|p: int| 0 <= p < named.len() && named[p] == axis;
    p
}

/// A sum and a product do not depend on the order of their entries.
pub proof fn lemma_order_is_free(entries: Seq<int>, axes: Seq<usize>)
    requires
        is_permutation(axes, entries.len()),
    ensures
        sum_of(permuted(entries, axes)) == sum_of(entries),
        product_of(permuted(entries, axes)) == product_of(entries),
    decreases entries.len(),
{
    let n = entries.len() as int;
    if n == 0 {
        assert(permuted(entries, axes) =~= entries);
    } else {
        let p = lemma_permutation_names(axes, n - 1);
        let others = axes.remove(p);
        let fewer = entries.drop_last();
        assert(is_permutation(others, fewer.len())) by {
            assert forall|i: int| 0 <= i < others.len() implies others[i] < fewer.len() by {
                let source = if i < p {
                    i
                } else {
                    i + 1
                };
                assert(others[i] == axes[source]);
                assert(axes[source] < n);
                if source < p {
                    assert(axes[source] != axes[p]);
                } else {
                    assert(axes[p] != axes[source]);
                }
            }
            assert forall|i: int, j: int| 0 <= i < j < others.len() implies others[i]
                != others[j] by {
                let first = if i < p {
                    i
                } else {
                    i + 1
                };
                let second = if j < p {
                    j
                } else {
                    j + 1
                };
                assert(axes[first] != axes[second]);
            }
        }
        lemma_order_is_free(fewer, others);
        let all = permuted(entries, axes);
        lemma_take_out(all, p);
        assert(all.remove(p) =~= permuted(fewer, others)) by {
            assert forall|i: int| 0 <= i < others.len() implies all.remove(p)[i] == permuted(
                fewer,
                others,
            )[i] by {
                let source = if i < p {
                    i
                } else {
                    i + 1
                };
                assert(others[i] == axes[source]);
                assert(others[i] < fewer.len());
            }
        }
        assert(all[p] == entries.last());
        let x = entries.last();
        let y = product_of(fewer);
        assert(x * y == y * x) by (nonlinear_arith);
    }
}

/// The dimensions of a shape as integers.
pub open spec fn dimensions(shape: Seq<i64>) -> Seq<int> {
    Seq::new(shape.len(), |i: int| shape[i] as int)
}

/// The reach of each axis toward lower addresses.
pub open spec fn low_reaches(shape: Seq<i64>, strides: Seq<i64>) -> Seq<int> {
    Seq::new(
        shape.len(),
        |i: int|
            if strides[i] < 0 {
                (shape[i] - 1) * strides[i]
            } else {
                0
            },
    )
}

/// The reach of each axis toward higher addresses.
pub open spec fn high_reaches(shape: Seq<i64>, strides: Seq<i64>) -> Seq<int> {
    Seq::new(
        shape.len(),
        |i: int|
            if strides[i] > 0 {
                (shape[i] - 1) * strides[i]
            } else {
                0
            },
    )
}

/// Each component of an index times the stride of its axis.
pub open spec fn steps(index: Seq<i64>, strides: Seq<i64>) -> Seq<int> {
    Seq::new(index.len(), |i: int| index[i] * strides[i])
}

/// The number of elements, the extents and the offset of an index are the
/// product and the sums of their terms.
pub proof fn lemma_by_terms(shape: Seq<i64>, strides: Seq<i64>, index: Seq<i64>)
    requires
        shape.len() == strides.len(),
        shape.len() == index.len(),
    ensures
        shape_product(shape) == product_of(dimensions(shape)),
        min_extent(shape, strides) == sum_of(low_reaches(shape, strides)),
        max_extent(shape, strides) == sum_of(high_reaches(shape, strides)),
        index_offset(index, strides) == sum_of(steps(index, strides)),
    decreases shape.len(),
{
    if shape.len() > 0 {
        lemma_by_terms(shape.drop_last(), strides.drop_last(), index.drop_last());
        assert(dimensions(shape).drop_last() =~= dimensions(shape.drop_last()));
        assert(low_reaches(shape, strides).drop_last() =~= low_reaches(
            shape.drop_last(),
            strides.drop_last(),
        ));
        assert(high_reaches(shape, strides).drop_last() =~= high_reaches(
            shape.drop_last(),
            strides.drop_last(),
        ));
        assert(steps(index, strides).drop_last() =~= steps(index.drop_last(), strides.drop_last()));
    }
}

/// Permuting the axes of a layout keeps the number of elements and both
/// extents. An index with its components permuted alike names an element
/// of the permuted layout, at the same offset.
pub proof fn lemma_transposed_layout(
    shape: Seq<i64>,
    strides: Seq<i64>,
    index: Seq<i64>,
    axes: Seq<usize>,
)
    requires
        shape.len() == strides.len(),
        is_permutation(axes, shape.len()),
    ensures
        shape_product(permuted_shape(shape, axes)) == shape_product(shape),
        min_extent(permuted_shape(shape, axes), permuted_shape(strides, axes)) == min_extent(
            shape,
            strides,
        ),
        max_extent(permuted_shape(shape, axes), permuted_shape(strides, axes)) == max_extent(
            shape,
            strides,
        ),
        valid_index(index, shape) ==> {
            &&& valid_index(permuted_shape(index, axes), permuted_shape(shape, axes))
            &&& index_offset(permuted_shape(index, axes), permuted_shape(strides, axes))
                == index_offset(index, strides)
        },
{
    let new_shape = permuted_shape(shape, axes);
    let new_strides = permuted_shape(strides, axes);
    lemma_by_terms(shape, strides, shape);
    lemma_by_terms(new_shape, new_strides, new_shape);
    lemma_order_is_free(dimensions(shape), axes);
    lemma_order_is_free(low_reaches(shape, strides), axes);
    lemma_order_is_free(high_reaches(shape, strides), axes);
    assert(dimensions(new_shape) =~= permuted(dimensions(shape), axes));
    assert(low_reaches(new_shape, new_strides) =~= permuted(low_reaches(shape, strides), axes));
    assert(high_reaches(new_shape, new_strides) =~= permuted(high_reaches(shape, strides), axes));
    if valid_index(index, shape) {
        let new_index = permuted_shape(index, axes);
        lemma_by_terms(shape, strides, index);
        lemma_by_terms(new_shape, new_strides, new_index);
        lemma_order_is_free(steps(index, strides), axes);
        assert(steps(new_index, new_strides) =~= permuted(steps(index, strides), axes));
        assert forall|i: int| 0 <= i < new_index.len() implies 0 <= #[trigger] new_index[i]
            < new_shape[i] by {
            assert(0 <= index[axes[i] as int] < shape[axes[i] as int]);
        }
    }
}

} // verus!
