//! Addressing: from the position of an element to its offset in bytes.
//!
//! The elements of an array are numbered in row-major order: the last axis
//! moves fastest. The offset of an element is the sum, over all axes, of its
//! coordinate on the axis times the stride of the axis.

use crate::shape::{c_stride, shape_product};
use vstd::arithmetic::div_mod::{lemma_fundamental_div_mod, lemma_mod_bound};
use vstd::prelude::*;

verus! {

/// Whether every dimension of the shape is at least 1.
pub open spec fn all_positive(shape: Seq<i64>) -> bool {
    forall|i: int| 0 <= i < shape.len() ==> shape[i] > 0
}

/// Whether no dimension of the shape is negative.
pub open spec fn all_nonnegative(shape: Seq<i64>) -> bool {
    forall|i: int| 0 <= i < shape.len() ==> shape[i] >= 0
}

/// The offset in bytes of element number `k`, counted in row-major order,
/// from the first element of an array with the given shape and strides.
pub open spec fn strided_offset(k: int, shape: Seq<i64>, strides: Seq<i64>) -> int
    decreases shape.len(),
{
    if shape.len() == 0 {
        0
    } else {
        (k % (shape.last() as int)) * (strides.last() as int) + strided_offset(
            k / (shape.last() as int),
            shape.drop_last(),
            strides.drop_last(),
        )
    }
}

/// The least offset of any element from the first one: the sum of the
/// reach of every axis with a negative stride.
pub open spec fn min_extent(shape: Seq<i64>, strides: Seq<i64>) -> int
    decreases shape.len(),
{
    if shape.len() == 0 {
        0
    } else {
        min_extent(shape.drop_last(), strides.drop_last()) + if strides.last() < 0 {
            (shape.last() - 1) * strides.last()
        } else {
            0
        }
    }
}

/// The greatest offset of any element from the first one: the sum of the
/// reach of every axis with a positive stride.
pub open spec fn max_extent(shape: Seq<i64>, strides: Seq<i64>) -> int
    decreases shape.len(),
{
    if shape.len() == 0 {
        0
    } else {
        max_extent(shape.drop_last(), strides.drop_last()) + if strides.last() > 0 {
            (shape.last() - 1) * strides.last()
        } else {
            0
        }
    }
}

/// A shape of positive dimensions holds at least one element.
pub proof fn lemma_product_positive(shape: Seq<i64>)
    requires
        all_positive(shape),
    ensures
        shape_product(shape) > 0,
    decreases shape.len(),
{
    if shape.len() > 0 {
        lemma_product_positive(shape.drop_last());
        let p = shape_product(shape.drop_last());
        let d = shape.last() as int;
        assert(p * d > 0) by (nonlinear_arith)
            requires
                p > 0,
                d > 0,
        ;
    }
}

/// A shape without negative dimensions that holds an element has only
/// positive dimensions, and the other way round.
pub proof fn lemma_positive_iff_nonempty(shape: Seq<i64>)
    requires
        all_nonnegative(shape),
    ensures
        shape_product(shape) >= 0,
        all_positive(shape) <==> shape_product(shape) > 0,
    decreases shape.len(),
{
    if shape.len() > 0 {
        let init = shape.drop_last();
        lemma_positive_iff_nonempty(init);
        let p = shape_product(init);
        let d = shape.last() as int;
        assert(p * d >= 0 && (p * d > 0 <==> (p > 0 && d > 0))) by (nonlinear_arith)
            requires
                p >= 0,
                d >= 0,
        ;
        if all_positive(shape) {
            assert forall|i: int| 0 <= i < init.len() implies init[i] > 0 by {
                assert(init[i] == shape[i]);
            }
        }
        if all_positive(init) && d > 0 {
            assert forall|i: int| 0 <= i < shape.len() implies shape[i] > 0 by {
                if i < init.len() {
                    assert(init[i] == shape[i]);
                }
            }
        }
    }
}

/// Of a shape of positive dimensions, the extents have the signs their
/// names say.
pub proof fn lemma_extent_signs(shape: Seq<i64>, strides: Seq<i64>)
    requires
        shape.len() == strides.len(),
        all_positive(shape),
    ensures
        min_extent(shape, strides) <= 0 <= max_extent(shape, strides),
    decreases shape.len(),
{
    if shape.len() > 0 {
        lemma_extent_signs(shape.drop_last(), strides.drop_last());
        let d = shape.last() as int;
        let s = strides.last() as int;
        assert(s < 0 ==> (d - 1) * s <= 0) by (nonlinear_arith)
            requires
                d >= 1,
        ;
        assert(s > 0 ==> (d - 1) * s >= 0) by (nonlinear_arith)
            requires
                d >= 1,
        ;
    }
}

/// One coordinate times its stride lies within the reach of its axis.
pub proof fn lemma_term_bounds(c: int, d: int, s: int)
    requires
        0 <= c < d,
    ensures
        (if s < 0 {
            (d - 1) * s
        } else {
            0
        }) <= c * s <= (if s > 0 {
            (d - 1) * s
        } else {
            0
        }),
{
    assert(s < 0 ==> (d - 1) * s <= c * s <= 0) by (nonlinear_arith)
        requires
            0 <= c < d,
    ;
    assert(s > 0 ==> 0 <= c * s <= (d - 1) * s) by (nonlinear_arith)
        requires
            0 <= c < d,
    ;
    assert(s == 0 ==> c * s == 0) by (nonlinear_arith);
}

/// Dividing an element number by the last dimension gives an element
/// number of the shape without that dimension.
pub proof fn lemma_quotient_in_range(k: int, p: int, d: int)
    requires
        d > 0,
        0 <= k < p * d,
    ensures
        0 <= k / d < p,
        0 <= k % d < d,
{
    lemma_fundamental_div_mod(k, d);
    lemma_mod_bound(k, d);
    let q = k / d;
    assert(0 <= q < p) by (nonlinear_arith)
        requires
            d > 0,
            0 <= k < p * d,
            k == d * q + k % d,
            0 <= k % d < d,
    ;
}

/// The offset of every element lies between the two extents.
pub proof fn lemma_strided_offset_bounds(k: int, shape: Seq<i64>, strides: Seq<i64>)
    requires
        shape.len() == strides.len(),
        all_positive(shape),
        0 <= k < shape_product(shape),
    ensures
        min_extent(shape, strides) <= strided_offset(k, shape, strides) <= max_extent(
            shape,
            strides,
        ),
    decreases shape.len(),
{
    if shape.len() > 0 {
        let d = shape.last() as int;
        let s = strides.last() as int;
        lemma_quotient_in_range(k, shape_product(shape.drop_last()), d);
        lemma_strided_offset_bounds(k / d, shape.drop_last(), strides.drop_last());
        lemma_term_bounds(k % d, d, s);
    }
}

/// With row-major strides, element number `k` lies `k` items from the
/// first, and the last element lies at the greatest offset.
pub proof fn lemma_packed_layout(k: int, shape: Seq<i64>, strides: Seq<i64>, itemsize: int)
    requires
        shape.len() == strides.len(),
        all_positive(shape),
        itemsize >= 0,
        forall|i: int| 0 <= i < shape.len() ==> strides[i] == c_stride(shape, itemsize, i),
        0 <= k < shape_product(shape),
    ensures
        strided_offset(k, shape, strides) == k * itemsize,
        min_extent(shape, strides) == 0,
        max_extent(shape, strides) == (shape_product(shape) - 1) * itemsize,
    decreases shape.len(),
{
    if shape.len() == 0 {
        assert(0 * itemsize == 0) by (nonlinear_arith);
    } else {
        let n = shape.len() as int;
        let init = shape.drop_last();
        let init_strides = strides.drop_last();
        let d = shape.last() as int;
        let p = shape_product(init);
        assert(shape.skip(n) =~= Seq::<i64>::empty());
        assert(strides.last() == itemsize * 1);
        lemma_quotient_in_range(k, p, d);
        lemma_product_positive(init);
        assert(itemsize * d >= 0) by (nonlinear_arith)
            requires
                itemsize >= 0,
                d > 0,
        ;
        assert forall|i: int| 0 <= i < init.len() implies init_strides[i] == c_stride(
            init,
            itemsize * d,
            i,
        ) by {
            lemma_packed_stride_of_prefix(shape, itemsize, i);
        }
        lemma_packed_layout(k / d, init, init_strides, itemsize * d);
        lemma_fundamental_div_mod(k, d);
        let q = k / d;
        let r = k % d;
        assert(r * itemsize + q * (itemsize * d) == k * itemsize) by (nonlinear_arith)
            requires
                k == d * q + r,
        ;
        assert((p - 1) * (itemsize * d) + (d - 1) * itemsize == (p * d - 1) * itemsize)
            by (nonlinear_arith);
        assert((d - 1) * itemsize >= 0) by (nonlinear_arith)
            requires
                d >= 1,
                itemsize >= 0,
        ;
        if itemsize == 0 {
            assert((d - 1) * itemsize == 0) by (nonlinear_arith)
                requires
                    itemsize == 0,
            ;
        }
    }
}

/// The row-major stride of an axis other than the last is the stride that
/// the axis has in the shape without its last dimension, for items as
/// large as a whole run of the last axis.
pub proof fn lemma_packed_stride_of_prefix(shape: Seq<i64>, itemsize: int, axis: int)
    requires
        0 <= axis < shape.len() - 1,
    ensures
        c_stride(shape, itemsize, axis) == c_stride(
            shape.drop_last(),
            itemsize * (shape.last() as int),
            axis,
        ),
{
    let tail = shape.skip(axis + 1);
    assert(tail.drop_last() =~= shape.drop_last().skip(axis + 1));
    assert(tail.last() == shape.last());
    let m = shape_product(tail.drop_last());
    let d = shape.last() as int;
    assert(itemsize * (m * d) == (itemsize * d) * m) by (nonlinear_arith);
}

/// The place in a buffer of element number `k` of an array whose first
/// element lies at `base`: `base` plus the offset of the element.
pub fn offset_of(base: usize, k: usize, shape: &[i64], strides: &[i64]) -> (at: usize)
    requires
        shape.len() == strides.len(),
        all_positive(shape@),
        k < shape_product(shape@),
        0 <= base + min_extent(shape@, strides@),
        base + max_extent(shape@, strides@) <= usize::MAX,
    ensures
        at == base + strided_offset(k as int, shape@, strides@),
{
    let n: usize = shape.len();
    let mut acc: i128 = 0;
    let mut rem: u64 = k as u64;
    let mut i: usize = n;
    proof {
        assert(shape@.take(n as int) =~= shape@);
        assert(strides@.take(n as int) =~= strides@);
        lemma_extent_signs(shape@, strides@);
    }
    while i > 0
        invariant
            n == shape.len(),
            n == strides.len(),
            i <= n,
            all_positive(shape@),
            0 <= rem < shape_product(shape@.take(i as int)),
            strided_offset(k as int, shape@, strides@) == acc + strided_offset(
                rem as int,
                shape@.take(i as int),
                strides@.take(i as int),
            ),
            min_extent(shape@, strides@) - min_extent(
                shape@.take(i as int),
                strides@.take(i as int),
            ) <= acc,
            acc <= max_extent(shape@, strides@) - max_extent(
                shape@.take(i as int),
                strides@.take(i as int),
            ),
            -(usize::MAX as int) <= min_extent(shape@, strides@) <= 0,
            0 <= max_extent(shape@, strides@) <= usize::MAX,
        decreases i,
    {
        let ghost shape_i = shape@.take(i as int);
        let ghost strides_i = strides@.take(i as int);
        i -= 1;
        let d: u64 = shape[i] as u64;
        let c: u64 = rem % d;
        let s: i128 = strides[i] as i128;
        proof {
            assert(shape_i.drop_last() =~= shape@.take(i as int));
            assert(strides_i.drop_last() =~= strides@.take(i as int));
            assert(shape_i.last() == shape[i as int]);
            assert(strides_i.last() == strides[i as int]);
            lemma_quotient_in_range(rem as int, shape_product(shape@.take(i as int)), d as int);
            lemma_term_bounds(c as int, d as int, s as int);
            assert forall|j: int| 0 <= j < i implies shape@.take(i as int)[j] > 0 by {
                assert(shape@.take(i as int)[j] == shape[j]);
            }
            lemma_extent_signs(shape@.take(i as int), strides@.take(i as int));
            assert(-0x8000_0000_0000_0000 * 0x8000_0000_0000_0000 <= c * s
                <= 0x8000_0000_0000_0000 * 0x8000_0000_0000_0000) by (nonlinear_arith)
                requires
                    0 <= c < 0x8000_0000_0000_0000,
                    -0x8000_0000_0000_0000 <= s < 0x8000_0000_0000_0000,
            ;
        }
        acc = acc + (c as i128) * s;
        rem = rem / d;
    }
    (base as i128 + acc) as usize
}

/// Whether `index` names an element of an array of the given shape: it
/// has one component for each dimension, each from 0 up to but not
/// including the size of its dimension.
pub open spec fn valid_index(index: Seq<i64>, shape: Seq<i64>) -> bool {
    &&& index.len() == shape.len()
    &&& forall|i: int| 0 <= i < index.len() ==> 0 <= #[trigger] index[i] < shape[i]
}

/// The number, in row-major order, of the element that `index` names.
pub open spec fn flat_index(index: Seq<i64>, shape: Seq<i64>) -> int
    decreases index.len(),
{
    if index.len() == 0 || shape.len() == 0 {
        0
    } else {
        index.last() + shape.last() * flat_index(index.drop_last(), shape.drop_last())
    }
}

/// The offset in bytes of the element that `index` names from the first
/// element: the sum of its components times the strides.
pub open spec fn index_offset(index: Seq<i64>, strides: Seq<i64>) -> int
    decreases index.len(),
{
    if index.len() == 0 || strides.len() == 0 {
        0
    } else {
        index.last() * strides.last() + index_offset(index.drop_last(), strides.drop_last())
    }
}

/// A valid index names an element of the array, and that element lies at
/// the offset of the index.
pub proof fn lemma_flat_index(index: Seq<i64>, shape: Seq<i64>, strides: Seq<i64>)
    requires
        valid_index(index, shape),
        shape.len() == strides.len(),
    ensures
        all_positive(shape),
        0 <= flat_index(index, shape) < shape_product(shape),
        strided_offset(flat_index(index, shape), shape, strides) == index_offset(index, strides),
    decreases index.len(),
{
    assert forall|i: int| 0 <= i < shape.len() implies shape[i] > 0 by {
        assert(0 <= index[i] < shape[i]);
    }
    if index.len() > 0 {
        let d = shape.last() as int;
        let c = index.last() as int;
        let init = index.drop_last();
        assert forall|i: int| 0 <= i < init.len() implies 0 <= #[trigger] init[i]
            < shape.drop_last()[i] by {
            assert(0 <= index[i] < shape[i]);
        }
        lemma_flat_index(init, shape.drop_last(), strides.drop_last());
        let rest = flat_index(init, shape.drop_last());
        let flat = flat_index(index, shape);
        assert(d * rest == rest * d) by (nonlinear_arith);
        vstd::arithmetic::div_mod::lemma_fundamental_div_mod_converse(flat, d, rest, c);
        assert(0 <= flat < shape_product(shape.drop_last()) * d) by (nonlinear_arith)
            requires
                flat == c + d * rest,
                0 <= c < d,
                0 <= rest < shape_product(shape.drop_last()),
        ;
    }
}

/// The number, in row-major order, of the element that `index` names, or
/// nothing where the index names none.
pub fn flat_index_of(index: &[i64], shape: &[i64]) -> (flat: Option<usize>)
    requires
        all_nonnegative(shape@),
        shape_product(shape@) <= usize::MAX,
    ensures
        match flat {
            Some(k) => valid_index(index@, shape@) && k == flat_index(index@, shape@),
            None => !valid_index(index@, shape@),
        },
{
    let n: usize = shape.len();
    if index.len() != n {
        return None;
    }
    let mut j: usize = 0;
    while j < n
        invariant
            n == shape.len(),
            n == index.len(),
            j <= n,
            forall|i: int| 0 <= i < j ==> 0 <= #[trigger] index[i] < shape[i],
        decreases n - j,
    {
        if index[j] < 0 || index[j] >= shape[j] {
            return None;
        }
        j += 1;
    }
    proof {
        lemma_flat_index(index@, shape@, shape@);
    }
    let mut flat: u128 = 0;
    let mut i: usize = 0;
    while i < n
        invariant
            n == shape.len(),
            n == index.len(),
            i <= n,
            valid_index(index@, shape@),
            all_positive(shape@),
            shape_product(shape@) <= usize::MAX,
            flat == flat_index(index@.take(i as int), shape@.take(i as int)),
            0 <= flat < shape_product(shape@.take(i as int)),
        decreases n - i,
    {
        proof {
            let index_next = index@.take(i + 1);
            let shape_next = shape@.take(i + 1);
            assert(index_next.drop_last() =~= index@.take(i as int));
            assert(shape_next.drop_last() =~= shape@.take(i as int));
            assert(valid_index(index_next, shape_next));
            lemma_flat_index(index_next, shape_next, shape_next);
            lemma_prefix_product(shape@, i + 1);
        }
        flat = index[i] as u128 + (shape[i] as u128) * flat;
        i += 1;
    }
    proof {
        assert(index@.take(n as int) =~= index@);
        assert(shape@.take(n as int) =~= shape@);
    }
    Some(flat as usize)
}

/// In a shape of positive dimensions, a prefix holds no more elements than
/// the whole.
pub proof fn lemma_prefix_product(shape: Seq<i64>, k: int)
    requires
        all_positive(shape),
        0 <= k <= shape.len(),
    ensures
        0 < shape_product(shape.take(k)) <= shape_product(shape),
{
    crate::shape::lemma_product_prefix_bound(shape, k);
    lemma_product_positive(shape);
    assert forall|i: int| 0 <= i < shape.take(k).len() implies shape.take(k)[i] > 0 by {
        assert(shape.take(k)[i] == shape[i]);
    }
    lemma_product_positive(shape.take(k));
}

/// The product of two shapes put one after the other is the product of
/// their products.
pub proof fn lemma_product_concat(a: Seq<i64>, b: Seq<i64>)
    ensures
        shape_product(a + b) == shape_product(a) * shape_product(b),
    decreases b.len(),
{
    if b.len() == 0 {
        assert(a + b =~= a);
        assert(shape_product(a) * 1 == shape_product(a)) by (nonlinear_arith);
    } else {
        lemma_product_concat(a, b.drop_last());
        assert((a + b).drop_last() =~= a + b.drop_last());
        assert((a + b).last() == b.last());
        let x = shape_product(a);
        let y = shape_product(b.drop_last());
        let z = b.last() as int;
        assert((x * y) * z == x * (y * z)) by (nonlinear_arith);
    }
}

/// The number of elements of a shape is the number before an axis, times
/// the size of the axis, times the number after it; the shape without the
/// axis holds the number before times the number after.
pub proof fn lemma_product_around_axis(shape: Seq<i64>, axis: int)
    requires
        0 <= axis < shape.len(),
    ensures
        shape_product(shape) == shape_product(shape.take(axis)) * shape[axis] * shape_product(
            shape.skip(axis + 1),
        ),
        shape_product(shape.remove(axis)) == shape_product(shape.take(axis)) * shape_product(
            shape.skip(axis + 1),
        ),
{
    let before = shape.take(axis);
    let after = shape.skip(axis + 1);
    let one = seq![shape[axis]];
    assert(shape =~= before + one + after);
    assert(shape.remove(axis) =~= before + after);
    lemma_product_concat(before, one);
    lemma_product_concat(before + one, after);
    lemma_product_concat(before, after);
    assert(shape_product(one) == shape[axis]) by {
        assert(one.drop_last() =~= Seq::<i64>::empty());
        reveal_with_fuel(shape_product, 2);
    }
}

/// The number of elements that lie after an axis within one step of it:
/// the product of the dimensions after the axis.
pub fn suffix_product(shape: &[i64], from: usize) -> (product: usize)
    requires
        all_positive(shape@),
        shape_product(shape@) <= usize::MAX,
        from <= shape.len(),
    ensures
        product == shape_product(shape@.skip(from as int)),
        product >= 1,
{
    let n: usize = shape.len();
    let mut product: u64 = 1;
    let mut i: usize = n;
    proof {
        assert(shape@.skip(n as int) =~= Seq::<i64>::empty());
    }
    while i > from
        invariant
            n == shape.len(),
            from <= i <= n,
            all_positive(shape@),
            shape_product(shape@) <= usize::MAX,
            product == shape_product(shape@.skip(i as int)),
            product >= 1,
        decreases i,
    {
        i -= 1;
        proof {
            let tail = shape@.skip(i as int);
            crate::shape::lemma_product_split_first(tail);
            assert(tail.drop_first() =~= shape@.skip(i + 1));
            lemma_suffix_product_bound(shape@, i as int);
            assert(shape_product(tail) >= 1) by {
                assert forall|j: int| 0 <= j < tail.len() implies tail[j] > 0 by {
                    assert(tail[j] == shape[i + j]);
                }
                lemma_product_positive(tail);
            }
        }
        product = (shape[i] as u64) * product;
    }
    proof {
        lemma_suffix_product_bound(shape@, from as int);
    }
    product as usize
}

/// In a shape of positive dimensions, the dimensions from some axis on
/// hold no more elements than the whole.
pub proof fn lemma_suffix_product_bound(shape: Seq<i64>, from: int)
    requires
        all_positive(shape),
        0 <= from <= shape.len(),
    ensures
        shape_product(shape.skip(from)) <= shape_product(shape),
{
    let before = shape.take(from);
    let after = shape.skip(from);
    assert(shape =~= before + after);
    lemma_product_concat(before, after);
    lemma_prefix_product(shape, from);
    assert forall|j: int| 0 <= j < after.len() implies after[j] > 0 by {
        assert(after[j] == shape[from + j]);
    }
    lemma_product_positive(after);
    let x = shape_product(before);
    let y = shape_product(after);
    assert(y <= x * y) by (nonlinear_arith)
        requires
            x >= 1,
            y >= 1,
    ;
}

/// In a shape of positive dimensions, the extents of the first axes lie
/// within the extents of all axes.
pub proof fn lemma_extent_prefix(shape: Seq<i64>, strides: Seq<i64>, k: int)
    requires
        shape.len() == strides.len(),
        all_positive(shape),
        0 <= k <= shape.len(),
    ensures
        min_extent(shape, strides) <= min_extent(shape.take(k), strides.take(k)) <= 0,
        0 <= max_extent(shape.take(k), strides.take(k)) <= max_extent(shape, strides),
    decreases shape.len(),
{
    assert forall|i: int| 0 <= i < shape.take(k).len() implies shape.take(k)[i] > 0 by {
        assert(shape.take(k)[i] == shape[i]);
    }
    lemma_extent_signs(shape.take(k), strides.take(k));
    if k == shape.len() {
        assert(shape.take(k) =~= shape);
        assert(strides.take(k) =~= strides);
    } else {
        let init = shape.drop_last();
        let init_strides = strides.drop_last();
        assert forall|i: int| 0 <= i < init.len() implies init[i] > 0 by {
            assert(init[i] == shape[i]);
        }
        lemma_extent_prefix(init, init_strides, k);
        assert(init.take(k) =~= shape.take(k));
        assert(init_strides.take(k) =~= strides.take(k));
        lemma_term_bounds(0, shape.last() as int, strides.last() as int);
    }
}

/// The two extents of a layout of positive dimensions, where neither
/// reaches further than 2^64 bytes from the first element, and nothing
/// where one does.
pub fn bounded_extents(shape: &[i64], strides: &[i64]) -> (extents: Option<(i128, i128)>)
    requires
        shape.len() == strides.len(),
        all_positive(shape@),
    ensures
        match extents {
            Some((low, high)) => {
                &&& low == min_extent(shape@, strides@)
                &&& high == max_extent(shape@, strides@)
                &&& -0x1_0000_0000_0000_0000 <= low <= 0
                &&& 0 <= high <= 0x1_0000_0000_0000_0000
            },
            None => min_extent(shape@, strides@) < -0x1_0000_0000_0000_0000 || max_extent(
                shape@,
                strides@,
            ) > 0x1_0000_0000_0000_0000,
        },
{
    let n: usize = shape.len();
    let mut low: i128 = 0;
    let mut high: i128 = 0;
    let mut i: usize = 0;
    while i < n
        invariant
            n == shape.len(),
            n == strides.len(),
            i <= n,
            all_positive(shape@),
            low == min_extent(shape@.take(i as int), strides@.take(i as int)),
            high == max_extent(shape@.take(i as int), strides@.take(i as int)),
            -0x1_0000_0000_0000_0000 <= low <= 0,
            0 <= high <= 0x1_0000_0000_0000_0000,
        decreases n - i,
    {
        let last: i128 = shape[i] as i128 - 1;
        let stride: i128 = strides[i] as i128;
        assert(-0x8000_0000_0000_0000 * 0x8000_0000_0000_0000 <= last * stride
            <= 0x8000_0000_0000_0000 * 0x8000_0000_0000_0000) by (nonlinear_arith)
            requires
                0 <= last < 0x8000_0000_0000_0000,
                -0x8000_0000_0000_0000 <= stride < 0x8000_0000_0000_0000,
        ;
        let reach: i128 = last * stride;
        proof {
            assert(shape@.take(i + 1).drop_last() =~= shape@.take(i as int));
            assert(strides@.take(i + 1).drop_last() =~= strides@.take(i as int));
            lemma_term_bounds(last as int, shape[i as int] as int, stride as int);
        }
        if reach < 0 {
            low = low + reach;
        } else {
            high = high + reach;
        }
        i += 1;
        if low < -0x1_0000_0000_0000_0000 || high > 0x1_0000_0000_0000_0000 {
            proof {
                lemma_extent_prefix(shape@, strides@, i as int);
            }
            return None;
        }
    }
    proof {
        assert(shape@.take(n as int) =~= shape@);
        assert(strides@.take(n as int) =~= strides@);
    }
    Some((low, high))
}

/// An axis of size 1 does not count: without it the layout holds the same
/// elements at the same offsets, and reaches as far.
pub proof fn lemma_unit_axis(k: int, shape: Seq<i64>, strides: Seq<i64>, axis: int)
    requires
        shape.len() == strides.len(),
        0 <= axis < shape.len(),
        shape[axis] == 1,
    ensures
        strided_offset(k, shape.remove(axis), strides.remove(axis)) == strided_offset(
            k,
            shape,
            strides,
        ),
        shape_product(shape.remove(axis)) == shape_product(shape),
        min_extent(shape.remove(axis), strides.remove(axis)) == min_extent(shape, strides),
        max_extent(shape.remove(axis), strides.remove(axis)) == max_extent(shape, strides),
    decreases shape.len(),
{
    let init = shape.drop_last();
    let init_strides = strides.drop_last();
    if axis == shape.len() - 1 {
        assert(shape.remove(axis) =~= init);
        assert(strides.remove(axis) =~= init_strides);
        assert(k % 1 == 0 && k / 1 == k);
        assert(0 * (strides.last() as int) == 0) by (nonlinear_arith);
        assert(shape_product(init) * 1 == shape_product(init)) by (nonlinear_arith);
    } else {
        let d = shape.last() as int;
        assert(shape.remove(axis).drop_last() =~= init.remove(axis));
        assert(strides.remove(axis).drop_last() =~= init_strides.remove(axis));
        assert(shape.remove(axis).last() == shape.last());
        assert(strides.remove(axis).last() == strides.last());
        lemma_unit_axis(k / d, init, init_strides, axis);
    }
}

/// The strides of the axes of a shape that do not have size 1.
pub open spec fn squeezed_strides(shape: Seq<i64>, strides: Seq<i64>) -> Seq<i64>
    decreases shape.len(),
{
    if shape.len() == 0 || strides.len() == 0 {
        Seq::empty()
    } else if shape.last() != 1 {
        squeezed_strides(shape.drop_last(), strides.drop_last()).push(strides.last())
    } else {
        squeezed_strides(shape.drop_last(), strides.drop_last())
    }
}

/// Without its axes of size 1 a layout holds the same elements at the
/// same offsets, and reaches as far.
pub proof fn lemma_squeezed_layout(k: int, shape: Seq<i64>, strides: Seq<i64>)
    requires
        shape.len() == strides.len(),
    ensures
        crate::shape::squeezed_shape(shape).len() == squeezed_strides(shape, strides).len(),
        strided_offset(k, crate::shape::squeezed_shape(shape), squeezed_strides(shape, strides))
            == strided_offset(k, shape, strides),
        shape_product(crate::shape::squeezed_shape(shape)) == shape_product(shape),
        min_extent(crate::shape::squeezed_shape(shape), squeezed_strides(shape, strides))
            == min_extent(shape, strides),
        max_extent(crate::shape::squeezed_shape(shape), squeezed_strides(shape, strides))
            == max_extent(shape, strides),
    decreases shape.len(),
{
    reveal(Seq::filter);
    let keep = |d: i64| d != 1;
    if shape.len() > 0 {
        let init = shape.drop_last();
        let init_strides = strides.drop_last();
        let d = shape.last() as int;
        assert(shape.filter(keep) == if keep(shape.last()) {
            init.filter(keep).push(shape.last())
        } else {
            init.filter(keep)
        });
        if d == 1 {
            lemma_squeezed_layout(k, init, init_strides);
            assert(k % 1 == 0 && k / 1 == k);
            assert(0 * (strides.last() as int) == 0) by (nonlinear_arith);
            assert(shape_product(init) * 1 == shape_product(init)) by (nonlinear_arith);
        } else {
            lemma_squeezed_layout(k / d, init, init_strides);
            let kept = init.filter(keep).push(shape.last());
            let kept_strides = squeezed_strides(init, init_strides).push(strides.last());
            assert(kept.drop_last() =~= init.filter(keep));
            assert(kept_strides.drop_last() =~= squeezed_strides(init, init_strides));
        }
    }
}

} // verus!
