//! Reductions: folding the elements of an array into one, or the
//! elements along one axis into one for every position on the other axes.
//!
//! The elements that are folded together form a lane. Without an axis
//! there is one lane, of all elements in row-major order, and the result
//! has no dimensions. With an axis there is one lane for every element of
//! the shape without that axis, and the result has that shape. An empty
//! lane cannot be folded: there is nothing to start from.

use crate::array::{Array, ArrayError, ArrayView, can_allocate};
use crate::layout::{
    all_nonnegative,
    lemma_positive_iff_nonempty,
    lemma_product_around_axis,
    lemma_quotient_in_range,
    lemma_suffix_product_bound,
    suffix_product,
};
use crate::scalar::{
    capacity,
    from_signed,
    lemma_capacity_values,
    signed_bits,
    signed_value,
    to_signed,
};
use crate::shape::{copy_shape, shape_product};
use crate::types::{DType, is_integer, itemsize_of, NpyType};
use crate::ufunc::kernels::{
    Arithmetic,
    arithmetic_bits,
    arithmetic_spec,
    is_nan,
    is_nan_bits,
    order_key,
    order_key_of,
};
use crate::ufunc::loop_exec::lemma_stored_fits;
use vstd::arithmetic::div_mod::{
    lemma_add_mod_noop,
    lemma_fundamental_div_mod,
    lemma_fundamental_div_mod_converse,
    lemma_mod_bound,
    lemma_small_mod,
};
use vstd::prelude::*;

verus! {

/// The number of elements in each lane.
pub open spec fn lane_length(array: ArrayView, axis: Option<usize>) -> int {
    match axis {
        None => array.size(),
        Some(a) => array.shape[a as int] as int,
    }
}

/// The distance, in elements, between neighbours in a lane: the number of
/// elements of the dimensions after the axis.
pub open spec fn lane_step(array: ArrayView, axis: Option<usize>) -> int {
    match axis {
        None => 1,
        Some(a) => shape_product(array.shape.skip(a + 1)),
    }
}

/// The shape of the result of a reduction.
pub open spec fn reduced_shape(shape: Seq<i64>, axis: Option<usize>) -> Seq<i64> {
    match axis {
        None => Seq::empty(),
        Some(a) => shape.remove(a as int),
    }
}

/// The number of the element that stands at place `i` of lane `j`, where
/// lanes have `length` elements that lie `step` apart.
///
/// Lane `j` belongs to the position with the row-major number `j` in the
/// shape without the axis. `j / step` numbers the position on the axes
/// before the axis, and `j % step` that on the axes after it.
pub open spec fn lane_index(j: int, i: int, length: int, step: int) -> int {
    (j / step) * (length * step) + i * step + j % step
}

/// The elements of lane `j`, in the order of the axis.
pub open spec fn lane(array: ArrayView, axis: Option<usize>, j: int) -> Seq<u64> {
    Seq::new(
        lane_length(array, axis) as nat,
        |i: int| array.elements[lane_index(j, i, lane_length(array, axis), lane_step(array, axis))],
    )
}

/// Why a reduction is refused, if it is.
///
/// An axis that the array does not have is an invalid dimension; after
/// that, lanes without elements are an invalid shape; after that, a result
/// too large to allocate is out of memory.
pub open spec fn reduce_error(array: ArrayView, axis: Option<usize>) -> Option<ArrayError> {
    if axis is Some && axis->0 >= array.shape.len() {
        Some(ArrayError::InvalidDimension)
    } else if lane_length(array, axis) == 0 {
        Some(ArrayError::InvalidShape)
    } else if !can_allocate(reduced_shape(array.shape, axis), array.dtype) {
        Some(ArrayError::OutOfMemory)
    } else {
        None
    }
}

/// The array that holds, for every lane, what `f` makes of the lane.
pub open spec fn reduced_view(
    array: ArrayView,
    axis: Option<usize>,
    f: spec_fn(Seq<u64>) -> u64,
) -> ArrayView {
    ArrayView {
        shape: reduced_shape(array.shape, axis),
        dtype: array.dtype,
        elements: Seq::new(
            shape_product(reduced_shape(array.shape, axis)) as nat,
            |j: int| f(lane(array, axis, j)),
        ),
    }
}

/// Every place of every lane is an element of the array.
pub proof fn lemma_lane_index_bound(j: int, i: int, outer: int, length: int, step: int)
    requires
        step > 0,
        0 <= j < outer * step,
        0 <= i < length,
    ensures
        0 <= (j / step) * (length * step) <= lane_index(j, i, length, step),
        0 <= i * step <= lane_index(j, i, length, step),
        length * step <= outer * length * step,
        lane_index(j, i, length, step) < outer * length * step,
{
    lemma_quotient_in_range(j, outer, step);
    let o = j / step;
    let r = j % step;
    assert(0 <= o * (length * step) && 0 <= i * step && o * (length * step) + i * step + r < outer
        * length * step && length * step <= outer * length * step) by (nonlinear_arith)
        requires
            0 <= o < outer,
            0 <= i < length,
            0 <= r < step,
    ;
}

/// The number of positions on the axes before the axis of a reduction.
pub open spec fn lane_outer(array: ArrayView, axis: Option<usize>) -> int {
    match axis {
        None => 1,
        Some(a) => shape_product(array.shape.take(a as int)),
    }
}

/// What a reduction works on: the shape of its result, the length of its
/// lanes and the step between neighbours in a lane.
fn lane_geometry(array: &Array, axis: Option<usize>) -> (result: Result<
    (Vec<i64>, usize, usize),
    ArrayError,
>)
    ensures
        match result {
            Ok((shape, length, step)) => {
                &&& array@.wf()
                &&& !(axis is Some && axis->0 >= array@.shape.len())
                &&& lane_length(array@, axis) != 0
                &&& shape@ == reduced_shape(array@.shape, axis)
                &&& all_nonnegative(shape@)
                &&& array@.size() > 0 ==> {
                    &&& length == lane_length(array@, axis)
                    &&& step == lane_step(array@, axis)
                    &&& step > 0
                    &&& lane_outer(array@, axis) > 0
                    &&& shape_product(shape@) == lane_outer(array@, axis) * step
                    &&& array@.size() == lane_outer(array@, axis) * length * step
                }
                &&& array@.size() == 0 ==> shape_product(shape@) == 0
            },
            Err(e) => {
                ||| e == ArrayError::InvalidDimension && axis is Some && axis->0
                    >= array@.shape.len()
                ||| e == ArrayError::InvalidShape && !(axis is Some && axis->0
                    >= array@.shape.len()) && lane_length(array@, axis) == 0
            },
        },
{
    let shape: &[i64] = array.shape();
    let size: usize = array.size();
    match axis {
        None => {
            if size == 0 {
                return Err(ArrayError::InvalidShape);
            }
            let reduced: Vec<i64> = Vec::new();
            assert(reduced@ =~= Seq::<i64>::empty());
            assert(1 * size * 1 == size) by (nonlinear_arith);
            Ok((reduced, size, 1))
        },
        Some(a) => {
            if a >= shape.len() {
                return Err(ArrayError::InvalidDimension);
            }
            if shape[a] == 0 {
                return Err(ArrayError::InvalidShape);
            }
            let mut reduced: Vec<i64> = copy_shape(shape);
            reduced.remove(a);
            let ghost before = shape_product(shape@.take(a as int));
            let ghost after = shape_product(shape@.skip(a + 1));
            let ghost d = shape[a as int] as int;
            proof {
                lemma_product_around_axis(shape@, a as int);
                lemma_positive_iff_nonempty(shape@);
                assert forall|i: int| 0 <= i < reduced.len() implies reduced[i] >= 0 by {
                    if i < a {
                        assert(reduced[i] == shape[i]);
                    } else {
                        assert(reduced[i] == shape[i + 1]);
                    }
                }
                lemma_positive_iff_nonempty(reduced@);
                assert(before * d * after == 0 ==> before * after == 0) by (nonlinear_arith)
                    requires
                        d > 0,
                ;
            }
            if size == 0 {
                return Ok((reduced, 0, 0));
            }
            let step: usize = suffix_product(shape, a + 1);
            proof {
                crate::layout::lemma_prefix_product(shape@, a as int);
                assert(d <= before * d * after) by (nonlinear_arith)
                    requires
                        d > 0,
                        after >= 1,
                        before >= 1,
                ;
            }
            Ok((reduced, shape[a] as usize, step))
        },
    }
}

/// Whether folding a lane with `kernel`, from its first element on, may
/// come to `result`.
pub open spec fn folds_to<K: Fn(u64, u64) -> u64>(kernel: K, lane: Seq<u64>, result: u64) -> bool
    decreases lane.len(),
{
    if lane.len() == 0 {
        false
    } else if lane.len() == 1 {
        result == lane[0]
    } else {
        exists|acc: u64|
            #![trigger call_ensures(kernel, (acc, lane.last()), result)]
            folds_to(kernel, lane.drop_last(), acc) && call_ensures(
                kernel,
                (acc, lane.last()),
                result,
            )
    }
}

/// One more step of a fold: where the lane without its last element may
/// fold to `before`, and the kernel may give `result` for `before` and the
/// last element, the lane may fold to `result`.
pub proof fn lemma_fold_step<K: Fn(u64, u64) -> u64>(
    kernel: K,
    lane: Seq<u64>,
    before: u64,
    result: u64,
)
    requires
        lane.len() >= 2,
        folds_to(kernel, lane.drop_last(), before),
        call_ensures(kernel, (before, lane.last()), result),
    ensures
        folds_to(kernel, lane, result),
{
}

/// Folds every lane of an array with `kernel`.
///
/// Each lane is folded from its first element on: the kernel is given what
/// has been folded so far and the next element. The kernel must keep to
/// bit patterns of the array's element kind. The result has the element
/// type of the array.
pub fn reduce_loop<K: Fn(u64, u64) -> u64>(
    array: &Array,
    axis: Option<usize>,
    kernel: K,
) -> (result: Result<Array, ArrayError>)
    requires
        forall|acc: u64, x: u64|
            acc < capacity(array@.itemsize()) && x < capacity(array@.itemsize()) ==> call_requires(
                kernel,
                (acc, x),
            ),
        forall|acc: u64, x: u64, next: u64|
            acc < capacity(array@.itemsize()) && x < capacity(array@.itemsize()) && call_ensures(
                kernel,
                (acc, x),
                next,
            ) ==> next < capacity(array@.itemsize()),
    ensures
        match result {
            Ok(out) => {
                &&& reduce_error(array@, axis) is None
                &&& out@.shape == reduced_shape(array@.shape, axis)
                &&& out@.dtype == array@.dtype
                &&& out@.wf()
                &&& out.is_packed()
                &&& forall|j: int|
                    0 <= j < out@.elements.len() ==> #[trigger] folds_to(
                        kernel,
                        lane(array@, axis, j),
                        out@.elements[j],
                    )
            },
            Err(e) => reduce_error(array@, axis) == Some(e),
        },
{
    let (shape, length, step) = match lane_geometry(array, axis) {
        Ok(geometry) => geometry,
        Err(e) => {
            return Err(e);
        },
    };
    let dtype: DType = *array.dtype();
    let mut out: Array = match Array::new(shape, dtype) {
        Ok(out) => out,
        Err(e) => {
            return Err(e);
        },
    };
    let lanes: usize = out.size();
    let size: usize = array.size();
    let ghost outer = lane_outer(array@, axis);
    let mut j: usize = 0;
    while j < lanes
        invariant
            j <= lanes,
            array@.wf(),
            size == array@.elements.len(),
            lanes == out@.elements.len(),
            lanes > 0 ==> size > 0,
            size > 0 ==> {
                &&& length == lane_length(array@, axis)
                &&& step == lane_step(array@, axis)
                &&& step > 0
                &&& length > 0
                &&& lanes == outer * step
                &&& size == outer * length * step
            },
            out@.shape == reduced_shape(array@.shape, axis),
            out@.dtype == array@.dtype,
            out.is_packed(),
            out@.wf(),
            forall|acc: u64, x: u64|
                acc < capacity(array@.itemsize()) && x < capacity(array@.itemsize())
                    ==> call_requires(kernel, (acc, x)),
            forall|acc: u64, x: u64, next: u64|
                acc < capacity(array@.itemsize()) && x < capacity(array@.itemsize())
                    && call_ensures(kernel, (acc, x), next) ==> next < capacity(
                    array@.itemsize(),
                ),
            forall|m: int|
                0 <= m < j ==> #[trigger] folds_to(kernel, lane(array@, axis, m), out@.elements[m]),
        decreases lanes - j,
    {
        let ghost whole = lane(array@, axis, j as int);
        proof {
            lemma_lane_index_bound(j as int, 0, outer, length as int, step as int);
        }
        let run: usize = length * step;
        let start: usize = (j / step) * run + j % step;
        let mut acc: u64 = array.element(start);
        let mut i: usize = 1;
        proof {
            assert(whole.take(1) =~= seq![whole[0]]);
        }
        while i < length
            invariant
                1 <= i <= length,
                j < lanes,
                array@.wf(),
                size == array@.elements.len(),
                lanes == outer * step,
                size == outer * length * step,
                step > 0,
                length == lane_length(array@, axis),
                step == lane_step(array@, axis),
                run == length * step,
                start == (j / step) * run + j % step,
                whole == lane(array@, axis, j as int),
                acc < capacity(array@.itemsize()),
                folds_to(kernel, whole.take(i as int), acc),
                forall|acc: u64, x: u64|
                    acc < capacity(array@.itemsize()) && x < capacity(array@.itemsize())
                        ==> call_requires(kernel, (acc, x)),
                forall|acc: u64, x: u64, next: u64|
                    acc < capacity(array@.itemsize()) && x < capacity(array@.itemsize())
                        && call_ensures(kernel, (acc, x), next) ==> next < capacity(
                        array@.itemsize(),
                    ),
            decreases length - i,
        {
            proof {
                lemma_lane_index_bound(j as int, i as int, outer, length as int, step as int);
                assert(whole.take(i + 1).drop_last() =~= whole.take(i as int));
                assert(whole.take(i + 1).last() == whole[i as int]);
            }
            let x: u64 = array.element(start + i * step);
            let ghost before = acc;
            acc = kernel(acc, x);
            proof {
                let grown = whole.take(i + 1);
                assert(x == grown.last());
                lemma_fold_step(kernel, grown, before, acc);
            }
            i += 1;
        }
        proof {
            assert(whole.take(length as int) =~= whole);
        }
        let ghost earlier = out@.elements;
        out.put(j, acc);
        proof {
            lemma_stored_fits(acc, array@.dtype);
            assert forall|m: int| 0 <= m < j + 1 implies #[trigger] folds_to(
                kernel,
                lane(array@, axis, m),
                out@.elements[m],
            ) by {
                if m < j {
                    assert(out@.elements[m] == earlier[m]);
                    assert(folds_to(kernel, lane(array@, axis, m), earlier[m]));
                }
            }
        }
        j += 1;
    }
    Ok(out)
}

/// What folding a lane with `f` comes to, from its first element on. An
/// empty lane comes to 0.
pub open spec fn fold_left_spec(f: spec_fn(u64, u64) -> u64, lane: Seq<u64>) -> u64
    decreases lane.len(),
{
    if lane.len() == 0 {
        0
    } else if lane.len() == 1 {
        lane[0]
    } else {
        f(fold_left_spec(f, lane.drop_last()), lane.last())
    }
}

/// With a kernel that can give only what `f` gives, a lane can fold only
/// to what folding it with `f` comes to.
pub proof fn lemma_fold_deterministic<K: Fn(u64, u64) -> u64>(
    kernel: K,
    f: spec_fn(u64, u64) -> u64,
    lane: Seq<u64>,
    result: u64,
)
    requires
        folds_to(kernel, lane, result),
        forall|acc: u64, x: u64, next: u64|
            call_ensures(kernel, (acc, x), next) ==> next == f(acc, x),
    ensures
        result == fold_left_spec(f, lane),
    decreases lane.len(),
{
    if lane.len() >= 2 {
        let acc = choose|acc: u64|
            #![trigger call_ensures(kernel, (acc, lane.last()), result)]
            folds_to(kernel, lane.drop_last(), acc) && call_ensures(
                kernel,
                (acc, lane.last()),
                result,
            );
        lemma_fold_deterministic(kernel, f, lane.drop_last(), acc);
    }
}

/// The sum of the bit patterns of a lane.
pub open spec fn bit_sum(lane: Seq<u64>) -> nat
    decreases lane.len(),
{
    if lane.len() == 0 {
        0
    } else {
        bit_sum(lane.drop_last()) + lane.last() as nat
    }
}

/// The bit pattern of the sum of a lane of signed integers: the sum of
/// the patterns, cut to the width of the kind as two's complement
/// arithmetic does.
pub open spec fn lane_sum(kind: NpyType, lane: Seq<u64>) -> u64 {
    (bit_sum(lane) % capacity(itemsize_of(kind) as nat)) as u64
}

/// The sum of the signed integers that the bit patterns of a lane stand
/// for.
pub open spec fn signed_sum(lane: Seq<u64>, width: nat) -> int
    decreases lane.len(),
{
    if lane.len() == 0 {
        0
    } else {
        signed_sum(lane.drop_last(), width) + signed_value(lane.last() as nat, width)
    }
}

/// The bit pattern of the mean of a lane of signed integers: their exact
/// sum divided by their number, rounded down.
pub open spec fn lane_mean(kind: NpyType, lane: Seq<u64>) -> u64 {
    signed_bits(
        signed_sum(lane, itemsize_of(kind) as nat) / (lane.len() as int),
        itemsize_of(kind) as nat,
    ) as u64
}

/// The lesser of two bit patterns of a kind. What is not a number wins
/// over every number.
pub open spec fn least_of(kind: NpyType, a: u64, b: u64) -> u64 {
    if is_nan(kind, a) {
        a
    } else if is_nan(kind, b) {
        b
    } else if order_key(kind, b) < order_key(kind, a) {
        b
    } else {
        a
    }
}

/// The greater of two bit patterns of a kind. What is not a number wins
/// over every number.
pub open spec fn greatest_of(kind: NpyType, a: u64, b: u64) -> u64 {
    if is_nan(kind, a) {
        a
    } else if is_nan(kind, b) {
        b
    } else if order_key(kind, a) < order_key(kind, b) {
        b
    } else {
        a
    }
}

/// The least element of a lane.
pub open spec fn lane_min(kind: NpyType, lane: Seq<u64>) -> u64 {
    fold_left_spec(|a: u64, b: u64| least_of(kind, a, b), lane)
}

/// The greatest element of a lane.
pub open spec fn lane_max(kind: NpyType, lane: Seq<u64>) -> u64 {
    fold_left_spec(|a: u64, b: u64| greatest_of(kind, a, b), lane)
}

/// The least element of a lane of numbers is one of its elements, and no
/// element comes before it in the order of the kind.
pub proof fn lemma_lane_min_is_least(kind: NpyType, lane: Seq<u64>, i: int)
    requires
        0 <= i < lane.len(),
        forall|k: int| 0 <= k < lane.len() ==> !is_nan(kind, lane[k]),
    ensures
        lane.contains(lane_min(kind, lane)),
        order_key(kind, lane_min(kind, lane)) <= order_key(kind, lane[i]),
    decreases lane.len(),
{
    let f = |a: u64, b: u64| least_of(kind, a, b);
    if lane.len() == 1 {
        assert(lane[0] == lane_min(kind, lane));
    } else {
        let init = lane.drop_last();
        lemma_lane_min_is_least(kind, init, if i < init.len() {
            i
        } else {
            0
        });
        let m = lane_min(kind, init);
        assert(lane_min(kind, lane) == least_of(kind, m, lane.last()));
        let w = choose|w: int| 0 <= w < init.len() && init[w] == m;
        assert(lane[w] == m);
        assert(lane[lane.len() - 1] == lane.last());
    }
}

/// The greatest element of a lane of numbers is one of its elements, and
/// no element comes after it in the order of the kind.
pub proof fn lemma_lane_max_is_greatest(kind: NpyType, lane: Seq<u64>, i: int)
    requires
        0 <= i < lane.len(),
        forall|k: int| 0 <= k < lane.len() ==> !is_nan(kind, lane[k]),
    ensures
        lane.contains(lane_max(kind, lane)),
        order_key(kind, lane_max(kind, lane)) >= order_key(kind, lane[i]),
    decreases lane.len(),
{
    if lane.len() == 1 {
        assert(lane[0] == lane_max(kind, lane));
    } else {
        let init = lane.drop_last();
        lemma_lane_max_is_greatest(kind, init, if i < init.len() {
            i
        } else {
            0
        });
        let m = lane_max(kind, init);
        assert(lane_max(kind, lane) == greatest_of(kind, m, lane.last()));
        let w = choose|w: int| 0 <= w < init.len() && init[w] == m;
        assert(lane[w] == m);
        assert(lane[lane.len() - 1] == lane.last());
    }
}

/// Adding up a lane element by element, wrapping at every step, comes to
/// the sum of the lane.
pub proof fn lemma_sum_fold(kind: NpyType, lane: Seq<u64>)
    requires
        lane.len() > 0,
        forall|k: int| 0 <= k < lane.len() ==> lane[k] < capacity(itemsize_of(kind) as nat),
    ensures
        fold_left_spec(|a: u64, b: u64| arithmetic_spec(Arithmetic::Add, kind, a, b), lane)
            == lane_sum(kind, lane),
    decreases lane.len(),
{
    let cap = capacity(itemsize_of(kind) as nat) as int;
    lemma_capacity_values();
    if lane.len() == 1 {
        assert(lane.drop_last().len() == 0);
        assert(bit_sum(lane) == lane[0]) by {
            reveal_with_fuel(bit_sum, 2);
        }
        lemma_small_mod(lane[0] as nat, cap as nat);
    } else {
        let init = lane.drop_last();
        lemma_sum_fold(kind, init);
        let s = bit_sum(init) as int;
        let x = lane.last() as int;
        lemma_add_mod_noop(s, x, cap);
        lemma_small_mod(x as nat, cap as nat);
        lemma_mod_bound(s, cap);
    }
}

/// A lane of zeros has sum zero.
pub proof fn lemma_sum_of_zeros(kind: NpyType, lane: Seq<u64>)
    requires
        forall|k: int| 0 <= k < lane.len() ==> lane[k] == 0,
    ensures
        bit_sum(lane) == 0,
        lane_sum(kind, lane) == 0,
    decreases lane.len(),
{
    lemma_capacity_values();
    if lane.len() > 0 {
        lemma_sum_of_zeros(kind, lane.drop_last());
    }
    lemma_small_mod(0, capacity(itemsize_of(kind) as nat));
}

/// The sum of an array of zeros is zero, of all elements and along every
/// axis.
pub proof fn lemma_sum_of_zero_array(shape: Seq<i64>, kind: NpyType, axis: Option<usize>, j: int)
    requires
        all_nonnegative(shape),
        !(axis is Some && axis->0 >= shape.len()),
        0 <= j < shape_product(reduced_shape(shape, axis)),
    ensures
        reduced_view(
            crate::array::filled_view(shape, kind, 0),
            axis,
            |l: Seq<u64>| lane_sum(kind, l),
        ).elements[j] == 0,
{
    let zeros = crate::array::filled_view(shape, kind, 0);
    let l = lane(zeros, axis, j);
    lemma_positive_iff_nonempty(shape);
    lemma_capacity_values();
    crate::scalar::lemma_capacity_monotone(0, itemsize_of(kind) as nat);
    assert(zeros.wf());
    if lane_length(zeros, axis) > 0 {
        if zeros.size() == 0 {
            lemma_empty_has_no_lanes(zeros, axis);
        } else {
            assert forall|i: int| 0 <= i < l.len() implies l[i] == 0 by {
                lemma_lane_elements(zeros, axis, j, i);
            }
        }
    }
    lemma_sum_of_zeros(kind, l);
}

/// What a reduction comes to: a type mismatch where the kind of element
/// is not one that the reduction works on, else the error of the
/// reduction if it has one, else the array of what `f` makes of every
/// lane.
pub open spec fn reduce_spec(
    array: ArrayView,
    axis: Option<usize>,
    supported: bool,
    f: spec_fn(Seq<u64>) -> u64,
) -> Result<ArrayView, ArrayError> {
    if !supported {
        Err(ArrayError::TypeMismatch)
    } else {
        match reduce_error(array, axis) {
            Some(e) => Err(e),
            None => Ok(reduced_view(array, axis, f)),
        }
    }
}

/// Whether `result` is what [`reduce_spec`] calls for.
pub open spec fn is_reduction(
    result: Result<Array, ArrayError>,
    array: ArrayView,
    axis: Option<usize>,
    supported: bool,
    f: spec_fn(Seq<u64>) -> u64,
) -> bool {
    match result {
        Ok(out) => {
            &&& reduce_spec(array, axis, supported, f) is Ok
            &&& out@ == reduced_view(array, axis, f)
            &&& out@.wf()
            &&& out.is_packed()
        },
        Err(e) => reduce_spec(array, axis, supported, f) == Err::<ArrayView, ArrayError>(e),
    }
}

/// Every element of every lane of an array is an element of the array.
pub proof fn lemma_lane_elements(array: ArrayView, axis: Option<usize>, j: int, i: int)
    requires
        array.wf(),
        array.size() > 0,
        !(axis is Some && axis->0 >= array.shape.len()),
        0 <= j < shape_product(reduced_shape(array.shape, axis)),
        0 <= i < lane_length(array, axis),
    ensures
        0 <= lane_index(j, i, lane_length(array, axis), lane_step(array, axis))
            < array.elements.len(),
        lane(array, axis, j)[i] < capacity(array.itemsize()),
{
    lemma_positive_iff_nonempty(array.shape);
    match axis {
        None => {
            assert(reduced_shape(array.shape, axis) =~= Seq::<i64>::empty());
            lemma_lane_index_bound(j, i, 1, array.size(), 1);
            assert(1 * array.size() * 1 == array.size()) by (nonlinear_arith);
        },
        Some(a) => {
            lemma_product_around_axis(array.shape, a as int);
            crate::layout::lemma_prefix_product(array.shape, a as int);
            lemma_suffix_product_bound(array.shape, a + 1);
            let after = array.shape.skip(a + 1);
            assert forall|m: int| 0 <= m < after.len() implies after[m] > 0 by {
                assert(after[m] == array.shape[a + 1 + m]);
            }
            crate::layout::lemma_product_positive(after);
            lemma_lane_index_bound(
                j,
                i,
                shape_product(array.shape.take(a as int)),
                lane_length(array, axis),
                lane_step(array, axis),
            );
        },
    }
}

/// The sum of the elements of an array of signed integers: of all
/// elements, or along one axis. The sum wraps at the width of the
/// elements.
pub fn sum_along_axis(array: &Array, axis: Option<usize>) -> (result: Result<Array, ArrayError>)
    ensures
        is_reduction(
            result,
            array@,
            axis,
            is_integer(array@.dtype),
            |l: Seq<u64>| lane_sum(array@.dtype, l),
        ),
{
    let kind: NpyType = array.dtype().type_();
    if !kind.is_integer() {
        return Err(ArrayError::TypeMismatch);
    }
    let size: usize = array.size();
    let kernel = |acc: u64, x: u64| -> (next: u64)
        requires
            acc < capacity(itemsize_of(kind) as nat),
            x < capacity(itemsize_of(kind) as nat),
        ensures
            next == arithmetic_spec(Arithmetic::Add, kind, acc, x),
            next < capacity(itemsize_of(kind) as nat),
        { arithmetic_bits(Arithmetic::Add, kind, acc, x) };
    match reduce_loop(array, axis, kernel) {
        Err(e) => Err(e),
        Ok(out) => {
            proof {
                let f = |l: Seq<u64>| lane_sum(kind, l);
                let expected = reduced_view(array@, axis, f);
                assert(out@.elements.len() == expected.elements.len());
                assert forall|j: int| 0 <= j < out@.elements.len() implies out@.elements[j]
                    == expected.elements[j] by {
                    let l = lane(array@, axis, j);
                    assert(folds_to(kernel, l, out@.elements[j]));
                    lemma_fold_deterministic(
                        kernel,
                        |a: u64, b: u64| arithmetic_spec(Arithmetic::Add, kind, a, b),
                        l,
                        out@.elements[j],
                    );
                    if array@.size() > 0 {
                        assert forall|i: int| 0 <= i < l.len() implies l[i] < capacity(
                            itemsize_of(kind) as nat,
                        ) by {
                            lemma_lane_elements(array@, axis, j, i);
                        }
                        lemma_sum_fold(kind, l);
                    } else {
                        lemma_positive_iff_nonempty(array@.shape);
                        lemma_empty_has_no_lanes(array@, axis);
                    }
                }
                assert(out@ =~= expected);
            }
            Ok(out)
        },
    }
}

/// An array without elements whose lanes are not empty has no lanes.
pub proof fn lemma_empty_has_no_lanes(array: ArrayView, axis: Option<usize>)
    requires
        array.wf(),
        array.size() == 0,
        !(axis is Some && axis->0 >= array.shape.len()),
        lane_length(array, axis) != 0,
    ensures
        shape_product(reduced_shape(array.shape, axis)) == 0,
{
    match axis {
        None => {},
        Some(a) => {
            lemma_product_around_axis(array.shape, a as int);
            let before = shape_product(array.shape.take(a as int));
            let after = shape_product(array.shape.skip(a + 1));
            let d = array.shape[a as int] as int;
            assert(before * d * after == 0 ==> before * after == 0) by (nonlinear_arith)
                requires
                    d != 0,
            ;
        },
    }
}

/// The lesser of two bit patterns of a kind.
pub fn least_bits(kind: NpyType, a: u64, b: u64) -> (least: u64)
    requires
        a < capacity(itemsize_of(kind) as nat),
        b < capacity(itemsize_of(kind) as nat),
    ensures
        least == least_of(kind, a, b),
        least == a || least == b,
{
    if is_nan_bits(kind, a) {
        a
    } else if is_nan_bits(kind, b) {
        b
    } else if order_key_of(kind, b) < order_key_of(kind, a) {
        b
    } else {
        a
    }
}

/// The greater of two bit patterns of a kind.
pub fn greatest_bits(kind: NpyType, a: u64, b: u64) -> (greatest: u64)
    requires
        a < capacity(itemsize_of(kind) as nat),
        b < capacity(itemsize_of(kind) as nat),
    ensures
        greatest == greatest_of(kind, a, b),
        greatest == a || greatest == b,
{
    if is_nan_bits(kind, a) {
        a
    } else if is_nan_bits(kind, b) {
        b
    } else if order_key_of(kind, a) < order_key_of(kind, b) {
        b
    } else {
        a
    }
}

/// The least element of an array: of all elements, or along one axis.
/// Elements of every kind have an order. Among IEEE 754 numbers, what is
/// not a number is the least of any lane that it occurs in.
pub fn min_along_axis(array: &Array, axis: Option<usize>) -> (result: Result<Array, ArrayError>)
    ensures
        is_reduction(result, array@, axis, true, |l: Seq<u64>| lane_min(array@.dtype, l)),
{
    let kind: NpyType = array.dtype().type_();
    let kernel = |acc: u64, x: u64| -> (next: u64)
        requires
            acc < capacity(itemsize_of(kind) as nat),
            x < capacity(itemsize_of(kind) as nat),
        ensures
            next == least_of(kind, acc, x),
            next < capacity(itemsize_of(kind) as nat),
        { least_bits(kind, acc, x) };
    match reduce_loop(array, axis, kernel) {
        Err(e) => Err(e),
        Ok(out) => {
            proof {
                let expected = reduced_view(array@, axis, |l: Seq<u64>| lane_min(kind, l));
                assert forall|j: int| 0 <= j < out@.elements.len() implies out@.elements[j]
                    == expected.elements[j] by {
                    let l = lane(array@, axis, j);
                    assert(folds_to(kernel, l, out@.elements[j]));
                    lemma_fold_deterministic(
                        kernel,
                        |a: u64, b: u64| least_of(kind, a, b),
                        l,
                        out@.elements[j],
                    );
                }
                assert(out@ =~= expected);
            }
            Ok(out)
        },
    }
}

/// The greatest element of an array: of all elements, or along one axis.
/// Elements of every kind have an order. Among IEEE 754 numbers, what is
/// not a number is the greatest of any lane that it occurs in.
pub fn max_along_axis(array: &Array, axis: Option<usize>) -> (result: Result<Array, ArrayError>)
    ensures
        is_reduction(result, array@, axis, true, |l: Seq<u64>| lane_max(array@.dtype, l)),
{
    let kind: NpyType = array.dtype().type_();
    let kernel = |acc: u64, x: u64| -> (next: u64)
        requires
            acc < capacity(itemsize_of(kind) as nat),
            x < capacity(itemsize_of(kind) as nat),
        ensures
            next == greatest_of(kind, acc, x),
            next < capacity(itemsize_of(kind) as nat),
        { greatest_bits(kind, acc, x) };
    match reduce_loop(array, axis, kernel) {
        Err(e) => Err(e),
        Ok(out) => {
            proof {
                let expected = reduced_view(array@, axis, |l: Seq<u64>| lane_max(kind, l));
                assert forall|j: int| 0 <= j < out@.elements.len() implies out@.elements[j]
                    == expected.elements[j] by {
                    let l = lane(array@, axis, j);
                    assert(folds_to(kernel, l, out@.elements[j]));
                    lemma_fold_deterministic(
                        kernel,
                        |a: u64, b: u64| greatest_of(kind, a, b),
                        l,
                        out@.elements[j],
                    );
                }
                assert(out@ =~= expected);
            }
            Ok(out)
        },
    }
}

/// Dividing and rounding down, by magnitudes: for a negative number `t`
/// and a positive `n`, `t / n` is the negated quotient of the magnitude of
/// `t` by `n`, less one where there is a remainder.
pub proof fn lemma_floor_of_negative(t: int, n: int)
    requires
        t < 0,
        n > 0,
    ensures
        t / n == if (-t) % n == 0 {
            -((-t) / n)
        } else {
            -((-t) / n) - 1
        },
{
    let q = (-t) / n;
    let r = (-t) % n;
    lemma_fundamental_div_mod(-t, n);
    lemma_mod_bound(-t, n);
    if r == 0 {
        assert((-q) * n == -(n * q)) by (nonlinear_arith);
        lemma_fundamental_div_mod_converse(t, n, -q, 0);
    } else {
        assert((-q - 1) * n == -(n * q) - n) by (nonlinear_arith);
        lemma_fundamental_div_mod_converse(t, n, -q - 1, n - r);
    }
}

/// The mean of the elements of an array of signed integers: of all
/// elements, or along one axis. The mean is the exact sum divided by the
/// number of elements, rounded down.
pub fn mean_along_axis(array: &Array, axis: Option<usize>) -> (result: Result<Array, ArrayError>)
    ensures
        is_reduction(
            result,
            array@,
            axis,
            is_integer(array@.dtype),
            |l: Seq<u64>| lane_mean(array@.dtype, l),
        ),
{
    let kind: NpyType = array.dtype().type_();
    if !kind.is_integer() {
        return Err(ArrayError::TypeMismatch);
    }
    let (shape, length, step) = match lane_geometry(array, axis) {
        Ok(geometry) => geometry,
        Err(e) => {
            return Err(e);
        },
    };
    let dtype: DType = *array.dtype();
    let width: usize = dtype.itemsize();
    let mut out: Array = match Array::new(shape, dtype) {
        Ok(out) => out,
        Err(e) => {
            return Err(e);
        },
    };
    let lanes: usize = out.size();
    let size: usize = array.size();
    let ghost outer = lane_outer(array@, axis);
    let ghost expected = reduced_view(array@, axis, |l: Seq<u64>| lane_mean(kind, l));
    let mut j: usize = 0;
    proof {
        lemma_capacity_values();
    }
    while j < lanes
        invariant
            j <= lanes,
            array@.wf(),
            is_integer(kind),
            kind == array@.dtype,
            width == itemsize_of(kind),
            1 <= width <= 8,
            size == array@.elements.len(),
            lanes == out@.elements.len(),
            lanes > 0 ==> size > 0,
            size > 0 ==> {
                &&& length == lane_length(array@, axis)
                &&& step == lane_step(array@, axis)
                &&& step > 0
                &&& length > 0
                &&& lanes == outer * step
                &&& size == outer * length * step
            },
            out@.shape == reduced_shape(array@.shape, axis),
            out@.dtype == array@.dtype,
            out.is_packed(),
            out@.wf(),
            expected == reduced_view(array@, axis, |l: Seq<u64>| lane_mean(kind, l)),
            lanes == expected.elements.len(),
            forall|m: int| 0 <= m < j ==> #[trigger] out@.elements[m] == expected.elements[m],
        decreases lanes - j,
    {
        let ghost whole = lane(array@, axis, j as int);
        proof {
            lemma_lane_index_bound(j as int, 0, outer, length as int, step as int);
            assert(whole.take(0) =~= Seq::<u64>::empty());
        }
        let run: usize = length * step;
        let start: usize = (j / step) * run + j % step;
        let mut total: i128 = 0;
        let mut i: usize = 0;
        while i < length
            invariant
                i <= length,
                j < lanes,
                array@.wf(),
                kind == array@.dtype,
                width == itemsize_of(kind),
                1 <= width <= 8,
                size == array@.elements.len(),
                lanes == outer * step,
                size == outer * length * step,
                step > 0,
                length == lane_length(array@, axis),
                step == lane_step(array@, axis),
                run == length * step,
                start == (j / step) * run + j % step,
                whole == lane(array@, axis, j as int),
                total == signed_sum(whole.take(i as int), width as nat),
                -0x8000_0000_0000_0000 * i <= total <= 0x7FFF_FFFF_FFFF_FFFF * i,
            decreases length - i,
        {
            proof {
                lemma_lane_index_bound(j as int, i as int, outer, length as int, step as int);
                assert(whole.take(i + 1).drop_last() =~= whole.take(i as int));
                assert(whole.take(i + 1).last() == whole[i as int]);
                lemma_capacity_values();
                crate::scalar::lemma_capacity_monotone(width as nat, 8);
            }
            let x: u64 = array.element(start + i * step);
            let value: i64 = to_signed(x, width);
            total = total + value as i128;
            i += 1;
        }
        proof {
            assert(whole.take(length as int) =~= whole);
        }
        let count: i128 = length as i128;
        let mean: i128 = if total >= 0 {
            total / count
        } else {
            proof {
                lemma_floor_of_negative(total as int, count as int);
            }
            let magnitude: i128 = -total;
            if magnitude % count == 0 {
                -(magnitude / count)
            } else {
                -(magnitude / count) - 1
            }
        };
        proof {
            let t = total as int;
            let n = count as int;
            assert(-0x8000_0000_0000_0000 <= t / n <= 0x7FFF_FFFF_FFFF_FFFF) by (nonlinear_arith)
                requires
                    n > 0,
                    -0x8000_0000_0000_0000 * n <= t <= 0x7FFF_FFFF_FFFF_FFFF * n,
            ;
        }
        let bits: u64 = from_signed(mean as i64, width);
        let ghost earlier = out@.elements;
        out.put(j, bits);
        proof {
            lemma_stored_fits(bits, array@.dtype);
            assert forall|m: int| 0 <= m < j + 1 implies #[trigger] out@.elements[m]
                == expected.elements[m] by {
                if m < j {
                    assert(out@.elements[m] == earlier[m]);
                }
            }
        }
        j += 1;
    }
    proof {
        assert(out@ =~= expected);
    }
    Ok(out)
}

} // verus!
