//! Shape algebra: pure functions over shape vectors.
//!
//! A shape is a sequence of signed 64-bit dimension sizes. The functions
//! here compute element counts, resolve reshape requests with an inferred
//! dimension, lay out row-major strides, and permute, remove or insert axes.

use vstd::prelude::*;

verus! {

/// Why a shape operation was refused.
#[derive(Debug, Clone, Copy, PartialEq, Eq, Structural)]
pub enum ShapeError {
    /// The requested shape is malformed or cannot be resolved.
    InvalidShape,
    /// The total element counts of the two shapes differ.
    SizeMismatch,
    /// An axis index is out of range or occurs twice.
    InvalidDimension,
}

impl ShapeError {
    /// The text of this error as a sequence of characters.
    pub open spec fn spec_message(self) -> Seq<char> {
        match self {
            ShapeError::InvalidShape => "Invalid shape"@,
            ShapeError::SizeMismatch => "Size mismatch"@,
            ShapeError::InvalidDimension => "Invalid dimension"@,
        }
    }

    /// A short human-readable description of the error.
    pub fn message(&self) -> (text: String)
        ensures
            text@ == self.spec_message(),
    {
        match self {
            ShapeError::InvalidShape => "Invalid shape".to_owned(),
            ShapeError::SizeMismatch => "Size mismatch".to_owned(),
            ShapeError::InvalidDimension => "Invalid dimension".to_owned(),
        }
    }
}

/// The product of all dimensions of a shape; the empty shape has product 1.
pub open spec fn shape_product(shape: Seq<i64>) -> int
    decreases shape.len(),
{
    if shape.len() == 0 {
        1
    } else {
        shape_product(shape.drop_last()) * (shape.last() as int)
    }
}

/// The magnitude of an integer.
pub open spec fn magnitude(x: int) -> int {
    if x < 0 {
        -x
    } else {
        x
    }
}

/// A shape with a zero dimension has product zero.
pub proof fn lemma_product_with_zero(shape: Seq<i64>, i: int)
    requires
        0 <= i < shape.len(),
        shape[i] == 0,
    ensures
        shape_product(shape) == 0,
    decreases shape.len(),
{
    if i < shape.len() - 1 {
        lemma_product_with_zero(shape.drop_last(), i);
    }
    assert(shape_product(shape) == shape_product(shape.drop_last()) * (shape.last() as int));
    assert(shape_product(shape) == 0) by (nonlinear_arith)
        requires
            shape_product(shape) == shape_product(shape.drop_last()) * (shape.last() as int),
            shape_product(shape.drop_last()) == 0 || shape.last() == 0,
    ;
}

/// Where no dimension is zero, the product is not zero, and the magnitude of
/// the product of a prefix never exceeds that of the whole.
pub proof fn lemma_product_prefix_bound(shape: Seq<i64>, k: int)
    requires
        0 <= k <= shape.len(),
        forall|i: int| 0 <= i < shape.len() ==> shape[i] != 0,
    ensures
        shape_product(shape) != 0,
        magnitude(shape_product(shape.take(k))) <= magnitude(shape_product(shape)),
    decreases shape.len(),
{
    if shape.len() == 0 {
        assert(shape.take(k) =~= shape);
    } else {
        let init = shape.drop_last();
        let last = shape.last() as int;
        let p = shape_product(init);
        if k == shape.len() {
            assert(shape.take(k) =~= shape);
            lemma_product_prefix_bound(init, k - 1);
        } else {
            lemma_product_prefix_bound(init, k);
            assert(shape.take(k) =~= init.take(k));
        }
        assert(p * last != 0 && magnitude(p) <= magnitude(p * last)) by (nonlinear_arith)
            requires
                p != 0,
                last != 0,
        ;
    }
}

/// The product of a shape, where its magnitude is at most 2^63, and
/// nothing where it is more.
pub fn bounded_product(shape: &[i64]) -> (product: Option<i128>)
    ensures
        match product {
            Some(p) => p == shape_product(shape@) && magnitude(p as int) <= 0x8000_0000_0000_0000,
            None => magnitude(shape_product(shape@)) > 0x8000_0000_0000_0000,
        },
{
    let n: usize = shape.len();
    let mut j: usize = 0;
    while j < n
        invariant
            n == shape.len(),
            j <= n,
            forall|i: int| 0 <= i < j ==> shape[i] != 0,
        decreases n - j,
    {
        if shape[j] == 0 {
            proof {
                lemma_product_with_zero(shape@, j as int);
            }
            return Some(0);
        }
        j += 1;
    }
    let mut acc: i128 = 1;
    let mut k: usize = 0;
    while k < n
        invariant
            n == shape.len(),
            k <= n,
            forall|i: int| 0 <= i < n ==> shape[i] != 0,
            acc == shape_product(shape@.take(k as int)),
            magnitude(acc as int) <= 0x8000_0000_0000_0000,
        decreases n - k,
    {
        let d: i128 = shape[k] as i128;
        assert(magnitude(acc * d) <= 0x8000_0000_0000_0000 * 0x8000_0000_0000_0000)
            by (nonlinear_arith)
            requires
                magnitude(acc as int) <= 0x8000_0000_0000_0000,
                magnitude(d as int) <= 0x8000_0000_0000_0000,
        ;
        proof {
            assert(shape@.take(k + 1).drop_last() =~= shape@.take(k as int));
        }
        acc = acc * d;
        k += 1;
        if acc > 0x8000_0000_0000_0000 || acc < -0x8000_0000_0000_0000 {
            proof {
                lemma_product_prefix_bound(shape@, k as int);
            }
            return None;
        }
    }
    proof {
        assert(shape@.take(n as int) =~= shape@);
    }
    Some(acc)
}

/// The number of elements that an array of the given shape holds: the
/// product of all dimensions, 1 for the empty shape.
pub fn compute_size(shape: &[i64]) -> (size: i64)
    requires
        i64::MIN <= shape_product(shape@) <= i64::MAX,
    ensures
        size == shape_product(shape@),
{
    match bounded_product(shape) {
        Some(p) => p as i64,
        None => 0,
    }
}

/// How many dimensions of a reshape request are left to be inferred, that is
/// how many entries are -1.
pub open spec fn inferred_count(shape: Seq<i64>) -> nat
    decreases shape.len(),
{
    if shape.len() == 0 {
        0
    } else {
        inferred_count(shape.drop_last()) + if shape.last() == -1 {
            1nat
        } else {
            0nat
        }
    }
}

/// A reshape request in which every dimension left to be inferred is `dim`.
pub open spec fn resolved_shape(shape: Seq<i64>, dim: i64) -> Seq<i64> {
    Seq::new(
        shape.len(),
        |i: int|
            if shape[i] == -1 {
                dim
            } else {
                shape[i]
            },
    )
}

/// The product of the dimensions of a reshape request that are given.
pub open spec fn known_product(shape: Seq<i64>) -> int {
    shape_product(resolved_shape(shape, 1))
}

/// What a reshape request resolves to for an array of shape `old_shape`.
///
/// More than one dimension to infer is an invalid shape. With none, the
/// request stands as it is if it keeps the element count, and is a size
/// mismatch otherwise. With one, the given dimensions must have a product
/// other than zero that divides the element count exactly; the quotient
/// takes the place of the inferred dimension.
pub open spec fn resolve_reshape_spec(old_shape: Seq<i64>, new_shape: Seq<i64>) -> Result<
    Seq<i64>,
    ShapeError,
> {
    let old_size = shape_product(old_shape);
    let known = known_product(new_shape);
    if inferred_count(new_shape) > 1 {
        Err(ShapeError::InvalidShape)
    } else if inferred_count(new_shape) == 0 {
        if shape_product(new_shape) == old_size {
            Ok(new_shape)
        } else {
            Err(ShapeError::SizeMismatch)
        }
    } else if known == 0 || old_size % known != 0 {
        Err(ShapeError::InvalidShape)
    } else {
        Ok(resolved_shape(new_shape, (old_size / known) as i64))
    }
}

/// A request with nothing to infer resolves to itself.
pub proof fn lemma_resolved_without_inferred(shape: Seq<i64>, dim: i64)
    requires
        inferred_count(shape) == 0,
    ensures
        resolved_shape(shape, dim) == shape,
    decreases shape.len(),
{
    if shape.len() > 0 {
        let init = shape.drop_last();
        lemma_resolved_without_inferred(init, dim);
        assert forall|i: int| 0 <= i < shape.len() implies resolved_shape(shape, dim)[i]
            == shape[i] by {
            if i < init.len() {
                assert(resolved_shape(init, dim)[i] == init[i]);
            }
        }
    }
    assert(resolved_shape(shape, dim) =~= shape);
}

/// With exactly one dimension to infer, the resolved shape has the product
/// of the given dimensions times the inferred one.
pub proof fn lemma_resolved_product(shape: Seq<i64>, dim: i64)
    requires
        inferred_count(shape) == 1,
    ensures
        shape_product(resolved_shape(shape, dim)) == known_product(shape) * dim,
    decreases shape.len(),
{
    let init = shape.drop_last();
    assert(resolved_shape(shape, dim).drop_last() =~= resolved_shape(init, dim));
    assert(resolved_shape(shape, 1).drop_last() =~= resolved_shape(init, 1));
    if shape.last() == -1 {
        lemma_resolved_without_inferred(init, dim);
        lemma_resolved_without_inferred(init, 1);
        assert(shape_product(init) * 1 * dim == shape_product(init) * dim) by (nonlinear_arith);
    } else {
        lemma_resolved_product(init, dim);
        let k = known_product(init);
        let l = shape.last() as int;
        assert((k * dim) * l == (k * l) * dim) by (nonlinear_arith);
    }
}

/// A product of integers none of which is -1 is not -1.
pub proof fn lemma_product_not_minus_one(shape: Seq<i64>)
    requires
        forall|i: int| 0 <= i < shape.len() ==> shape[i] != -1,
    ensures
        shape_product(shape) != -1,
    decreases shape.len(),
{
    if shape.len() > 0 {
        lemma_product_not_minus_one(shape.drop_last());
        let p = shape_product(shape.drop_last());
        let l = shape.last() as int;
        assert(p * l != -1) by (nonlinear_arith)
            requires
                p != -1,
                l != -1,
        ;
    }
}

/// Exact division by magnitudes: `x` is a multiple of `d` exactly when the
/// magnitude of `x` is a multiple of that of `d`, and the quotient then is
/// the quotient of the magnitudes with the sign of `x * d`.
pub proof fn lemma_exact_division(x: int, d: int)
    requires
        d != 0,
    ensures
        (x % d == 0) == (magnitude(x) % magnitude(d) == 0),
        x % d == 0 ==> magnitude(x / d) == magnitude(x) / magnitude(d),
        x % d == 0 ==> ((x / d < 0) == (x != 0 && (x < 0) != (d < 0))),
{
    let a = magnitude(x);
    let b = magnitude(d);
    if x % d == 0 {
        let q = x / d;
        assert(x == d * q) by (nonlinear_arith)
            requires
                d != 0,
                x % d == 0,
                q == x / d,
        ;
        assert(a == b * magnitude(q) && ((q < 0) == (x != 0 && (x < 0) != (d < 0))))
            by (nonlinear_arith)
            requires
                x == d * q,
                d != 0,
                a == magnitude(x),
                b == magnitude(d),
        ;
        assert(a % b == 0 && a / b == magnitude(q)) by (nonlinear_arith)
            requires
                a == b * magnitude(q),
                b > 0,
        ;
    }
    if a % b == 0 {
        let m = a / b;
        assert(a == b * m) by (nonlinear_arith)
            requires
                b > 0,
                a % b == 0,
                m == a / b,
        ;
        let q = if (x < 0) != (d < 0) {
            -m
        } else {
            m
        };
        assert(x == d * q) by (nonlinear_arith)
            requires
                a == b * m,
                a == magnitude(x),
                b == magnitude(d),
                q == if (x < 0) != (d < 0) {
                    -m
                } else {
                    m
                },
        ;
        assert(x % d == 0) by (nonlinear_arith)
            requires
                x == d * q,
                d != 0,
        ;
    }
}

/// Counts the dimensions that are left to be inferred.
fn count_inferred(shape: &[i64]) -> (count: usize)
    ensures
        count == inferred_count(shape@),
{
    let n: usize = shape.len();
    let mut count: usize = 0;
    let mut i: usize = 0;
    while i < n
        invariant
            n == shape.len(),
            i <= n,
            count <= i,
            count == inferred_count(shape@.take(i as int)),
        decreases n - i,
    {
        proof {
            assert(shape@.take(i + 1).drop_last() =~= shape@.take(i as int));
        }
        if shape[i] == -1 {
            count += 1;
        }
        i += 1;
    }
    proof {
        assert(shape@.take(n as int) =~= shape@);
    }
    count
}

/// Copies a reshape request, writing `dim` for each dimension to infer.
fn fill_inferred(shape: &[i64], dim: i64) -> (filled: Vec<i64>)
    ensures
        filled@ == resolved_shape(shape@, dim),
{
    let n: usize = shape.len();
    let mut filled: Vec<i64> = Vec::with_capacity(n);
    let mut i: usize = 0;
    while i < n
        invariant
            n == shape.len(),
            i <= n,
            filled.len() == i,
            forall|j: int| 0 <= j < i ==> filled[j] == resolved_shape(shape@, dim)[j],
        decreases n - i,
    {
        if shape[i] == -1 {
            filled.push(dim);
        } else {
            filled.push(shape[i]);
        }
        i += 1;
    }
    assert(filled@ =~= resolved_shape(shape@, dim));
    filled
}

/// Resolves a reshape request against the shape of the array it is for.
///
/// `new_shape` may hold -1 once, for a dimension to be inferred from the
/// element count of `old_shape`. The result has the element count of
/// `old_shape`.
pub fn resolve_reshape_shape(old_shape: &[i64], new_shape: &[i64]) -> (result: Result<
    Vec<i64>,
    ShapeError,
>)
    requires
        i64::MIN <= shape_product(old_shape@) <= i64::MAX,
    ensures
        match result {
            Ok(shape) => resolve_reshape_spec(old_shape@, new_shape@) == Ok::<
                Seq<i64>,
                ShapeError,
            >(shape@),
            Err(e) => resolve_reshape_spec(old_shape@, new_shape@) == Err::<
                Seq<i64>,
                ShapeError,
            >(e),
        },
{
    let old_size: i64 = compute_size(old_shape);
    let count: usize = count_inferred(new_shape);
    if count > 1 {
        return Err(ShapeError::InvalidShape);
    }
    if count == 0 {
        proof {
            lemma_resolved_without_inferred(new_shape@, -1i64);
        }
        return match bounded_product(new_shape) {
            Some(p) => {
                if p == old_size as i128 {
                    Ok(fill_inferred(new_shape, -1))
                } else {
                    Err(ShapeError::SizeMismatch)
                }
            },
            None => Err(ShapeError::SizeMismatch),
        };
    }
    let given: Vec<i64> = fill_inferred(new_shape, 1);
    proof {
        lemma_product_not_minus_one(given@);
    }
    match bounded_product(given.as_slice()) {
        None => {
            let ghost known = known_product(new_shape@);
            if old_size == 0 {
                assert(0int % known == 0 && 0int / known == 0) by (nonlinear_arith)
                    requires
                        known != 0,
                ;
                Ok(fill_inferred(new_shape, 0))
            } else {
                proof {
                    lemma_exact_division(old_size as int, known);
                    let a = magnitude(old_size as int);
                    let b = magnitude(known);
                    assert(a % b != 0) by (nonlinear_arith)
                        requires
                            0 < a < b,
                    ;
                }
                Err(ShapeError::InvalidShape)
            }
        },
        Some(known) => {
            if known == 0 {
                return Err(ShapeError::InvalidShape);
            }
            let old_abs: i128 = if old_size < 0 {
                -(old_size as i128)
            } else {
                old_size as i128
            };
            let known_abs: i128 = if known < 0 {
                -known
            } else {
                known
            };
            proof {
                lemma_exact_division(old_size as int, known as int);
            }
            if old_abs % known_abs != 0 {
                return Err(ShapeError::InvalidShape);
            }
            let quotient_abs: i128 = old_abs / known_abs;
            let negative: bool = old_size != 0 && ((old_size < 0) != (known < 0));
            let quotient: i128 = if negative {
                -quotient_abs
            } else {
                quotient_abs
            };
            proof {
                let x = old_size as int;
                let d = known as int;
                assert(quotient == x / d);
            }
            Ok(fill_inferred(new_shape, quotient as i64))
        },
    }
}

/// Whether a reshape request can be met for an array of shape `old_shape`:
/// succeeds exactly when [`resolve_reshape_shape`] does, with the same error
/// otherwise.
pub fn validate_reshape_shape(old_shape: &[i64], new_shape: &[i64]) -> (result: Result<
    (),
    ShapeError,
>)
    requires
        i64::MIN <= shape_product(old_shape@) <= i64::MAX,
    ensures
        match result {
            Ok(_) => resolve_reshape_spec(old_shape@, new_shape@) is Ok,
            Err(e) => resolve_reshape_spec(old_shape@, new_shape@) == Err::<
                Seq<i64>,
                ShapeError,
            >(e),
        },
{
    match resolve_reshape_shape(old_shape, new_shape) {
        Ok(_) => Ok(()),
        Err(e) => Err(e),
    }
}

/// The dimension inferred by a resolved reshape request fits in 64 bits,
/// and the resolved shape has the element count of the old one.
pub proof fn lemma_reshape_preserves_size(old_shape: Seq<i64>, new_shape: Seq<i64>)
    requires
        i64::MIN <= shape_product(old_shape) <= i64::MAX,
        resolve_reshape_spec(old_shape, new_shape) is Ok,
    ensures
        inferred_count(new_shape) == 1 ==> i64::MIN <= shape_product(old_shape) / known_product(
            new_shape,
        ) <= i64::MAX,
        shape_product(resolve_reshape_spec(old_shape, new_shape)->Ok_0) == shape_product(
            old_shape,
        ),
{
    if inferred_count(new_shape) == 1 {
        let x = shape_product(old_shape);
        let d = known_product(new_shape);
        let q = x / d;
        lemma_product_not_minus_one(resolved_shape(new_shape, 1));
        lemma_exact_division(x, d);
        assert(x == d * q) by (nonlinear_arith)
            requires
                d != 0,
                x % d == 0,
                q == x / d,
        ;
        assert(magnitude(q) <= magnitude(x) && (magnitude(q) == magnitude(x) ==> (magnitude(d)
            == 1 || x == 0))) by (nonlinear_arith)
            requires
                d != 0,
                x == d * q,
        ;
        lemma_resolved_product(new_shape, q as i64);
        assert(d * q == q * d) by (nonlinear_arith);
    }
}

/// Reshaping to a shape and then back to the first shape succeeds and
/// gives the first shape again, with the element count kept in between.
pub proof fn lemma_reshape_round_trip(old_shape: Seq<i64>, new_shape: Seq<i64>)
    requires
        i64::MIN <= shape_product(old_shape) <= i64::MAX,
        inferred_count(old_shape) == 0,
        resolve_reshape_spec(old_shape, new_shape) is Ok,
    ensures
        shape_product(resolve_reshape_spec(old_shape, new_shape)->Ok_0) == shape_product(
            old_shape,
        ),
        resolve_reshape_spec(resolve_reshape_spec(old_shape, new_shape)->Ok_0, old_shape) == Ok::<
            Seq<i64>,
            ShapeError,
        >(old_shape),
{
    lemma_reshape_preserves_size(old_shape, new_shape);
}

/// The product of a shape is its first dimension times the product of the
/// rest.
pub proof fn lemma_product_split_first(shape: Seq<i64>)
    requires
        shape.len() > 0,
    ensures
        shape_product(shape) == (shape.first() as int) * shape_product(shape.drop_first()),
    decreases shape.len(),
{
    if shape.len() == 1 {
        assert(shape.drop_last() =~= shape.drop_first());
        assert(shape_product(shape.drop_last()) == 1);
        assert(shape_product(shape.drop_first()) == 1);
    } else {
        let init = shape.drop_last();
        lemma_product_split_first(init);
        assert(init.drop_first() =~= shape.drop_first().drop_last());
        let f = shape.first() as int;
        let m = shape_product(init.drop_first());
        let l = shape.last() as int;
        assert(init.first() == shape.first());
        assert(shape.drop_first().last() == shape.last());
        assert((f * m) * l == f * (m * l)) by (nonlinear_arith);
    }
}

/// The row-major stride of an axis: the item size times the product of
/// all dimensions after that axis.
pub open spec fn c_stride(shape: Seq<i64>, itemsize: int, axis: int) -> int {
    itemsize * shape_product(shape.skip(axis + 1))
}

/// Each row-major stride is the next one times the next dimension. The
/// stride of the axis before the first, -1, is the size of the whole in
/// bytes.
pub proof fn lemma_c_stride_step(shape: Seq<i64>, itemsize: int, axis: int)
    requires
        -1 <= axis < shape.len() - 1,
    ensures
        c_stride(shape, itemsize, axis) == c_stride(shape, itemsize, axis + 1) * shape[axis + 1],
{
    let tail = shape.skip(axis + 1);
    lemma_product_split_first(tail);
    assert(tail.drop_first() =~= shape.skip(axis + 2));
    assert(tail.first() == shape[axis + 1]);
    let d = shape[axis + 1] as int;
    let p = shape_product(shape.skip(axis + 2));
    assert(itemsize * (d * p) == (itemsize * p) * d) by (nonlinear_arith);
}

/// Strides in bytes for a freshly packed buffer in row-major order: the
/// last axis moves by one item, each axis before it by the next stride
/// times the next dimension.
pub fn compute_reshape_strides(shape: &[i64], itemsize: usize) -> (strides: Vec<i64>)
    requires
        forall|axis: int|
            0 <= axis < shape.len() ==> i64::MIN <= #[trigger] c_stride(
                shape@,
                itemsize as int,
                axis,
            ) <= i64::MAX,
    ensures
        strides.len() == shape.len(),
        forall|axis: int|
            0 <= axis < shape.len() ==> strides[axis] == c_stride(shape@, itemsize as int, axis),
{
    let n: usize = shape.len();
    let mut strides: Vec<i64> = vec![0; n];
    if n > 0 {
        proof {
            assert(shape@.skip(n as int) =~= Seq::<i64>::empty());
            assert(c_stride(shape@, itemsize as int, n - 1) == itemsize * 1);
        }
        strides.set(n - 1, itemsize as i64);
        let mut i: usize = n - 1;
        while i > 0
            invariant
                n == shape.len(),
                strides.len() == n,
                i < n,
                forall|axis: int|
                    0 <= axis < n ==> i64::MIN <= #[trigger] c_stride(
                        shape@,
                        itemsize as int,
                        axis,
                    ) <= i64::MAX,
                forall|axis: int|
                    i <= axis < n ==> strides[axis] == c_stride(shape@, itemsize as int, axis),
            decreases i,
        {
            proof {
                lemma_c_stride_step(shape@, itemsize as int, i - 1);
                assert(strides[i as int] == c_stride(shape@, itemsize as int, i as int));
            }
            let stride: i64 = strides[i] * shape[i];
            strides.set(i - 1, stride);
            i -= 1;
        }
    }
    strides
}

/// Whether `axes` names each of the axes `0..ndim` exactly once.
pub open spec fn is_permutation(axes: Seq<usize>, ndim: nat) -> bool {
    &&& axes.len() == ndim
    &&& forall|i: int| 0 <= i < axes.len() ==> axes[i] < ndim
    &&& forall|i: int, j: int| 0 <= i < j < axes.len() ==> axes[i] != axes[j]
}

/// The axes of a transpose: those given, or all axes in reverse order.
pub open spec fn transpose_axes(ndim: nat, axes: Option<Seq<usize>>) -> Seq<usize> {
    match axes {
        Some(given) => given,
        None => Seq::new(ndim, |i: int| (ndim - 1 - i) as usize),
    }
}

/// A shape with its axes permuted: axis `i` of the result is axis
/// `axes[i]` of `shape`.
pub open spec fn permuted_shape(shape: Seq<i64>, axes: Seq<usize>) -> Seq<i64> {
    Seq::new(axes.len(), |i: int| shape[axes[i] as int])
}

/// The view of an optional list of axes.
pub open spec fn axes_view(axes: Option<&[usize]>) -> Option<Seq<usize>> {
    match axes {
        Some(given) => Some(given@),
        None => None,
    }
}

/// Permutes the axes of a shape.
///
/// Returns the permuted shape and the axes that were applied, which are to
/// be applied to the strides as well. Without `axes` the order of all axes
/// is reversed. Axes that are not a permutation of `0..ndim` are refused.
pub fn transpose_dimensions(shape: &[i64], axes: Option<&[usize]>) -> (result: Result<
    (Vec<i64>, Vec<i64>),
    ShapeError,
>)
    ensures
        match result {
            Ok((new_shape, mapping)) => {
                let applied = transpose_axes(shape@.len(), axes_view(axes));
                &&& is_permutation(applied, shape@.len())
                &&& new_shape@ == permuted_shape(shape@, applied)
                &&& mapping.len() == shape.len()
                &&& forall|i: int| 0 <= i < mapping.len() ==> mapping[i] == applied[i] as i64
            },
            Err(e) => {
                &&& e == ShapeError::InvalidDimension
                &&& !is_permutation(transpose_axes(shape@.len(), axes_view(axes)), shape@.len())
            },
        },
{
    let ndim: usize = shape.len();
    let mut order: Vec<usize> = Vec::with_capacity(ndim);
    match axes {
        Some(given) => {
            if given.len() != ndim {
                return Err(ShapeError::InvalidDimension);
            }
            let mut i: usize = 0;
            while i < ndim
                invariant
                    given.len() == ndim,
                    i <= ndim,
                    order.len() == i,
                    forall|j: int| 0 <= j < i ==> order[j] == given[j],
                decreases ndim - i,
            {
                order.push(given[i]);
                i += 1;
            }
            assert(order@ =~= given@);
        },
        None => {
            let mut i: usize = 0;
            while i < ndim
                invariant
                    i <= ndim,
                    order.len() == i,
                    forall|j: int| 0 <= j < i ==> order[j] == ndim - 1 - j,
                decreases ndim - i,
            {
                order.push(ndim - 1 - i);
                i += 1;
            }
            assert(order@ =~= transpose_axes(ndim as nat, None));
        },
    }
    let ghost applied = transpose_axes(shape@.len(), axes_view(axes));
    assert(order@ == applied);
    let mut seen: Vec<bool> = vec![false; ndim];
    let mut k: usize = 0;
    while k < ndim
        invariant
            ndim == shape.len(),
            order.len() == ndim,
            order@ == applied,
            applied == transpose_axes(shape@.len(), axes_view(axes)),
            seen.len() == ndim,
            k <= ndim,
            forall|j: int| 0 <= j < k ==> order[j] < ndim,
            forall|i: int, j: int| 0 <= i < j < k ==> order[i] != order[j],
            forall|a: int|
                0 <= a < ndim ==> (seen[a] <==> exists|j: int| 0 <= j < k && order[j] == a),
        decreases ndim - k,
    {
        let axis: usize = order[k];
        if axis >= ndim {
            return Err(ShapeError::InvalidDimension);
        }
        if seen[axis] {
            proof {
                let j = choose|j: int| 0 <= j < k && order[j] == axis;
                assert(order[j] == order[k as int]);
            }
            return Err(ShapeError::InvalidDimension);
        }
        let ghost before = seen@;
        seen.set(axis, true);
        proof {
            assert forall|a: int| 0 <= a < ndim implies (seen[a] <==> exists|j: int|
                0 <= j < k + 1 && order[j] == a) by {
                if a == axis {
                    assert(order[k as int] == a);
                } else {
                    assert(seen[a] == before[a]);
                    if before[a] {
                        let j = choose|j: int| 0 <= j < k && order[j] == a;
                        assert(0 <= j < k + 1 && order[j] == a);
                    }
                }
            }
        }
        k += 1;
    }
    let mut new_shape: Vec<i64> = Vec::with_capacity(ndim);
    let mut mapping: Vec<i64> = Vec::with_capacity(ndim);
    let mut m: usize = 0;
    while m < ndim
        invariant
            ndim == shape.len(),
            order.len() == ndim,
            m <= ndim,
            new_shape.len() == m,
            mapping.len() == m,
            forall|j: int| 0 <= j < ndim ==> order[j] < ndim,
            forall|j: int| 0 <= j < m ==> new_shape[j] == shape[order[j] as int],
            forall|j: int| 0 <= j < m ==> mapping[j] == order[j] as i64,
        decreases ndim - m,
    {
        new_shape.push(shape[order[m]]);
        mapping.push(order[m] as i64);
        m += 1;
    }
    assert(new_shape@ =~= permuted_shape(shape@, applied));
    Ok((new_shape, mapping))
}

/// A shape without its dimensions of size 1.
pub open spec fn squeezed_shape(shape: Seq<i64>) -> Seq<i64> {
    shape.filter(|d: i64| d != 1)
}

/// What squeezing a shape gives: with an axis, the shape without that axis
/// if it is in range and has size 1, and the shape unchanged otherwise;
/// without an axis, the shape without any dimension of size 1.
pub open spec fn squeeze_spec(shape: Seq<i64>, axis: Option<usize>) -> Seq<i64> {
    match axis {
        Some(ax) => if ax < shape.len() && shape[ax as int] == 1 {
            shape.remove(ax as int)
        } else {
            shape
        },
        None => squeezed_shape(shape),
    }
}

/// Copies a shape.
pub fn copy_shape(shape: &[i64]) -> (copy: Vec<i64>)
    ensures
        copy@ == shape@,
{
    let n: usize = shape.len();
    let mut copy: Vec<i64> = Vec::with_capacity(n);
    let mut i: usize = 0;
    while i < n
        invariant
            n == shape.len(),
            i <= n,
            copy.len() == i,
            forall|j: int| 0 <= j < i ==> copy[j] == shape[j],
        decreases n - i,
    {
        copy.push(shape[i]);
        i += 1;
    }
    assert(copy@ =~= shape@);
    copy
}

/// Removes dimensions of size 1 from a shape: the given axis if it has
/// size 1, or every such dimension where no axis is given.
pub fn squeeze_dims(shape: &[i64], axis: Option<usize>) -> (squeezed: Vec<i64>)
    ensures
        squeezed@ == squeeze_spec(shape@, axis),
{
    match axis {
        Some(ax) => {
            let mut squeezed: Vec<i64> = copy_shape(shape);
            if ax < shape.len() && shape[ax] == 1 {
                squeezed.remove(ax);
            }
            squeezed
        },
        None => {
            let n: usize = shape.len();
            let mut squeezed: Vec<i64> = Vec::new();
            let mut i: usize = 0;
            while i < n
                invariant
                    n == shape.len(),
                    i <= n,
                    squeezed@ == squeezed_shape(shape@.take(i as int)),
                decreases n - i,
            {
                proof {
                    assert(shape@.take(i + 1) =~= shape@.take(i as int).push(shape[i as int]));
                    shape@.take(i as int).lemma_filter_push(shape[i as int], |d: i64| d != 1);
                }
                if shape[i] != 1 {
                    squeezed.push(shape[i]);
                }
                i += 1;
            }
            proof {
                assert(shape@.take(n as int) =~= shape@);
            }
            squeezed
        },
    }
}

/// Inserts a dimension of size 1 at `axis`, which may be any position from
/// 0 to the number of dimensions.
pub fn expand_dims(shape: &[i64], axis: usize) -> (result: Result<Vec<i64>, ShapeError>)
    ensures
        match result {
            Ok(expanded) => axis <= shape.len() && expanded@ == shape@.insert(axis as int, 1i64),
            Err(e) => axis > shape.len() && e == ShapeError::InvalidDimension,
        },
{
    if axis > shape.len() {
        return Err(ShapeError::InvalidDimension);
    }
    let mut expanded: Vec<i64> = copy_shape(shape);
    expanded.insert(axis, 1);
    Ok(expanded)
}

/// Collapses a shape to a single dimension that holds every element. The
/// empty shape, a scalar, flattens to one element.
pub fn flatten_shape(shape: &[i64]) -> (flat: Vec<i64>)
    requires
        i64::MIN <= shape_product(shape@) <= i64::MAX,
    ensures
        flat@ == seq![shape_product(shape@) as i64],
{
    let size: i64 = compute_size(shape);
    let mut flat: Vec<i64> = Vec::with_capacity(1);
    flat.push(size);
    assert(flat@ =~= seq![size]);
    flat
}

/// Whether two shapes are the same.
pub fn same_shape(a: &[i64], b: &[i64]) -> (same: bool)
    ensures
        same == (a@ == b@),
{
    if a.len() != b.len() {
        return false;
    }
    let n: usize = a.len();
    let mut i: usize = 0;
    while i < n
        invariant
            n == a.len(),
            n == b.len(),
            i <= n,
            forall|j: int| 0 <= j < i ==> a[j] == b[j],
        decreases n - i,
    {
        if a[i] != b[i] {
            return false;
        }
        i += 1;
    }
    assert(a@ =~= b@);
    true
}

} // verus!
