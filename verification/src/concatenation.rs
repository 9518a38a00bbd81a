//! Joining arrays along an axis and splitting an array along an axis.
//!
//! Along an axis, an array of `outer` positions before the axis is a
//! sequence of `outer` rows; each row lies in one piece. Joining arrays
//! puts their rows one after the other, position by position: row `o` of
//! the result is row `o` of the first array, then row `o` of the second,
//! and so on. A row of an array is a chunk of the row of the result.
//! Splitting cuts every row of an array into chunks and gives each piece
//! its chunk of every row.

use crate::array::{Array, ArrayError, ArrayView, can_allocate};
use crate::layout::{
    lemma_positive_iff_nonempty,
    lemma_product_around_axis,
    lemma_product_concat,
    lemma_quotient_in_range,
    suffix_product,
};
use crate::shape::{copy_shape, same_shape, shape_product};
use crate::types::{DType, NpyType};
use crate::ufunc::loop_exec::lemma_stored_fits;
use vstd::arithmetic::div_mod::{lemma_fundamental_div_mod, lemma_fundamental_div_mod_converse};
use vstd::prelude::*;

verus! {

/// The sum of the sizes of chunks.
pub open spec fn total_chunk(chunks: Seq<int>) -> int
    decreases chunks.len(),
{
    if chunks.len() == 0 {
        0
    } else {
        total_chunk(chunks.drop_last()) + chunks.last()
    }
}

/// The element at place `q` of row `o` of what joining gives: the row is
/// made of one chunk of each part, in order, and part `m` gives its own row
/// `o` as its chunk.
pub open spec fn joined_at(parts: Seq<Seq<u64>>, chunks: Seq<int>, o: int, q: int) -> u64
    decreases parts.len(),
{
    if parts.len() == 0 || chunks.len() == 0 {
        0
    } else if q >= total_chunk(chunks.drop_last()) {
        parts.last()[o * chunks.last() + (q - total_chunk(chunks.drop_last()))]
    } else {
        joined_at(parts.drop_last(), chunks.drop_last(), o, q)
    }
}

/// The elements of what joining parts of `outer` rows gives.
pub open spec fn joined(parts: Seq<Seq<u64>>, chunks: Seq<int>, outer: int) -> Seq<u64> {
    Seq::new(
        (outer * total_chunk(chunks)) as nat,
        |k: int| joined_at(parts, chunks, k / total_chunk(chunks), k % total_chunk(chunks)),
    )
}

/// The elements of piece `m` of an array of rows that are cut into
/// chunks: its chunk of every row.
pub open spec fn piece_of(elements: Seq<u64>, chunks: Seq<int>, outer: int, m: int) -> Seq<u64> {
    Seq::new(
        (outer * chunks[m]) as nat,
        |j: int|
            elements[(j / chunks[m]) * total_chunk(chunks) + total_chunk(chunks.take(m)) + j
                % chunks[m]],
    )
}

/// The sizes of the first chunks add up to no more than those of all.
pub proof fn lemma_total_prefix(chunks: Seq<int>, m: int)
    requires
        0 <= m <= chunks.len(),
        forall|i: int| 0 <= i < chunks.len() ==> chunks[i] >= 0,
    ensures
        0 <= total_chunk(chunks.take(m)) <= total_chunk(chunks),
        m < chunks.len() ==> total_chunk(chunks.take(m + 1)) == total_chunk(chunks.take(m))
            + chunks[m],
    decreases chunks.len(),
{
    if m < chunks.len() {
        assert(chunks.take(m + 1).drop_last() =~= chunks.take(m));
        assert(chunks.drop_last().take(m) =~= chunks.take(m));
        lemma_total_prefix(chunks.drop_last(), m);
    } else {
        assert(chunks.take(m) =~= chunks);
        if chunks.len() > 0 {
            lemma_total_prefix(chunks.drop_last(), m - 1);
            assert(chunks.drop_last().take(m - 1) =~= chunks.drop_last());
        }
    }
}

/// A place in the chunk of part `m` holds the element of part `m` at that
/// place of its row.
pub proof fn lemma_joined_at(parts: Seq<Seq<u64>>, chunks: Seq<int>, o: int, q: int, m: int)
    requires
        parts.len() == chunks.len(),
        forall|i: int| 0 <= i < chunks.len() ==> chunks[i] >= 0,
        0 <= m < parts.len(),
        total_chunk(chunks.take(m)) <= q < total_chunk(chunks.take(m)) + chunks[m],
    ensures
        joined_at(parts, chunks, o, q) == parts[m][o * chunks[m] + (q - total_chunk(
            chunks.take(m),
        ))],
    decreases parts.len(),
{
    if m == parts.len() - 1 {
        assert(chunks.take(m) =~= chunks.drop_last());
    } else {
        lemma_total_prefix(chunks.drop_last(), m + 1);
        lemma_total_prefix(chunks, m);
        assert(chunks.drop_last().take(m + 1) =~= chunks.take(m + 1));
        assert(chunks.drop_last().take(m) =~= chunks.take(m));
        lemma_joined_at(parts.drop_last(), chunks.drop_last(), o, q, m);
    }
}

/// Every place of a row lies in the chunk of one part.
pub proof fn lemma_chunk_of(chunks: Seq<int>, q: int) -> (m: int)
    requires
        0 <= q < total_chunk(chunks),
        forall|i: int| 0 <= i < chunks.len() ==> chunks[i] >= 0,
    ensures
        0 <= m < chunks.len(),
        total_chunk(chunks.take(m)) <= q < total_chunk(chunks.take(m)) + chunks[m],
    decreases chunks.len(),
{
    if q >= total_chunk(chunks.drop_last()) {
        assert(chunks.take(chunks.len() - 1) =~= chunks.drop_last());
        chunks.len() - 1
    } else {
        let m = lemma_chunk_of(chunks.drop_last(), q);
        assert(chunks.drop_last().take(m) =~= chunks.take(m));
        m
    }
}

/// An element of a row of rows: row `o`, place `q`, where rows are `row`
/// long, is element number `o * row + q`.
pub proof fn lemma_row_place(o: int, q: int, row: int)
    requires
        0 <= q < row,
        0 <= o,
    ensures
        (o * row + q) / row == o,
        (o * row + q) % row == q,
        o * row + q >= 0,
{
    lemma_fundamental_div_mod_converse(o * row + q, row, o, q);
    assert(o * row >= 0) by (nonlinear_arith)
        requires
            o >= 0,
            row > 0,
    ;
}

/// Splitting an array along an axis and joining the pieces along the same
/// axis gives the elements of the array again, in their order.
pub proof fn lemma_split_then_join(elements: Seq<u64>, chunks: Seq<int>, outer: int)
    requires
        outer >= 0,
        forall|i: int| 0 <= i < chunks.len() ==> chunks[i] >= 0,
        elements.len() == outer * total_chunk(chunks),
    ensures
        joined(
            Seq::new(chunks.len(), |m: int| piece_of(elements, chunks, outer, m)),
            chunks,
            outer,
        ) == elements,
{
    let pieces = Seq::new(chunks.len(), |m: int| piece_of(elements, chunks, outer, m));
    let row = total_chunk(chunks);
    let whole = joined(pieces, chunks, outer);
    lemma_total_prefix(chunks, 0);
    assert forall|k: int| 0 <= k < elements.len() implies whole[k] == elements[k] by {
        if row > 0 {
            lemma_quotient_in_range(k, outer, row);
            lemma_fundamental_div_mod(k, row);
            let o = k / row;
            let q = k % row;
            let m = lemma_chunk_of(chunks, q);
            lemma_joined_at(pieces, chunks, o, q, m);
            let start = total_chunk(chunks.take(m));
            let c = chunks[m];
            lemma_row_place(o, q - start, c);
            let j = o * c + (q - start);
            assert(0 <= j < outer * c) by (nonlinear_arith)
                requires
                    0 <= o < outer,
                    0 <= q - start < c,
                    j == o * c + (q - start),
            ;
            assert(pieces[m][j] == elements[(j / c) * row + start + j % c]);
            assert(o * row == row * o) by (nonlinear_arith);
        } else {
            assert(outer * row == 0) by (nonlinear_arith)
                requires
                    row == 0,
            ;
        }
    }
    assert(whole =~= elements);
}

/// The elements of each array of a list, in row-major order.
pub open spec fn elements_of(arrays: Seq<&Array>) -> Seq<Seq<u64>> {
    Seq::new(arrays.len(), |m: int| arrays[m]@.elements)
}

/// Sizes as integers.
pub open spec fn as_ints(sizes: Seq<usize>) -> Seq<int> {
    Seq::new(sizes.len(), |i: int| sizes[i] as int)
}

/// Joins arrays row by row into `out`, a packed array that has as many
/// elements as all the arrays together.
fn join_rows(arrays: &[&Array], chunks: &Vec<usize>, outer: usize, out: Array) -> (joined_array:
    Array)
    requires
        arrays.len() == chunks.len(),
        out.is_packed(),
        out@.wf(),
        out@.elements.len() == outer * total_chunk(as_ints(chunks@)),
        forall|m: int|
            0 <= m < arrays.len() ==> {
                &&& (#[trigger] arrays[m])@.elements.len() == outer * chunks[m]
                &&& arrays[m]@.dtype == out@.dtype
                &&& arrays[m]@.wf()
            },
    ensures
        joined_array@.shape == out@.shape,
        joined_array@.dtype == out@.dtype,
        joined_array@.elements == joined(elements_of(arrays@), as_ints(chunks@), outer as int),
        joined_array@.wf(),
        joined_array.is_packed(),
{
    let ghost wanted = out@.shape;
    let ghost kind = out@.dtype;
    let mut out: Array = out;
    let n: usize = arrays.len();
    let size: usize = out.size();
    let ghost parts = elements_of(arrays@);
    let ghost sizes = as_ints(chunks@);
    let ghost row = total_chunk(sizes);
    let ghost expected = joined(parts, sizes, outer as int);
    let mut k: usize = 0;
    let mut o: usize = 0;
    proof {
        lemma_total_prefix(sizes, 0);
        assert(0 * row == 0) by (nonlinear_arith);
    }
    while o < outer
        invariant
            o <= outer,
            n == arrays.len(),
            n == chunks.len(),
            parts == elements_of(arrays@),
            sizes == as_ints(chunks@),
            row == total_chunk(sizes),
            row >= 0,
            expected == joined(parts, sizes, outer as int),
            size == outer * row,
            size == out@.elements.len(),
            out@.shape == wanted,
            out@.dtype == kind,
            out.is_packed(),
            out@.wf(),
            k == o * row,
            forall|m: int|
                0 <= m < arrays.len() ==> {
                    &&& (#[trigger] arrays[m])@.elements.len() == outer * chunks[m]
                    &&& arrays[m]@.dtype == kind
                    &&& arrays[m]@.wf()
                },
            forall|j: int| 0 <= j < k ==> #[trigger] out@.elements[j] == expected[j],
        decreases outer - o,
    {
        let mut m: usize = 0;
        proof {
            assert(sizes.take(0) =~= Seq::<int>::empty());
        }
        while m < n
            invariant
                o < outer,
                m <= n,
                n == arrays.len(),
                n == chunks.len(),
                parts == elements_of(arrays@),
                sizes == as_ints(chunks@),
            row == total_chunk(sizes),
                row >= 0,
                expected == joined(parts, sizes, outer as int),
                size == outer * row,
                size == out@.elements.len(),
                out@.shape == wanted,
                out@.dtype == kind,
                out.is_packed(),
                out@.wf(),
                k == o * row + total_chunk(sizes.take(m as int)),
                forall|m: int|
                    0 <= m < arrays.len() ==> {
                        &&& (#[trigger] arrays[m])@.elements.len() == outer * chunks[m]
                        &&& arrays[m]@.dtype == kind
                        &&& arrays[m]@.wf()
                    },
                forall|j: int| 0 <= j < k ==> #[trigger] out@.elements[j] == expected[j],
            decreases n - m,
        {
            let chunk: usize = chunks[m];
            let part_size: usize = arrays[m].size();
            let ghost start = total_chunk(sizes.take(m as int));
            proof {
                lemma_total_prefix(sizes, m as int);
                lemma_total_prefix(sizes, m + 1);
                assert(arrays[m as int]@.elements.len() == outer * chunk);
                assert(o * chunk + chunk <= outer * chunk) by (nonlinear_arith)
                    requires
                        o < outer,
                        chunk >= 0,
                ;
                assert(o * chunk >= 0) by (nonlinear_arith)
                    requires
                        o >= 0,
                        chunk >= 0,
                ;
                assert(o * row + row <= outer * row) by (nonlinear_arith)
                    requires
                        o < outer,
                        row >= 0,
                ;
            }
            let base: usize = o * chunk;
            let mut r: usize = 0;
            while r < chunk
                invariant
                    o < outer,
                    m < n,
                    r <= chunk,
                    chunk == chunks[m as int],
                    n == arrays.len(),
                    n == chunks.len(),
                    parts == elements_of(arrays@),
                    sizes == as_ints(chunks@),
            row == total_chunk(sizes),
                    expected == joined(parts, sizes, outer as int),
                    start == total_chunk(sizes.take(m as int)),
                    0 <= start,
                    start + chunk <= row,
                    base == o * chunk,
                    base + chunk <= outer * chunk,
                    outer * chunk == part_size,
                    o * row + row <= outer * row,
                    size == outer * row,
                    size == out@.elements.len(),
                    out@.shape == wanted,
                    out@.dtype == kind,
                    out.is_packed(),
                    out@.wf(),
                    k == o * row + start + r,
                    arrays[m as int]@.elements.len() == outer * chunk,
                    arrays[m as int]@.dtype == kind,
                    arrays[m as int]@.wf(),
                    forall|j: int| 0 <= j < k ==> #[trigger] out@.elements[j] == expected[j],
                decreases chunk - r,
            {
                let bits: u64 = arrays[m].element(base + r);
                let ghost before = out@.elements;
                out.put(k, bits);
                proof {
                    lemma_stored_fits(bits, kind);
                    lemma_row_place(o as int, start + r, row);
                    lemma_joined_at(parts, sizes, o as int, start + r, m as int);
                    assert(parts[m as int] == arrays[m as int]@.elements);
                    assert forall|j: int| 0 <= j < k + 1 implies #[trigger] out@.elements[j]
                        == expected[j] by {
                        if j < k {
                            assert(out@.elements[j] == before[j]);
                        }
                    }
                }
                k += 1;
                r += 1;
            }
            m += 1;
        }
        proof {
            assert(sizes.take(n as int) =~= sizes);
            assert((o + 1) * row == o * row + row) by (nonlinear_arith);
        }
        o += 1;
    }
    proof {
        assert(out@.elements =~= expected);
    }
    out
}

/// The views of the arrays of a list.
pub open spec fn views_of(arrays: Seq<&Array>) -> Seq<ArrayView> {
    Seq::new(arrays.len(), |m: int| arrays[m]@)
}

/// The elements of each of a list of arrays.
pub open spec fn parts_of(views: Seq<ArrayView>) -> Seq<Seq<u64>> {
    Seq::new(views.len(), |m: int| views[m].elements)
}

/// The number of elements of each of a list of arrays.
pub open spec fn sizes_of(views: Seq<ArrayView>) -> Seq<int> {
    Seq::new(views.len(), |m: int| views[m].elements.len() as int)
}

/// The size along an axis of each of a list of arrays.
pub open spec fn axis_lengths(views: Seq<ArrayView>, axis: int) -> Seq<int> {
    Seq::new(views.len(), |m: int| views[m].shape[axis] as int)
}

/// Lengths times a factor.
pub open spec fn scaled(lengths: Seq<int>, factor: int) -> Seq<int> {
    Seq::new(lengths.len(), |m: int| lengths[m] * factor)
}

/// Whether all arrays of a list hold the same kind of element.
pub open spec fn same_kind(views: Seq<ArrayView>) -> bool {
    forall|m: int| 0 <= m < views.len() ==> (#[trigger] views[m]).dtype == views[0].dtype
}

/// Whether all arrays of a list have the same number of dimensions.
pub open spec fn same_rank(views: Seq<ArrayView>) -> bool {
    forall|m: int|
        0 <= m < views.len() ==> (#[trigger] views[m]).shape.len() == views[0].shape.len()
}

/// Whether two shapes of the same number of dimensions agree on every
/// axis but the given one.
pub open spec fn agree_off_axis(a: Seq<i64>, b: Seq<i64>, axis: int) -> bool {
    &&& a.len() == b.len()
    &&& forall|i: int| 0 <= i < a.len() && i != axis ==> a[i] == b[i]
}

/// Whether all arrays of a list agree with the first on every axis but
/// the given one.
pub open spec fn all_agree_off_axis(views: Seq<ArrayView>, axis: int) -> bool {
    forall|m: int|
        0 <= m < views.len() ==> agree_off_axis((#[trigger] views[m]).shape, views[0].shape, axis)
}

/// What joining arrays comes to.
///
/// No arrays at all are an invalid shape; after that, arrays of different
/// kinds of element are a type mismatch. Without an axis the arrays are
/// joined as flat sequences, into an array of one dimension. With an axis
/// the arrays must have that axis and the same number of dimensions, else
/// the dimension is invalid, and must agree on every other axis, else the
/// shapes do not match; the result has their shape with the sizes along
/// the axis added up. A result too large to allocate is out of memory.
pub open spec fn concatenate_spec(views: Seq<ArrayView>, axis: Option<usize>) -> Result<
    ArrayView,
    ArrayError,
> {
    if views.len() == 0 {
        Err(ArrayError::InvalidShape)
    } else if !same_kind(views) {
        Err(ArrayError::TypeMismatch)
    } else {
        match axis {
            None => {
                let total = total_chunk(sizes_of(views));
                if total > i64::MAX || !can_allocate(seq![total as i64], views[0].dtype) {
                    Err(ArrayError::OutOfMemory)
                } else {
                    Ok(
                        ArrayView {
                            shape: seq![total as i64],
                            dtype: views[0].dtype,
                            elements: joined(parts_of(views), sizes_of(views), 1),
                        },
                    )
                }
            },
            Some(a) => {
                let first = views[0].shape;
                let total = total_chunk(axis_lengths(views, a as int));
                if a >= first.len() || !same_rank(views) {
                    Err(ArrayError::InvalidDimension)
                } else if !all_agree_off_axis(views, a as int) {
                    Err(ArrayError::ShapeMismatch)
                } else if total > i64::MAX || !can_allocate(
                    first.update(a as int, total as i64),
                    views[0].dtype,
                ) {
                    Err(ArrayError::OutOfMemory)
                } else {
                    Ok(
                        ArrayView {
                            shape: first.update(a as int, total as i64),
                            dtype: views[0].dtype,
                            elements: joined(
                                parts_of(views),
                                scaled(
                                    axis_lengths(views, a as int),
                                    shape_product(first.skip(a + 1)),
                                ),
                                shape_product(first.take(a as int)),
                            ),
                        },
                    )
                }
            },
        }
    }
}

/// Lengths times a factor add up to their sum times the factor.
pub proof fn lemma_total_scaled(lengths: Seq<int>, factor: int)
    ensures
        total_chunk(scaled(lengths, factor)) == total_chunk(lengths) * factor,
    decreases lengths.len(),
{
    if lengths.len() > 0 {
        lemma_total_scaled(lengths.drop_last(), factor);
        assert(scaled(lengths, factor).drop_last() =~= scaled(lengths.drop_last(), factor));
        let t = total_chunk(lengths.drop_last());
        let l = lengths.last();
        assert((t + l) * factor == t * factor + l * factor) by (nonlinear_arith);
    } else {
        assert(0 * factor == 0) by (nonlinear_arith);
    }
}

/// Lengths as integers.
pub open spec fn lengths_as_ints(lengths: Seq<u64>) -> Seq<int> {
    Seq::new(lengths.len(), |i: int| lengths[i] as int)
}

/// The sum of the lengths of a list, where it is at most the greatest
/// signed integer of 64 bits, and nothing where it is more.
fn checked_total(lengths: &Vec<u64>) -> (total: Option<u64>)
    ensures
        match total {
            Some(t) => t == total_chunk(lengths_as_ints(lengths@)) && t <= i64::MAX,
            None => total_chunk(lengths_as_ints(lengths@)) > i64::MAX,
        },
{
    let n: usize = lengths.len();
    let ghost all = lengths_as_ints(lengths@);
    let mut total: u64 = 0;
    let mut i: usize = 0;
    proof {
        assert(all.take(0) =~= Seq::<int>::empty());
    }
    while i < n
        invariant
            n == lengths.len(),
            i <= n,
            all == lengths_as_ints(lengths@),
            total == total_chunk(all.take(i as int)),
            total <= i64::MAX,
        decreases n - i,
    {
        proof {
            lemma_total_prefix(all, i as int);
            lemma_total_prefix(all, i + 1);
            lemma_total_prefix(all, n as int);
            assert(all.take(n as int) =~= all);
        }
        let next: u128 = total as u128 + lengths[i] as u128;
        if next > i64::MAX as u128 {
            return None;
        }
        total = next as u64;
        i += 1;
    }
    proof {
        assert(all.take(n as int) =~= all);
    }
    Some(total)
}

/// No chunk is larger than all chunks together.
pub proof fn lemma_single_within_total(chunks: Seq<int>, m: int)
    requires
        0 <= m < chunks.len(),
        forall|i: int| 0 <= i < chunks.len() ==> chunks[i] >= 0,
    ensures
        0 <= chunks[m] <= total_chunk(chunks),
{
    lemma_total_prefix(chunks, m);
    lemma_total_prefix(chunks, m + 1);
}

/// The shape of one dimension of the given size holds that many
/// elements.
pub proof fn lemma_product_of_one(size: i64)
    ensures
        shape_product(seq![size]) == size,
{
    assert(seq![size].drop_last() =~= Seq::<i64>::empty());
    reveal_with_fuel(shape_product, 2);
}

/// Joins arrays into one.
///
/// With an axis, the arrays are put one after the other along that axis;
/// they must agree on every other axis. Without an axis, the arrays are
/// taken as flat sequences in row-major order and put one after the other
/// in an array of one dimension. All arrays must hold the same kind of
/// element.
pub fn concatenate(arrays: &[&Array], axis: Option<usize>) -> (result: Result<Array, ArrayError>)
    ensures
        match result {
            Ok(out) => {
                &&& concatenate_spec(views_of(arrays@), axis) == Ok::<ArrayView, ArrayError>(out@)
                &&& out@.wf()
                &&& out.is_packed()
            },
            Err(e) => concatenate_spec(views_of(arrays@), axis) == Err::<ArrayView, ArrayError>(e),
        },
{
    let n: usize = arrays.len();
    let ghost views = views_of(arrays@);
    if n == 0 {
        return Err(ArrayError::InvalidShape);
    }
    let dtype: DType = *arrays[0].dtype();
    let kind: NpyType = dtype.type_();
    let mut sizes: Vec<usize> = Vec::with_capacity(n);
    let mut wide_sizes: Vec<u64> = Vec::with_capacity(n);
    let mut i: usize = 0;
    while i < n
        invariant
            n == arrays.len(),
            n > 0,
            i <= n,
            views == views_of(arrays@),
            kind == views[0].dtype,
            sizes.len() == i,
            wide_sizes.len() == i,
            forall|m: int|
                0 <= m < i ==> {
                    &&& (#[trigger] views[m]).dtype == kind
                    &&& views[m].wf()
                    &&& sizes[m] == views[m].elements.len()
                    &&& wide_sizes[m] == views[m].elements.len()
                },
        decreases n - i,
    {
        if arrays[i].dtype().type_() != kind {
            assert(views[i as int].dtype != views[0].dtype);
            return Err(ArrayError::TypeMismatch);
        }
        let size: usize = arrays[i].size();
        sizes.push(size);
        wide_sizes.push(size as u64);
        i += 1;
    }
    assert(same_kind(views));
    match axis {
        None => {
            proof {
                assert(as_ints(sizes@) =~= sizes_of(views));
                assert(lengths_as_ints(wide_sizes@) =~= sizes_of(views));
            }
            let total: u64 = match checked_total(&wide_sizes) {
                Some(total) => total,
                None => {
                    return Err(ArrayError::OutOfMemory);
                },
            };
            let mut shape: Vec<i64> = Vec::with_capacity(1);
            shape.push(total as i64);
            proof {
                assert(shape@ =~= seq![total as i64]);
                lemma_product_of_one(total as i64);
                assert(1 * total_chunk(as_ints(sizes@)) == total_chunk(as_ints(sizes@)))
                    by (nonlinear_arith);
            }
            let out: Array = match Array::new(shape, dtype) {
                Ok(out) => out,
                Err(_) => {
                    return Err(ArrayError::OutOfMemory);
                },
            };
            proof {
                assert forall|m: int| 0 <= m < arrays.len() implies {
                    &&& (#[trigger] arrays[m])@.elements.len() == 1 * sizes[m]
                    &&& arrays[m]@.dtype == out@.dtype
                    &&& arrays[m]@.wf()
                } by {
                    assert(views[m].wf());
                    assert(1 * sizes[m] == sizes[m]) by (nonlinear_arith);
                }
                assert(elements_of(arrays@) =~= parts_of(views));
            }
            let out: Array = join_rows(arrays, &sizes, 1, out);
            Ok(out)
        },
        Some(a) => {
            let first: &[i64] = arrays[0].shape();
            let ndim: usize = first.len();
            assert(first@ == views[0].shape);
            if a >= ndim {
                return Err(ArrayError::InvalidDimension);
            }
            let mut r: usize = 0;
            while r < n
                invariant
                    n == arrays.len(),
                    n > 0,
                    r <= n,
                    a < ndim,
                    axis == Some(a),
                    views == views_of(arrays@),
                    same_kind(views),
                    ndim == views[0].shape.len(),
                    forall|m: int| 0 <= m < r ==> (#[trigger] views[m]).shape.len() == ndim,
                decreases n - r,
            {
                if arrays[r].ndim() != ndim {
                    assert(views[r as int].shape.len() != views[0].shape.len());
                    return Err(ArrayError::InvalidDimension);
                }
                r += 1;
            }
            assert(same_rank(views));
            let mut lengths: Vec<u64> = Vec::with_capacity(n);
            let mut m: usize = 0;
            while m < n
                invariant
                    n == arrays.len(),
                    n > 0,
                    m <= n,
                    a < ndim,
                    axis == Some(a),
                    views == views_of(arrays@),
                    first@ == views[0].shape,
                    ndim == first.len(),
                    same_kind(views),
                    same_rank(views),
                    lengths.len() == m,
                    forall|j: int|
                        0 <= j < m ==> {
                            &&& agree_off_axis((#[trigger] views[j]).shape, first@, a as int)
                            &&& lengths[j] == views[j].shape[a as int]
                        },
                    forall|j: int| 0 <= j < n ==> (#[trigger] views[j]).wf(),
                decreases n - m,
            {
                let shape: &[i64] = arrays[m].shape();
                assert(shape@ == views[m as int].shape);
                assert(views[m as int].shape.len() == views[0].shape.len());
                let mut d: usize = 0;
                while d < ndim
                    invariant
                        d <= ndim,
                        a < ndim,
                        axis == Some(a),
                        m < n,
                        n == arrays.len(),
                        n > 0,
                        views == views_of(arrays@),
                        same_kind(views),
                        same_rank(views),
                        first@ == views[0].shape,
                        shape@ == views[m as int].shape,
                        ndim == first.len(),
                        ndim == shape.len(),
                        forall|i: int| 0 <= i < d && i != a ==> shape[i] == first[i],
                    decreases ndim - d,
                {
                    if d != a && shape[d] != first[d] {
                        proof {
                            assert(views[m as int].shape[d as int] != views[0].shape[d as int]);
                            let other = views[m as int].shape;
                            assert(!agree_off_axis(other, views[0].shape, a as int));
                        }
                        return Err(ArrayError::ShapeMismatch);
                    }
                    d += 1;
                }
                proof {
                    assert(views[m as int].wf());
                    assert(agree_off_axis(views[m as int].shape, first@, a as int));
                    assert(shape[a as int] >= 0);
                }
                lengths.push(shape[a] as u64);
                m += 1;
            }
            assert(all_agree_off_axis(views, a as int));
            proof {
                assert(lengths_as_ints(lengths@) =~= axis_lengths(views, a as int));
            }
            let total: u64 = match checked_total(&lengths) {
                Some(total) => total,
                None => {
                    return Err(ArrayError::OutOfMemory);
                },
            };
            let mut shape: Vec<i64> = copy_shape(first);
            shape.set(a, total as i64);
            let ghost wanted = first@.update(a as int, total as i64);
            let ghost before = shape_product(first@.take(a as int));
            let ghost after = shape_product(first@.skip(a + 1));
            let ghost chunk_sizes = scaled(axis_lengths(views, a as int), after);
            proof {
                assert(shape@ =~= wanted);
                assert forall|i: int| 0 <= i < wanted.len() implies wanted[i] >= 0 by {
                    if i != a {
                        assert(views[0].wf());
                        assert(first@[i] >= 0);
                    }
                }
                lemma_product_around_axis(wanted, a as int);
                assert(wanted.take(a as int) =~= first@.take(a as int));
                assert(wanted.skip(a + 1) =~= first@.skip(a + 1));
                lemma_total_scaled(axis_lengths(views, a as int), after);
                assert(before * total * after == before * (total * after)) by (nonlinear_arith);
            }
            let out: Array = match Array::new(shape, dtype) {
                Ok(out) => out,
                Err(_) => {
                    return Err(ArrayError::OutOfMemory);
                },
            };
            let size: usize = out.size();
            if size == 0 {
                proof {
                    assert(out@.elements =~= joined(parts_of(views), chunk_sizes, before));
                }
                return Ok(out);
            }
            proof {
                lemma_positive_iff_nonempty(wanted);
            }
            let inner: usize = suffix_product(out.shape(), a + 1);
            proof {
                crate::layout::lemma_prefix_product(wanted, a as int);
                crate::layout::lemma_suffix_product_bound(wanted, a + 1);
                assert(total > 0);
                assert(total * inner <= before * (total * inner)) by (nonlinear_arith)
                    requires
                        before >= 1,
                        total * inner >= 0,
                ;
                assert(total * inner > 0) by (nonlinear_arith)
                    requires
                        total > 0,
                        inner > 0,
                ;
            }
            let row: usize = (total as u128 * inner as u128) as usize;
            let outer: usize = size / row;
            proof {
                assert(before * (total * inner) == (total * inner) * before) by (nonlinear_arith);
                lemma_fundamental_div_mod_converse(size as int, row as int, before, 0);
            }
            let mut chunks: Vec<usize> = Vec::with_capacity(n);
            let mut c: usize = 0;
            while c < n
                invariant
                    n == arrays.len(),
                    n == lengths.len(),
                    c <= n,
                    chunks.len() == c,
                    inner == after,
                    row == total * inner,
                    total == total_chunk(lengths_as_ints(lengths@)),
                    forall|j: int| 0 <= j < c ==> #[trigger] chunks[j] == lengths[j] * inner,
                decreases n - c,
            {
                proof {
                    lemma_single_within_total(lengths_as_ints(lengths@), c as int);
                    assert(lengths[c as int] * inner <= total * inner) by (nonlinear_arith)
                        requires
                            0 <= lengths[c as int] <= total,
                            inner >= 0,
                    ;
                }
                chunks.push((lengths[c] as u128 * inner as u128) as usize);
                c += 1;
            }
            proof {
                assert(as_ints(chunks@) =~= chunk_sizes);
                assert(elements_of(arrays@) =~= parts_of(views));
                assert forall|j: int| 0 <= j < arrays.len() implies {
                    &&& (#[trigger] arrays[j])@.elements.len() == outer * chunks[j]
                    &&& arrays[j]@.dtype == out@.dtype
                    &&& arrays[j]@.wf()
                } by {
                    let shape_j = views[j].shape;
                    assert(views[j].wf());
                    assert(views[j].dtype == kind);
                    assert(agree_off_axis(shape_j, first@, a as int));
                    lemma_product_around_axis(shape_j, a as int);
                    assert(shape_j.take(a as int) =~= first@.take(a as int));
                    assert(shape_j.skip(a + 1) =~= first@.skip(a + 1));
                    let l = shape_j[a as int] as int;
                    assert(before * l * after == before * (l * after)) by (nonlinear_arith);
                }
            }
            let out: Array = join_rows(arrays, &chunks, outer, out);
            Ok(out)
        },
    }
}

/// Whether all arrays of a list have the shape of the first.
pub open spec fn same_shapes(views: Seq<ArrayView>) -> bool {
    forall|m: int| 0 <= m < views.len() ==> (#[trigger] views[m]).shape == views[0].shape
}

/// As many chunks of one size.
pub open spec fn equal_chunks(count: int, size: int) -> Seq<int> {
    Seq::new(count as nat, |m: int| size)
}

/// What stacking arrays comes to.
///
/// No arrays at all are an invalid shape; after that, arrays of different
/// kinds of element are a type mismatch; after that, an axis beyond the
/// number of dimensions is an invalid dimension; after that, arrays of
/// different shapes do not match. The result has the shape of the arrays
/// with a new axis at the given place, as long as there are arrays. A
/// result too large to allocate is out of memory.
pub open spec fn stack_spec(views: Seq<ArrayView>, axis: usize) -> Result<ArrayView, ArrayError> {
    let first = views[0].shape;
    if views.len() == 0 {
        Err(ArrayError::InvalidShape)
    } else if !same_kind(views) {
        Err(ArrayError::TypeMismatch)
    } else if axis > first.len() {
        Err(ArrayError::InvalidDimension)
    } else if !same_shapes(views) {
        Err(ArrayError::ShapeMismatch)
    } else if views.len() > i64::MAX || !can_allocate(
        first.insert(axis as int, views.len() as i64),
        views[0].dtype,
    ) {
        Err(ArrayError::OutOfMemory)
    } else {
        Ok(
            ArrayView {
                shape: first.insert(axis as int, views.len() as i64),
                dtype: views[0].dtype,
                elements: joined(
                    parts_of(views),
                    equal_chunks(views.len() as int, shape_product(first.skip(axis as int))),
                    shape_product(first.take(axis as int)),
                ),
            },
        )
    }
}

/// Equal chunks add up to their number times their size.
pub proof fn lemma_total_equal(count: int, size: int)
    requires
        count >= 0,
    ensures
        total_chunk(equal_chunks(count, size)) == count * size,
    decreases count,
{
    if count > 0 {
        lemma_total_equal(count - 1, size);
        assert(equal_chunks(count, size).drop_last() =~= equal_chunks(count - 1, size));
        assert((count - 1) * size + size == count * size) by (nonlinear_arith);
    } else {
        assert(0 * size == 0) by (nonlinear_arith);
    }
}

/// Stacks arrays of one shape along a new axis.
///
/// The result has one dimension more than the arrays: the new axis, at
/// the given place, is as long as there are arrays, and the array at
/// position `m` of the new axis is array `m`.
pub fn stack(arrays: &[&Array], axis: usize) -> (result: Result<Array, ArrayError>)
    ensures
        match result {
            Ok(out) => {
                &&& stack_spec(views_of(arrays@), axis) == Ok::<ArrayView, ArrayError>(out@)
                &&& out@.wf()
                &&& out.is_packed()
            },
            Err(e) => stack_spec(views_of(arrays@), axis) == Err::<ArrayView, ArrayError>(e),
        },
{
    let n: usize = arrays.len();
    let ghost views = views_of(arrays@);
    if n == 0 {
        return Err(ArrayError::InvalidShape);
    }
    let dtype: DType = *arrays[0].dtype();
    let kind: NpyType = dtype.type_();
    let mut i: usize = 0;
    while i < n
        invariant
            n == arrays.len(),
            n > 0,
            i <= n,
            views == views_of(arrays@),
            kind == views[0].dtype,
            forall|m: int| 0 <= m < i ==> (#[trigger] views[m]).dtype == kind,
        decreases n - i,
    {
        if arrays[i].dtype().type_() != kind {
            assert(views[i as int].dtype != views[0].dtype);
            return Err(ArrayError::TypeMismatch);
        }
        i += 1;
    }
    assert(same_kind(views));
    let first: &[i64] = arrays[0].shape();
    let ndim: usize = first.len();
    assert(first@ == views[0].shape);
    if axis > ndim {
        return Err(ArrayError::InvalidDimension);
    }
    let mut m: usize = 0;
    while m < n
        invariant
            n == arrays.len(),
            n > 0,
            m <= n,
            axis <= ndim,
            views == views_of(arrays@),
            same_kind(views),
            first@ == views[0].shape,
            ndim == first.len(),
            forall|j: int| 0 <= j < m ==> (#[trigger] views[j]).shape == first@ && views[j].wf(),
        decreases n - m,
    {
        if !same_shape(arrays[m].shape(), first) {
            assert(views[m as int].shape != views[0].shape);
            return Err(ArrayError::ShapeMismatch);
        }
        m += 1;
    }
    assert(same_shapes(views));
    if n as u64 > i64::MAX as u64 {
        return Err(ArrayError::OutOfMemory);
    }
    let mut shape: Vec<i64> = copy_shape(first);
    shape.insert(axis, n as i64);
    let ghost wanted = first@.insert(axis as int, n as i64);
    let ghost before = shape_product(first@.take(axis as int));
    let ghost after = shape_product(first@.skip(axis as int));
    let ghost chunk_sizes = equal_chunks(n as int, after);
    proof {
        assert(shape@ =~= wanted);
        assert(views[0].wf());
        assert forall|i: int| 0 <= i < wanted.len() implies wanted[i] >= 0 by {
            if i < axis {
                assert(wanted[i] == first@[i]);
            } else if i > axis {
                assert(wanted[i] == first@[i - 1]);
            }
        }
        lemma_product_around_axis(wanted, axis as int);
        assert(wanted.take(axis as int) =~= first@.take(axis as int));
        assert(wanted.skip(axis + 1) =~= first@.skip(axis as int));
        lemma_total_equal(n as int, after);
        assert(before * n * after == before * (n * after)) by (nonlinear_arith);
        assert(first@ =~= first@.take(axis as int) + first@.skip(axis as int));
        lemma_product_concat(first@.take(axis as int), first@.skip(axis as int));
    }
    let out: Array = match Array::new(shape, dtype) {
        Ok(out) => out,
        Err(_) => {
            return Err(ArrayError::OutOfMemory);
        },
    };
    let size: usize = out.size();
    if size == 0 {
        proof {
            assert(out@.elements =~= joined(parts_of(views), chunk_sizes, before));
        }
        return Ok(out);
    }
    proof {
        lemma_positive_iff_nonempty(wanted);
    }
    let rank: usize = out.ndim();
    let inner: usize = suffix_product(out.shape(), axis + 1);
    proof {
        crate::layout::lemma_prefix_product(wanted, axis as int);
        assert(n * inner <= before * (n * inner)) by (nonlinear_arith)
            requires
                before >= 1,
                n * inner >= 0,
        ;
        assert(n * inner > 0) by (nonlinear_arith)
            requires
                n > 0,
                inner > 0,
        ;
    }
    let row: usize = (n as u128 * inner as u128) as usize;
    let outer: usize = size / row;
    proof {
        assert(before * (n * inner) == (n * inner) * before) by (nonlinear_arith);
        lemma_fundamental_div_mod_converse(size as int, row as int, before, 0);
    }
    let mut chunks: Vec<usize> = Vec::with_capacity(n);
    let mut c: usize = 0;
    while c < n
        invariant
            c <= n,
            chunks.len() == c,
            forall|j: int| 0 <= j < c ==> #[trigger] chunks[j] == inner,
        decreases n - c,
    {
        chunks.push(inner);
        c += 1;
    }
    proof {
        assert(as_ints(chunks@) =~= chunk_sizes);
        assert(elements_of(arrays@) =~= parts_of(views));
        assert forall|j: int| 0 <= j < arrays.len() implies {
            &&& (#[trigger] arrays[j])@.elements.len() == outer * chunks[j]
            &&& arrays[j]@.dtype == out@.dtype
            &&& arrays[j]@.wf()
        } by {
            assert(views[j].wf());
            assert(views[j].dtype == kind);
            assert(views[j].shape == first@);
        }
    }
    let out: Array = join_rows(arrays, &chunks, outer, out);
    Ok(out)
}

/// How to cut an axis into pieces.
#[derive(Debug)]
pub enum SplitSpec {
    /// Into this many pieces of equal length; what is left over when the
    /// length is not a multiple goes to the last piece.
    Sections(usize),
    /// At these places, which must not decrease and not lie beyond the
    /// end: the first piece ends at the first place, the last begins at
    /// the last place.
    Indices(Vec<usize>),
}

/// The lengths of the pieces of an axis that is cut into equal sections.
pub open spec fn section_lengths(length: int, sections: int) -> Seq<int> {
    Seq::new(
        sections as nat,
        |m: int|
            if m < sections - 1 {
                length / sections
            } else {
                length - (length / sections) * (sections - 1)
            },
    )
}

/// Whether the places do not decrease and none lies beyond `length`.
pub open spec fn valid_cuts(cuts: Seq<usize>, length: int) -> bool {
    &&& forall|i: int| 0 <= i < cuts.len() ==> #[trigger] cuts[i] <= length
    &&& forall|i: int, j: int| 0 <= i <= j < cuts.len() ==> cuts[i] <= cuts[j]
}

/// The lengths of the pieces of an axis that is cut at the given places.
pub open spec fn cut_lengths(cuts: Seq<usize>, length: int) -> Seq<int> {
    Seq::new(
        cuts.len() + 1,
        |m: int|
            (if m < cuts.len() {
                cuts[m] as int
            } else {
                length
            }) - (if m == 0 {
                0
            } else {
                cuts[m - 1] as int
            }),
    )
}

/// The lengths of the pieces that a way of cutting gives for an axis of
/// the given length. No sections at all are an invalid shape; places that
/// decrease or lie beyond the end are an index error.
pub open spec fn split_lengths(spec: SplitSpec, length: int) -> Result<Seq<int>, ArrayError> {
    match spec {
        SplitSpec::Sections(sections) => if sections == 0 {
            Err(ArrayError::InvalidShape)
        } else {
            Ok(section_lengths(length, sections as int))
        },
        SplitSpec::Indices(cuts) => if !valid_cuts(cuts@, length) {
            Err(ArrayError::IndexError)
        } else {
            Ok(cut_lengths(cuts@, length))
        },
    }
}

/// The pieces of an axis cut into sections are not negative and add up to
/// the axis.
pub proof fn lemma_section_lengths(length: int, sections: int)
    requires
        length >= 0,
        sections > 0,
    ensures
        forall|m: int|
            0 <= m < sections ==> 0 <= #[trigger] section_lengths(length, sections)[m] <= length,
        total_chunk(section_lengths(length, sections)) == length,
{
    let base = length / sections;
    let all = section_lengths(length, sections);
    lemma_fundamental_div_mod(length, sections);
    vstd::arithmetic::div_mod::lemma_mod_bound(length, sections);
    assert(0 <= base * (sections - 1) <= length && base <= length && base >= 0)
        by (nonlinear_arith)
        requires
            length == sections * base + length % sections,
            0 <= length % sections < sections,
            sections > 0,
            length >= 0,
    ;
    assert(all.drop_last() =~= equal_chunks(sections - 1, base));
    lemma_total_equal(sections - 1, base);
    assert((sections - 1) * base == base * (sections - 1)) by (nonlinear_arith);
}

/// The pieces of an axis cut at valid places are not negative and add up
/// to the axis.
pub proof fn lemma_cut_lengths(cuts: Seq<usize>, length: int)
    requires
        length >= 0,
        valid_cuts(cuts, length),
    ensures
        forall|m: int|
            0 <= m <= cuts.len() ==> 0 <= #[trigger] cut_lengths(cuts, length)[m] <= length,
        total_chunk(cut_lengths(cuts, length)) == length,
    decreases cuts.len(),
{
    let all = cut_lengths(cuts, length);
    assert forall|m: int| 0 <= m <= cuts.len() implies 0 <= #[trigger] all[m] <= length by {
        if m < cuts.len() {
            assert(cuts[m] <= length);
        }
        if m > 0 {
            assert(cuts[m - 1] <= length);
            if m < cuts.len() {
                assert(cuts[m - 1] <= cuts[m]);
            }
        }
    }
    if cuts.len() == 0 {
        assert(all.drop_last() =~= Seq::<int>::empty());
        assert(total_chunk(all.drop_last()) == 0);
        assert(all.last() == length);
    } else {
        let earlier = cuts.drop_last();
        let end = cuts.last() as int;
        assert(cuts[cuts.len() - 1] <= length);
        assert forall|i: int| 0 <= i < earlier.len() implies #[trigger] earlier[i] <= end by {
            assert(cuts[i] <= cuts[cuts.len() - 1]);
        }
        assert forall|i: int, j: int| 0 <= i <= j < earlier.len() implies earlier[i]
            <= earlier[j] by {
            assert(cuts[i] <= cuts[j]);
        }
        lemma_cut_lengths(earlier, end);
        assert(all.drop_last() =~= cut_lengths(earlier, end));
        assert(all.last() == length - end);
    }
}

/// The lengths of the pieces that a way of cutting gives.
fn piece_lengths(spec: &SplitSpec, length: u64) -> (result: Result<Vec<u64>, ArrayError>)
    requires
        length <= i64::MAX,
    ensures
        match result {
            Ok(lengths) => {
                &&& split_lengths(*spec, length as int) == Ok::<Seq<int>, ArrayError>(
                    lengths_as_ints(lengths@),
                )
                &&& forall|m: int| 0 <= m < lengths.len() ==> #[trigger] lengths[m] <= length
                &&& total_chunk(lengths_as_ints(lengths@)) == length
                &&& lengths.len() > 0
            },
            Err(e) => split_lengths(*spec, length as int) == Err::<Seq<int>, ArrayError>(e),
        },
{
    match spec {
        SplitSpec::Sections(sections) => {
            let sections: usize = *sections;
            if sections == 0 {
                return Err(ArrayError::InvalidShape);
            }
            proof {
                lemma_section_lengths(length as int, sections as int);
            }
            let ghost wanted = section_lengths(length as int, sections as int);
            let wide: u128 = sections as u128;
            let base: u64 = (length as u128 / wide) as u64;
            let last: u64 = (length as u128 - (base as u128) * (wide - 1)) as u64;
            let mut lengths: Vec<u64> = Vec::with_capacity(sections);
            let mut m: usize = 0;
            while m < sections
                invariant
                    m <= sections,
                    sections > 0,
                    lengths.len() == m,
                    wanted == section_lengths(length as int, sections as int),
                    base == length as int / sections as int,
                    last == length - (length as int / sections as int) * (sections - 1),
                    forall|j: int| 0 <= j < m ==> #[trigger] lengths[j] == wanted[j],
                decreases sections - m,
            {
                if m < sections - 1 {
                    lengths.push(base);
                } else {
                    lengths.push(last);
                }
                m += 1;
            }
            proof {
                assert(lengths_as_ints(lengths@) =~= wanted);
                assert forall|j: int| 0 <= j < lengths.len() implies #[trigger] lengths[j]
                    <= length by {
                    assert(0 <= wanted[j] <= length);
                }
            }
            Ok(lengths)
        },
        SplitSpec::Indices(cuts) => {
            let n: usize = cuts.len();
            let mut i: usize = 0;
            while i < n
                invariant
                    n == cuts.len(),
                    i <= n,
                    *spec == SplitSpec::Indices(*cuts),
                    forall|j: int| 0 <= j < i ==> #[trigger] cuts[j] <= length,
                    forall|j: int, k: int| 0 <= j <= k < i ==> cuts[j] <= cuts[k],
                decreases n - i,
            {
                if cuts[i] as u128 > length as u128 {
                    assert(!(cuts@[i as int] <= length));
                    return Err(ArrayError::IndexError);
                }
                if i > 0 && cuts[i - 1] > cuts[i] {
                    assert(!(cuts@[i - 1] <= cuts@[i as int]));
                    return Err(ArrayError::IndexError);
                }
                proof {
                    assert forall|j: int, k: int| 0 <= j <= k < i + 1 implies cuts[j]
                        <= cuts[k] by {
                        if k == i && j < i {
                            assert(cuts[j] <= cuts[i - 1]);
                        }
                    }
                }
                i += 1;
            }
            proof {
                lemma_cut_lengths(cuts@, length as int);
            }
            let ghost wanted = cut_lengths(cuts@, length as int);
            let mut lengths: Vec<u64> = Vec::with_capacity(n);
            let mut m: usize = 0;
            let mut start: u64 = 0;
            while m < n
                invariant
                    n == cuts.len(),
                    m <= n,
                    lengths.len() == m,
                    valid_cuts(cuts@, length as int),
                    wanted == cut_lengths(cuts@, length as int),
                    start == if m == 0 {
                        0
                    } else {
                        cuts[m - 1] as int
                    },
                    start <= length,
                    forall|j: int| 0 <= j < m ==> #[trigger] lengths[j] == wanted[j],
                decreases n - m,
            {
                let end: u64 = cuts[m] as u64;
                proof {
                    assert(cuts[m as int] <= length);
                    if m > 0 {
                        assert(cuts[m - 1] <= cuts[m as int]);
                    }
                }
                lengths.push(end - start);
                start = end;
                m += 1;
            }
            lengths.push(length - start);
            proof {
                assert(lengths_as_ints(lengths@) =~= wanted);
                assert forall|j: int| 0 <= j < lengths.len() implies #[trigger] lengths[j]
                    <= length by {
                    assert(0 <= wanted[j] <= length);
                }
            }
            Ok(lengths)
        },
    }
}

/// The chunk of every row of an array that begins `offset` elements into
/// the row and is `chunk` elements long, where rows are `row` long.
pub open spec fn chunk_of_rows(
    elements: Seq<u64>,
    outer: int,
    row: int,
    offset: int,
    chunk: int,
) -> Seq<u64> {
    Seq::new((outer * chunk) as nat, |j: int| elements[(j / chunk) * row + offset + j % chunk])
}

/// Copies a chunk of every row of `array` into `out`, a packed array
/// that has as many elements as the chunks together.
fn take_rows(
    array: &Array,
    outer: usize,
    row: usize,
    offset: usize,
    chunk: usize,
    out: Array,
) -> (piece: Array)
    requires
        out.is_packed(),
        out@.wf(),
        out@.dtype == array@.dtype,
        out@.elements.len() == outer * chunk,
        array@.elements.len() == outer * row,
        offset + chunk <= row,
    ensures
        piece@.shape == out@.shape,
        piece@.dtype == out@.dtype,
        piece@.elements == chunk_of_rows(
            array@.elements,
            outer as int,
            row as int,
            offset as int,
            chunk as int,
        ),
        piece@.wf(),
        piece.is_packed(),
{
    let ghost wanted = out@.shape;
    let ghost kind = out@.dtype;
    let ghost expected = chunk_of_rows(
        array@.elements,
        outer as int,
        row as int,
        offset as int,
        chunk as int,
    );
    let mut out: Array = out;
    let size: usize = out.size();
    let whole: usize = array.size();
    let mut k: usize = 0;
    let mut o: usize = 0;
    proof {
        assert(0 * chunk == 0) by (nonlinear_arith);
    }
    while o < outer
        invariant
            o <= outer,
            offset + chunk <= row,
            expected == chunk_of_rows(
                array@.elements,
                outer as int,
                row as int,
                offset as int,
                chunk as int,
            ),
            size == outer * chunk,
            size == out@.elements.len(),
            whole == outer * row,
            whole == array@.elements.len(),
            array@.wf(),
            array@.dtype == kind,
            out@.shape == wanted,
            out@.dtype == kind,
            out.is_packed(),
            out@.wf(),
            k == o * chunk,
            forall|j: int| 0 <= j < k ==> #[trigger] out@.elements[j] == expected[j],
        decreases outer - o,
    {
        proof {
            assert(o * row + row <= outer * row) by (nonlinear_arith)
                requires
                    o < outer,
                    row >= 0,
            ;
            assert(o * row >= 0) by (nonlinear_arith)
                requires
                    o >= 0,
                    row >= 0,
            ;
            assert(o * chunk + chunk <= outer * chunk) by (nonlinear_arith)
                requires
                    o < outer,
                    chunk >= 0,
            ;
        }
        let base: usize = o * row + offset;
        let mut r: usize = 0;
        while r < chunk
            invariant
                o < outer,
                r <= chunk,
                offset + chunk <= row,
                expected == chunk_of_rows(
                    array@.elements,
                    outer as int,
                    row as int,
                    offset as int,
                    chunk as int,
                ),
                base == o * row + offset,
                o * row + row <= outer * row,
                o * chunk + chunk <= outer * chunk,
                size == outer * chunk,
                size == out@.elements.len(),
                whole == outer * row,
                whole == array@.elements.len(),
                array@.wf(),
                array@.dtype == kind,
                out@.shape == wanted,
                out@.dtype == kind,
                out.is_packed(),
                out@.wf(),
                k == o * chunk + r,
                forall|j: int| 0 <= j < k ==> #[trigger] out@.elements[j] == expected[j],
            decreases chunk - r,
        {
            let bits: u64 = array.element(base + r);
            let ghost before = out@.elements;
            out.put(k, bits);
            proof {
                lemma_stored_fits(bits, kind);
                lemma_row_place(o as int, r as int, chunk as int);
                assert forall|j: int| 0 <= j < k + 1 implies #[trigger] out@.elements[j]
                    == expected[j] by {
                    if j < k {
                        assert(out@.elements[j] == before[j]);
                    }
                }
            }
            k += 1;
            r += 1;
        }
        proof {
            assert((o + 1) * chunk == o * chunk + chunk) by (nonlinear_arith);
        }
        o += 1;
    }
    proof {
        assert(out@.elements =~= expected);
    }
    out
}

/// The views of the arrays of a list.
pub open spec fn views_of_owned(arrays: Seq<Array>) -> Seq<ArrayView> {
    Seq::new(arrays.len(), |m: int| arrays[m]@)
}

/// The pieces that an array falls into when an axis is cut into pieces of
/// the given lengths: piece `m` has the shape of the array with the axis
/// as long as the piece, and holds its chunk of every row.
pub open spec fn split_views(array: ArrayView, lengths: Seq<int>, axis: int) -> Seq<ArrayView> {
    Seq::new(
        lengths.len(),
        |m: int|
            ArrayView {
                shape: array.shape.update(axis, lengths[m] as i64),
                dtype: array.dtype,
                elements: piece_of(
                    array.elements,
                    scaled(lengths, shape_product(array.shape.skip(axis + 1))),
                    shape_product(array.shape.take(axis)),
                    m,
                ),
            },
    )
}

/// What splitting an array along an axis comes to.
///
/// An axis that the array does not have is an invalid dimension; after
/// that, a way of cutting that cannot be followed is refused with its own
/// error; after that, a piece too large to allocate is out of memory.
pub open spec fn split_spec(array: ArrayView, spec: SplitSpec, axis: usize) -> Result<
    Seq<ArrayView>,
    ArrayError,
> {
    if axis >= array.shape.len() {
        Err(ArrayError::InvalidDimension)
    } else {
        match split_lengths(spec, array.shape[axis as int] as int) {
            Err(e) => Err(e),
            Ok(lengths) => if exists|m: int|
                0 <= m < lengths.len() && !can_allocate(
                    #[trigger] array.shape.update(axis as int, lengths[m] as i64),
                    array.dtype,
                ) {
                Err(ArrayError::OutOfMemory)
            } else {
                Ok(split_views(array, lengths, axis as int))
            },
        }
    }
}

/// Splits an array along an axis into pieces.
///
/// Each piece is a new array of the shape of `array` but for the axis,
/// along which it is as long as its piece of the axis. The pieces come in
/// the order of the axis.
pub fn split(array: &Array, spec: SplitSpec, axis: usize) -> (result: Result<
    Vec<Array>,
    ArrayError,
>)
    ensures
        match result {
            Ok(pieces) => {
                &&& split_spec(array@, spec, axis) == Ok::<Seq<ArrayView>, ArrayError>(
                    views_of_owned(pieces@),
                )
                &&& forall|m: int|
                    0 <= m < pieces.len() ==> (#[trigger] pieces[m])@.wf() && pieces[m].is_packed()
            },
            Err(e) => split_spec(array@, spec, axis) == Err::<Seq<ArrayView>, ArrayError>(e),
        },
{
    let shape: &[i64] = array.shape();
    let ndim: usize = shape.len();
    if axis >= ndim {
        return Err(ArrayError::InvalidDimension);
    }
    let dtype: DType = *array.dtype();
    let length: u64 = shape[axis] as u64;
    let lengths: Vec<u64> = match piece_lengths(&spec, length) {
        Ok(lengths) => lengths,
        Err(e) => {
            return Err(e);
        },
    };
    let n: usize = lengths.len();
    let size: usize = array.size();
    let ghost view = array@;
    let ghost sizes = lengths_as_ints(lengths@);
    let ghost before = shape_product(shape@.take(axis as int));
    let ghost after = shape_product(shape@.skip(axis + 1));
    let ghost chunk_sizes = scaled(sizes, after);
    let ghost expected = split_views(view, sizes, axis as int);
    let mut inner: usize = 0;
    let mut row: usize = 0;
    let mut outer: usize = 0;
    proof {
        lemma_product_around_axis(shape@, axis as int);
        lemma_total_scaled(sizes, after);
        assert(before * length * after == before * (length * after)) by (nonlinear_arith);
        let front = shape@.take(axis as int);
        let back = shape@.skip(axis + 1);
        assert forall|i: int| 0 <= i < front.len() implies front[i] >= 0 by {
            assert(front[i] == shape@[i]);
        }
        assert forall|i: int| 0 <= i < back.len() implies back[i] >= 0 by {
            assert(back[i] == shape@[axis + 1 + i]);
        }
        lemma_positive_iff_nonempty(front);
        lemma_positive_iff_nonempty(back);
    }
    if size > 0 {
        proof {
            lemma_positive_iff_nonempty(shape@);
            crate::layout::lemma_prefix_product(shape@, axis as int);
            crate::layout::lemma_suffix_product_bound(shape@, axis + 1);
        }
        inner = suffix_product(shape, axis + 1);
        proof {
            assert(length * inner <= before * (length * inner)) by (nonlinear_arith)
                requires
                    before >= 1,
                    length * inner >= 0,
            ;
            assert(length * inner > 0) by (nonlinear_arith)
                requires
                    length > 0,
                    inner > 0,
            ;
        }
        row = (length as u128 * inner as u128) as usize;
        outer = size / row;
        proof {
            assert(before * (length * inner) == (length * inner) * before) by (nonlinear_arith);
            lemma_fundamental_div_mod_converse(size as int, row as int, before, 0);
        }
    }
    let mut pieces: Vec<Array> = Vec::with_capacity(n);
    let mut start: u64 = 0;
    let mut m: usize = 0;
    proof {
        assert(sizes.take(0) =~= Seq::<int>::empty());
    }
    while m < n
        invariant
            m <= n,
            n == lengths.len(),
            n > 0,
            axis < ndim,
            ndim == shape.len(),
            shape@ == view.shape,
            view == array@,
            view.wf(),
            dtype.kind() == view.dtype,
            length == shape[axis as int],
            length <= i64::MAX,
            size == view.elements.len(),
            size == before * (length * after),
            sizes == lengths_as_ints(lengths@),
            split_lengths(spec, length as int) == Ok::<Seq<int>, ArrayError>(sizes),
            forall|j: int| 0 <= j < lengths.len() ==> #[trigger] lengths[j] <= length,
            total_chunk(sizes) == length,
            before == shape_product(shape@.take(axis as int)),
            after == shape_product(shape@.skip(axis + 1)),
            before >= 0,
            after >= 0,
            chunk_sizes == scaled(sizes, after),
            total_chunk(chunk_sizes) == length * after,
            expected == split_views(view, sizes, axis as int),
            size > 0 ==> inner == after && row == length * inner && outer == before && inner > 0
                && outer > 0,
            start == total_chunk(sizes.take(m as int)),
            start <= length,
            pieces.len() == m,
            forall|j: int|
                0 <= j < m ==> {
                    &&& (#[trigger] pieces[j])@ == expected[j]
                    &&& pieces[j]@.wf()
                    &&& pieces[j].is_packed()
                    &&& can_allocate(view.shape.update(axis as int, sizes[j] as i64), view.dtype)
                },
        decreases n - m,
    {
        let piece_length: u64 = lengths[m];
        let mut piece_shape: Vec<i64> = copy_shape(shape);
        piece_shape.set(axis, piece_length as i64);
        let ghost wanted = view.shape.update(axis as int, sizes[m as int] as i64);
        proof {
            assert(piece_shape@ =~= wanted);
            assert forall|i: int| 0 <= i < wanted.len() implies wanted[i] >= 0 by {
                if i != axis {
                    assert(wanted[i] == shape@[i]);
                }
            }
            lemma_product_around_axis(wanted, axis as int);
            assert(wanted.take(axis as int) =~= shape@.take(axis as int));
            assert(wanted.skip(axis + 1) =~= shape@.skip(axis + 1));
            lemma_total_prefix(sizes, m as int);
            lemma_total_prefix(sizes, m + 1);
            lemma_total_prefix(sizes, n as int);
            assert(sizes.take(n as int) =~= sizes);
            assert(before * piece_length * after == before * (piece_length * after))
                by (nonlinear_arith);
        }
        let out: Array = match Array::new(piece_shape, dtype) {
            Ok(out) => out,
            Err(_) => {
                proof {
                    assert(!can_allocate(
                        view.shape.update(axis as int, sizes[m as int] as i64),
                        view.dtype,
                    ));
                }
                return Err(ArrayError::OutOfMemory);
            },
        };
        let piece_size: usize = out.size();
        let ghost wanted_elements = piece_of(view.elements, chunk_sizes, before, m as int);
        proof {
            lemma_chunk_prefix(sizes, after, m as int);
            assert(chunk_sizes[m as int] == piece_length * after);
        }
        let piece: Array = if piece_size == 0 {
            proof {
                assert(out@.elements =~= wanted_elements);
            }
            out
        } else {
            proof {
                lemma_positive_iff_nonempty(wanted);
                assert(before > 0 && piece_length > 0 && after > 0) by (nonlinear_arith)
                    requires
                        before * (piece_length * after) > 0,
                        before >= 0,
                        piece_length >= 0,
                        after >= 0,
                ;
                assert(size > 0) by (nonlinear_arith)
                    requires
                        size == before * (length * after),
                        before > 0,
                        after > 0,
                        length >= piece_length,
                        piece_length > 0,
                ;
                assert(start * inner + piece_length * inner <= length * inner) by (nonlinear_arith)
                    requires
                        start + piece_length <= length,
                        inner >= 0,
                ;
                assert(start * inner >= 0 && piece_length * inner >= 0) by (nonlinear_arith)
                    requires
                        start >= 0,
                        piece_length >= 0,
                        inner >= 0,
                ;
            }
            let offset: usize = (start as u128 * inner as u128) as usize;
            let chunk: usize = (piece_length as u128 * inner as u128) as usize;
            let filled: Array = take_rows(array, outer, row, offset, chunk, out);
            proof {
                assert(filled@.elements =~= wanted_elements);
            }
            filled
        };
        proof {
            assert(piece@ =~= expected[m as int]);
            assert(piece@.wf());
            assert(piece.is_packed());
            assert(can_allocate(wanted, view.dtype));
        }
        let ghost earlier = pieces@;
        pieces.push(piece);
        proof {
            assert forall|j: int| 0 <= j < m + 1 implies {
                &&& (#[trigger] pieces[j])@ == expected[j]
                &&& pieces[j]@.wf()
                &&& pieces[j].is_packed()
                &&& can_allocate(view.shape.update(axis as int, sizes[j] as i64), view.dtype)
            } by {
                if j < m {
                    assert(pieces[j] == earlier[j]);
                }
            }
        }
        start = start + piece_length;
        m += 1;
    }
    proof {
        assert(views_of_owned(pieces@) =~= expected);
        assert forall|j: int| 0 <= j < sizes.len() implies can_allocate(
            #[trigger] view.shape.update(axis as int, sizes[j] as i64),
            view.dtype,
        ) by {
            assert(pieces[j]@ == expected[j]);
        }
    }
    Ok(pieces)
}

/// The sizes of the first chunks, each times a factor, add up to the sum
/// of the first sizes times the factor.
pub proof fn lemma_chunk_prefix(lengths: Seq<int>, factor: int, m: int)
    requires
        0 <= m <= lengths.len(),
    ensures
        total_chunk(scaled(lengths, factor).take(m)) == total_chunk(lengths.take(m)) * factor,
{
    assert(scaled(lengths, factor).take(m) =~= scaled(lengths.take(m), factor));
    lemma_total_scaled(lengths.take(m), factor);
}

/// Splitting an array along an axis and concatenating the pieces along
/// the same axis gives the array again: the same shape, the same elements
/// in the same order.
pub proof fn lemma_split_concatenate_round_trip(array: ArrayView, spec: SplitSpec, axis: usize)
    requires
        array.wf(),
        can_allocate(array.shape, array.dtype),
        split_spec(array, spec, axis) is Ok,
    ensures
        concatenate_spec(split_spec(array, spec, axis)->Ok_0, Some(axis)) == Ok::<
            ArrayView,
            ArrayError,
        >(array),
{
    let a = axis as int;
    let length = array.shape[a] as int;
    let lengths = split_lengths(spec, length)->Ok_0;
    let pieces = split_views(array, lengths, a);
    let before = shape_product(array.shape.take(a));
    let after = shape_product(array.shape.skip(a + 1));
    let chunks = scaled(lengths, after);
    assert(split_spec(array, spec, axis)->Ok_0 == pieces);
    crate::array::lemma_size_fits(array.shape, array.dtype);
    lemma_product_around_axis(array.shape, a);
    let front = array.shape.take(a);
    let back = array.shape.skip(a + 1);
    assert forall|i: int| 0 <= i < front.len() implies front[i] >= 0 by {
        assert(front[i] == array.shape[i]);
    }
    assert forall|i: int| 0 <= i < back.len() implies back[i] >= 0 by {
        assert(back[i] == array.shape[a + 1 + i]);
    }
    lemma_positive_iff_nonempty(front);
    lemma_positive_iff_nonempty(back);
    match spec {
        SplitSpec::Sections(sections) => {
            lemma_section_lengths(length, sections as int);
        },
        SplitSpec::Indices(cuts) => {
            lemma_cut_lengths(cuts@, length);
        },
    }
    assert(lengths.len() > 0);
    assert forall|m: int| 0 <= m < lengths.len() implies 0 <= #[trigger] lengths[m] <= length by {
        match spec {
            SplitSpec::Sections(sections) => {
                assert(0 <= section_lengths(length, sections as int)[m] <= length);
            },
            SplitSpec::Indices(cuts) => {
                assert(0 <= cut_lengths(cuts@, length)[m] <= length);
            },
        }
    }
    let first = pieces[0].shape;
    assert(first.take(a) =~= array.shape.take(a));
    assert(first.skip(a + 1) =~= array.shape.skip(a + 1));
    assert(axis_lengths(pieces, a) =~= lengths) by {
        assert forall|m: int| 0 <= m < lengths.len() implies axis_lengths(pieces, a)[m]
            == lengths[m] by {
            assert(0 <= lengths[m] <= length);
        }
    }
    assert(first.update(a, length as i64) =~= array.shape);
    assert(same_kind(pieces));
    assert(same_rank(pieces));
    assert(all_agree_off_axis(pieces, a));
    lemma_total_scaled(lengths, after);
    assert(before * length * after == before * (length * after)) by (nonlinear_arith);
    assert forall|i: int| 0 <= i < chunks.len() implies chunks[i] >= 0 by {
        assert(0 <= lengths[i] <= length);
        assert(lengths[i] * after >= 0) by (nonlinear_arith)
            requires
                lengths[i] >= 0,
                after >= 0,
        ;
    }
    lemma_split_then_join(array.elements, chunks, before);
    assert(parts_of(pieces) =~= Seq::new(
        chunks.len(),
        |m: int| piece_of(array.elements, chunks, before, m),
    ));
    let joined_view = ArrayView {
        shape: first.update(a, length as i64),
        dtype: array.dtype,
        elements: joined(parts_of(pieces), chunks, before),
    };
    assert(joined_view =~= array);
}

} // verus!
