//! Broadcasting: bringing arrays of different shapes to a common shape
//! without copying.
//!
//! Shapes are aligned at their last axis; a shorter shape counts as having
//! dimensions of size 1 in front. Two dimensions go together if they are
//! equal or one of them is 1. An operand is then walked over the common
//! shape with a stride of 0 on every axis on which it is stretched, so that
//! the same element is read again for every position on that axis.

use crate::layout::{all_positive, lemma_quotient_in_range, max_extent, min_extent, strided_offset};
use crate::shape::shape_product;
use vstd::arithmetic::div_mod::{lemma_fundamental_div_mod_converse, lemma_small_mod};
use vstd::prelude::*;

verus! {

/// Why shapes could not be broadcast.
#[derive(Debug, Clone, Copy, PartialEq, Eq, Structural)]
pub enum BroadcastError {
    /// Two dimensions differ and neither is 1, or an operand has more
    /// dimensions than the shape it is to be stretched to.
    IncompatibleShapes,
}

/// The common size of two dimensions, where they go together.
pub open spec fn broadcast_dim(a: i64, b: i64) -> Option<i64> {
    if a == b || b == 1 {
        Some(a)
    } else if a == 1 {
        Some(b)
    } else {
        None
    }
}

/// The dimension that a shape has at axis `i` of `rank` axes, with the
/// shape aligned at the last axis: 1 in front of the shape.
pub open spec fn aligned_dim(shape: Seq<i64>, rank: int, i: int) -> i64 {
    if i < rank - shape.len() {
        1
    } else {
        shape[i - (rank - shape.len())]
    }
}

/// The greater of two numbers of dimensions.
pub open spec fn common_rank(a: Seq<i64>, b: Seq<i64>) -> int {
    if a.len() >= b.len() {
        a.len() as int
    } else {
        b.len() as int
    }
}

/// Whether two shapes can be broadcast together.
pub open spec fn broadcast_compatible(a: Seq<i64>, b: Seq<i64>) -> bool {
    forall|i: int|
        0 <= i < common_rank(a, b) ==> (#[trigger] broadcast_dim(
            aligned_dim(a, common_rank(a, b), i),
            aligned_dim(b, common_rank(a, b), i),
        )) is Some
}

/// The common shape of two shapes that can be broadcast together.
pub open spec fn broadcast_shape(a: Seq<i64>, b: Seq<i64>) -> Seq<i64> {
    Seq::new(
        common_rank(a, b) as nat,
        |i: int|
            broadcast_dim(
                aligned_dim(a, common_rank(a, b), i),
                aligned_dim(b, common_rank(a, b), i),
            )->0,
    )
}

/// The shape that two shapes broadcast to, if they go together.
pub open spec fn broadcast_shapes_spec(a: Seq<i64>, b: Seq<i64>) -> Option<Seq<i64>> {
    if broadcast_compatible(a, b) {
        Some(broadcast_shape(a, b))
    } else {
        None
    }
}

/// The shape that a sequence of shapes broadcasts to, taken pairwise from
/// left to right. No shapes at all broadcast to the empty shape.
pub open spec fn broadcast_all_spec(shapes: Seq<Seq<i64>>) -> Option<Seq<i64>>
    decreases shapes.len(),
{
    if shapes.len() == 0 {
        Some(Seq::empty())
    } else {
        match broadcast_all_spec(shapes.drop_last()) {
            Some(common) => broadcast_shapes_spec(common, shapes.last()),
            None => None,
        }
    }
}

/// Broadcasting does not depend on the order of the two shapes.
pub proof fn lemma_broadcast_commutes(a: Seq<i64>, b: Seq<i64>)
    ensures
        broadcast_shapes_spec(a, b) == broadcast_shapes_spec(b, a),
{
    let n = common_rank(a, b);
    assert(n == common_rank(b, a));
    if broadcast_compatible(a, b) {
        assert forall|i: int| 0 <= i < n implies (#[trigger] broadcast_dim(
            aligned_dim(b, n, i),
            aligned_dim(a, n, i),
        )) is Some by {
            assert(broadcast_dim(aligned_dim(a, n, i), aligned_dim(b, n, i)) is Some);
        }
        assert forall|i: int| 0 <= i < n implies broadcast_shape(a, b)[i] == broadcast_shape(
            b,
            a,
        )[i] by {
            assert(broadcast_dim(aligned_dim(a, n, i), aligned_dim(b, n, i)) is Some);
        }
        assert(broadcast_shape(a, b) =~= broadcast_shape(b, a));
    }
    if broadcast_compatible(b, a) {
        assert forall|i: int| 0 <= i < n implies (#[trigger] broadcast_dim(
            aligned_dim(a, n, i),
            aligned_dim(b, n, i),
        )) is Some by {
            assert(broadcast_dim(aligned_dim(b, n, i), aligned_dim(a, n, i)) is Some);
        }
    }
}

/// The common shape of two shapes: aligned at the last axis, each
/// dimension the common size of the two. Shapes with two dimensions that
/// differ and are both other than 1 are refused.
pub fn broadcast_shapes(a: &[i64], b: &[i64]) -> (result: Result<Vec<i64>, BroadcastError>)
    ensures
        match result {
            Ok(shape) => broadcast_shapes_spec(a@, b@) == Some(shape@),
            Err(_) => broadcast_shapes_spec(a@, b@) is None,
        },
{
    let rank: usize = if a.len() >= b.len() {
        a.len()
    } else {
        b.len()
    };
    let pad_a: usize = rank - a.len();
    let pad_b: usize = rank - b.len();
    let mut shape: Vec<i64> = Vec::with_capacity(rank);
    let mut i: usize = 0;
    while i < rank
        invariant
            rank == common_rank(a@, b@),
            pad_a == rank - a.len(),
            pad_b == rank - b.len(),
            i <= rank,
            shape.len() == i,
            forall|j: int|
                0 <= j < i ==> (#[trigger] broadcast_dim(
                    aligned_dim(a@, rank as int, j),
                    aligned_dim(b@, rank as int, j),
                )) == Some(shape[j]),
        decreases rank - i,
    {
        let da: i64 = if i < pad_a {
            1
        } else {
            a[i - pad_a]
        };
        let db: i64 = if i < pad_b {
            1
        } else {
            b[i - pad_b]
        };
        let ghost dim = broadcast_dim(
            aligned_dim(a@, rank as int, i as int),
            aligned_dim(b@, rank as int, i as int),
        );
        if da == db || db == 1 {
            shape.push(da);
        } else if da == 1 {
            shape.push(db);
        } else {
            assert(dim is None);
            return Err(BroadcastError::IncompatibleShapes);
        }
        i += 1;
    }
    assert(shape@ =~= broadcast_shape(a@, b@));
    Ok(shape)
}

/// The views of the shapes in a list.
pub open spec fn shapes_view(shapes: Seq<Vec<i64>>) -> Seq<Seq<i64>> {
    Seq::new(shapes.len(), |i: int| shapes[i]@)
}

/// The common shape of any number of shapes, taken pairwise from left to
/// right.
pub fn broadcast_all(shapes: &[Vec<i64>]) -> (result: Result<Vec<i64>, BroadcastError>)
    ensures
        match result {
            Ok(shape) => broadcast_all_spec(shapes_view(shapes@)) == Some(shape@),
            Err(_) => broadcast_all_spec(shapes_view(shapes@)) is None,
        },
{
    let n: usize = shapes.len();
    let mut common: Vec<i64> = Vec::new();
    let mut i: usize = 0;
    let ghost all = shapes_view(shapes@);
    proof {
        assert(all.take(0) =~= Seq::<Seq<i64>>::empty());
        assert(common@ =~= Seq::<i64>::empty());
    }
    while i < n
        invariant
            n == shapes.len(),
            i <= n,
            all == shapes_view(shapes@),
            broadcast_all_spec(all.take(i as int)) == Some(common@),
        decreases n - i,
    {
        proof {
            assert(all.take(i + 1).drop_last() =~= all.take(i as int));
            assert(all.take(i + 1).last() == shapes[i as int]@);
        }
        match broadcast_shapes(common.as_slice(), shapes[i].as_slice()) {
            Ok(next) => {
                common = next;
            },
            Err(e) => {
                proof {
                    lemma_broadcast_all_prefix(all, i + 1);
                }
                return Err(e);
            },
        }
        i += 1;
    }
    proof {
        assert(all.take(n as int) =~= all);
    }
    Ok(common)
}

/// Where a prefix of a list of shapes cannot be broadcast, the whole list
/// cannot.
pub proof fn lemma_broadcast_all_prefix(shapes: Seq<Seq<i64>>, k: int)
    requires
        0 <= k <= shapes.len(),
        broadcast_all_spec(shapes.take(k)) is None,
    ensures
        broadcast_all_spec(shapes) is None,
    decreases shapes.len(),
{
    if k == shapes.len() {
        assert(shapes.take(k) =~= shapes);
    } else {
        assert(shapes.drop_last().take(k) =~= shapes.take(k));
        lemma_broadcast_all_prefix(shapes.drop_last(), k);
    }
}

/// Whether an operand of shape `shape` can be stretched to `out_shape`:
/// aligned at the last axis, each of its dimensions is that of `out_shape`
/// or 1.
pub open spec fn broadcasts_to(shape: Seq<i64>, out_shape: Seq<i64>) -> bool {
    &&& shape.len() <= out_shape.len()
    &&& forall|i: int|
        0 <= i < shape.len() ==> shape[i] == #[trigger] out_shape[i + (out_shape.len()
            - shape.len())] || shape[i] == 1
}

/// The strides with which an operand is walked over `out_shape`: 0 on the
/// axes that the operand does not have and on those where it has size 1
/// and `out_shape` has more, its own stride on the others.
pub open spec fn broadcast_strides_spec(
    shape: Seq<i64>,
    strides: Seq<i64>,
    out_shape: Seq<i64>,
) -> Seq<i64> {
    Seq::new(
        out_shape.len(),
        |i: int|
            {
                let pad = out_shape.len() - shape.len();
                if i < pad || (shape[i - pad] == 1 && out_shape[i] > 1) {
                    0i64
                } else {
                    strides[i - pad]
                }
            },
    )
}

/// The strides with which to walk an operand of the given shape and
/// strides over `out_shape`. An operand that cannot be stretched to
/// `out_shape`, or whose strides are not as many as its dimensions, is
/// refused.
pub fn broadcast_strides(shape: &[i64], strides: &[i64], out_shape: &[i64]) -> (result: Result<
    Vec<i64>,
    BroadcastError,
>)
    ensures
        match result {
            Ok(walk) => {
                &&& shape.len() == strides.len()
                &&& broadcasts_to(shape@, out_shape@)
                &&& walk@ == broadcast_strides_spec(shape@, strides@, out_shape@)
            },
            Err(_) => shape.len() != strides.len() || !broadcasts_to(shape@, out_shape@),
        },
{
    if shape.len() != strides.len() || shape.len() > out_shape.len() {
        return Err(BroadcastError::IncompatibleShapes);
    }
    let rank: usize = out_shape.len();
    let pad: usize = rank - shape.len();
    let mut walk: Vec<i64> = Vec::with_capacity(rank);
    let mut i: usize = 0;
    while i < rank
        invariant
            rank == out_shape.len(),
            shape.len() == strides.len(),
            pad == rank - shape.len(),
            i <= rank,
            walk.len() == i,
            forall|j: int|
                0 <= j < i - pad ==> shape[j] == #[trigger] out_shape[j + (out_shape.len()
                    - shape.len())] || shape[j] == 1,
            forall|j: int|
                0 <= j < i ==> walk[j] == broadcast_strides_spec(shape@, strides@, out_shape@)[j],
        decreases rank - i,
    {
        if i < pad {
            walk.push(0);
        } else {
            let d: i64 = shape[i - pad];
            if d == 1 && out_shape[i] > 1 {
                walk.push(0);
            } else if d == out_shape[i] || d == 1 {
                walk.push(strides[i - pad]);
            } else {
                assert(!(shape[i - pad] == out_shape[(i - pad) + (out_shape.len() - shape.len())]
                    || shape[i - pad] == 1));
                return Err(BroadcastError::IncompatibleShapes);
            }
        }
        i += 1;
    }
    assert(walk@ =~= broadcast_strides_spec(shape@, strides@, out_shape@));
    Ok(walk)
}

/// The number of the operand's element that is read for element number
/// `k` of `out_shape`: the element with the same coordinates, but 0 on
/// every axis on which the operand has size 1.
pub open spec fn broadcast_source(k: int, out_shape: Seq<i64>, shape: Seq<i64>) -> int
    decreases shape.len(),
{
    if shape.len() == 0 || out_shape.len() == 0 {
        0
    } else {
        (if shape.last() == 1 {
            0
        } else {
            k % (out_shape.last() as int)
        }) + shape.last() * broadcast_source(
            k / (out_shape.last() as int),
            out_shape.drop_last(),
            shape.drop_last(),
        )
    }
}

/// With a stride of 0 on every axis, every element lies at offset 0.
pub proof fn lemma_zero_strides(k: int, shape: Seq<i64>, strides: Seq<i64>)
    requires
        shape.len() == strides.len(),
        forall|i: int| 0 <= i < strides.len() ==> strides[i] == 0,
    ensures
        strided_offset(k, shape, strides) == 0,
        min_extent(shape, strides) == 0,
        max_extent(shape, strides) == 0,
    decreases shape.len(),
{
    if shape.len() > 0 {
        lemma_zero_strides(k / (shape.last() as int), shape.drop_last(), strides.drop_last());
        assert((k % (shape.last() as int)) * 0 == 0) by (nonlinear_arith);
    }
}

/// Walking an operand over the shape it is stretched to reads, for every
/// element of that shape, an element of the operand: the one that
/// [`broadcast_source`] names. The walk stays within the extents of the
/// operand's own strides.
pub proof fn lemma_broadcast_walk(k: int, shape: Seq<i64>, strides: Seq<i64>, out_shape: Seq<i64>)
    requires
        shape.len() == strides.len(),
        broadcasts_to(shape, out_shape),
        all_positive(out_shape),
        0 <= k < shape_product(out_shape),
    ensures
        all_positive(shape),
        0 <= broadcast_source(k, out_shape, shape) < shape_product(shape),
        strided_offset(k, out_shape, broadcast_strides_spec(shape, strides, out_shape))
            == strided_offset(broadcast_source(k, out_shape, shape), shape, strides),
        min_extent(out_shape, broadcast_strides_spec(shape, strides, out_shape)) == min_extent(
            shape,
            strides,
        ),
        max_extent(out_shape, broadcast_strides_spec(shape, strides, out_shape)) == max_extent(
            shape,
            strides,
        ),
    decreases out_shape.len(),
{
    let walk = broadcast_strides_spec(shape, strides, out_shape);
    let pad = out_shape.len() - shape.len();
    assert forall|i: int| 0 <= i < shape.len() implies shape[i] > 0 by {
        assert(shape[i] == out_shape[i + (out_shape.len() - shape.len())] || shape[i] == 1);
    }
    if shape.len() == 0 {
        lemma_zero_strides(k, out_shape, walk);
    } else {
        let d_out = out_shape.last() as int;
        let d = shape.last() as int;
        let s = strides.last() as int;
        let out_init = out_shape.drop_last();
        let init = shape.drop_last();
        let init_strides = strides.drop_last();
        assert(shape[shape.len() - 1] == out_shape[shape.len() - 1 + (out_shape.len()
            - shape.len())] || shape[shape.len() - 1] == 1);
        assert(walk.drop_last() =~= broadcast_strides_spec(init, init_strides, out_init));
        assert forall|i: int| 0 <= i < init.len() implies init[i] == #[trigger] out_init[i + (
        out_init.len() - init.len())] || init[i] == 1 by {
            assert(shape[i] == out_shape[i + (out_shape.len() - shape.len())] || shape[i] == 1);
        }
        assert forall|i: int| 0 <= i < out_init.len() implies out_init[i] > 0 by {
            assert(out_init[i] == out_shape[i]);
        }
        lemma_quotient_in_range(k, shape_product(out_init), d_out);
        lemma_broadcast_walk(k / d_out, init, init_strides, out_init);
        let c = k % d_out;
        let pc = if d == 1 {
            0
        } else {
            c
        };
        let rest = broadcast_source(k / d_out, out_init, init);
        let src = broadcast_source(k, out_shape, shape);
        assert(src == pc + d * rest);
        assert(d * rest == rest * d) by (nonlinear_arith);
        lemma_fundamental_div_mod_converse(src, d, rest, pc);
        assert(0 <= src < shape_product(init) * d) by (nonlinear_arith)
            requires
                src == pc + d * rest,
                0 <= pc < d,
                0 <= rest < shape_product(init),
        ;
        if d == 1 {
            lemma_small_mod(0, 1);
            assert(c * walk.last() == 0) by (nonlinear_arith)
                requires
                    walk.last() == 0 || c == 0,
            ;
            assert(pc * s == 0) by (nonlinear_arith)
                requires
                    pc == 0,
            ;
            assert((d_out - 1) * 0 == 0) by (nonlinear_arith);
            assert((d - 1) * s == 0) by (nonlinear_arith)
                requires
                    d == 1,
            ;
        }
    }
}

/// Each of two shapes that go together can be stretched to their common
/// shape.
pub proof fn lemma_broadcast_covers(a: Seq<i64>, b: Seq<i64>)
    requires
        broadcast_compatible(a, b),
    ensures
        broadcasts_to(a, broadcast_shape(a, b)),
        broadcasts_to(b, broadcast_shape(a, b)),
{
    let n = common_rank(a, b);
    let out = broadcast_shape(a, b);
    assert forall|i: int| 0 <= i < a.len() implies a[i] == #[trigger] out[i + (out.len()
        - a.len())] || a[i] == 1 by {
        let j = i + (n - a.len());
        assert(broadcast_dim(aligned_dim(a, n, j), aligned_dim(b, n, j)) is Some);
    }
    assert forall|i: int| 0 <= i < b.len() implies b[i] == #[trigger] out[i + (out.len()
        - b.len())] || b[i] == 1 by {
        let j = i + (n - b.len());
        assert(broadcast_dim(aligned_dim(a, n, j), aligned_dim(b, n, j)) is Some);
    }
}

/// Two equal shapes broadcast to themselves, and every element is then
/// read at its own number.
pub proof fn lemma_broadcast_same_shape(k: int, shape: Seq<i64>)
    requires
        all_positive(shape),
        0 <= k < shape_product(shape),
    ensures
        broadcast_shapes_spec(shape, shape) == Some(shape),
        broadcast_source(k, shape, shape) == k,
    decreases shape.len(),
{
    assert(broadcast_shape(shape, shape) =~= shape);
    if shape.len() > 0 {
        let d = shape.last() as int;
        let init = shape.drop_last();
        assert forall|i: int| 0 <= i < init.len() implies init[i] > 0 by {
            assert(init[i] == shape[i]);
        }
        lemma_quotient_in_range(k, shape_product(init), d);
        lemma_broadcast_same_shape(k / d, init);
        vstd::arithmetic::div_mod::lemma_fundamental_div_mod(k, d);
        if d == 1 {
            lemma_small_mod(0, 1);
            assert(k % 1 == 0);
        }
    }
}

} // verus!
