//! Rotary position embedding, applied to keys as they are read.

use vstd::prelude::*;

use crate::scalar;
use crate::scalar::Scalar;
use crate::tensor;
use crate::tensor::{Matrix, NdArray};

verus! {

/// Why a table of cosines or sines cannot serve.
#[derive(Clone, Copy, Debug, PartialEq, Eq, Structural)]
pub enum RopeError {
    /// It has fewer than two axes.
    Rank,
    /// Its last axis is not the head's width.
    Width,
    /// The axis before is not the number of cached tokens.
    Length,
}

/// What a table of this shape is refused for, if anything.
pub open spec fn refusal(shape: Seq<usize>, t: usize, d: usize) -> Option<RopeError> {
    let n = shape.len() as int;
    if n < 2 {
        Some(RopeError::Rank)
    } else if shape[n - 1] != d {
        Some(RopeError::Width)
    } else if shape[n - 2] != t {
        Some(RopeError::Length)
    } else {
        None
    }
}

/// Reduces a table `[.., t, d]` to `[t, d]`: positions and channels are all that
/// it depends on, so every leading axis is taken at 0.
pub fn reduce_cos_sin<T: Scalar>(v: &NdArray<T>, t: usize, d: usize) -> (r: Result<
    Matrix<T>,
    RopeError,
>)
    requires
        v.wf(),
        forall|i: int| 0 <= i < v.shape@.len() - 2 ==> #[trigger] v.shape@[i] > 0,
    ensures
        match refusal(v.shape@, t, d) {
            Some(e) => r == Err::<Matrix<T>, RopeError>(e),
            None => {
                &&& r is Ok
                &&& r->Ok_0.wf()
                &&& r->Ok_0.rows == t
                &&& r->Ok_0.cols == d
                &&& t * d <= v.data@.len()
                &&& r->Ok_0.data@ == v.data@.subrange(0, t * d)
            },
        },
{
    let n: usize = v.shape.len();
    if n < 2 {
        return Err(RopeError::Rank);
    }
    if v.shape[n - 1] != d {
        return Err(RopeError::Width);
    }
    if v.shape[n - 2] != t {
        return Err(RopeError::Length);
    }
    proof {
        let lead = v.shape@.drop_last().drop_last();
        assert(v.shape@.drop_last().last() == t);
        assert forall|i: int| 0 <= i < lead.len() implies #[trigger] lead[i] > 0 by {
            assert(v.shape@[i] > 0);
        }
        tensor::lemma_volume_positive(lead);
        reveal_with_fuel(tensor::volume, 3);
        let m = tensor::volume(lead) as int;
        assert(v.data@.len() == m * t * d);
        assert(m * t * d >= t * d) by (nonlinear_arith)
            requires
                m >= 1,
        ;
        assert(v.data.len() == v.data@.len());
    }
    let data = vstd::slice::slice_subrange(v.data.as_slice(), 0, t * d);
    Ok(Matrix { rows: t, cols: d, data: vstd::slice::slice_to_vec(data) })
}

/// The element that `j` is mixed with: `[a, b]` becomes `[-b, a]` on the two
/// halves of the row.
pub open spec fn rotate_half<T: Scalar>(row: Seq<T>, j: int) -> T {
    let half = row.len() as int / 2;
    if j < half {
        row[j + half].negated_spec()
    } else {
        row[j - half]
    }
}

/// The row, rotated by the given cosines and sines.
pub open spec fn rotated<T: Scalar>(row: Seq<T>, cos: Seq<T>, sin: Seq<T>) -> Seq<T> {
    Seq::new(
        row.len(),
        |j: int|
            row[j].times_spec(cos[j]).plus_spec(rotate_half(row, j).times_spec(sin[j])),
    )
}

/// Rotates the first `rows` rows of `k` in place; row `i` stands at position
/// `start + i`.
pub fn apply_rope_tile<T: Scalar>(
    k: &mut Matrix<T>,
    rows: usize,
    start: usize,
    cos: &Matrix<T>,
    sin: &Matrix<T>,
)
    requires
        scalar::lawful::<T>(),
        old(k).wf(),
        cos.wf(),
        sin.wf(),
        rows <= old(k).rows,
        start + rows <= cos.rows,
        start + rows <= sin.rows,
        cos.cols == old(k).cols,
        sin.cols == old(k).cols,
    ensures
        final(k).wf(),
        final(k).rows == old(k).rows,
        final(k).cols == old(k).cols,
        forall|i: int|
            0 <= i < rows ==> #[trigger] final(k).row(i) == rotated(
                old(k).row(i),
                cos.row(start + i),
                sin.row(start + i),
            ),
        forall|i: int| rows <= i < old(k).rows ==> #[trigger] final(k).row(i) == old(k).row(i),
{
    let d: usize = k.cols;
    let half: usize = d / 2;
    let mut i: usize = 0;
    while i < rows
        invariant
            scalar::lawful::<T>(),
            cos.wf(),
            sin.wf(),
            k.wf(),
            d == k.cols,
            half == d / 2,
            i <= rows <= k.rows,
            start + rows <= cos.rows,
            start + rows <= sin.rows,
            cos.cols == d,
            sin.cols == d,
            k.rows == old(k).rows,
            k.cols == old(k).cols,
            forall|a: int|
                0 <= a < i ==> #[trigger] k.row(a) == rotated(
                    old(k).row(a),
                    cos.row(start + a),
                    sin.row(start + a),
                ),
            forall|a: int| i <= a < old(k).rows ==> #[trigger] k.row(a) == old(k).row(a),
        decreases rows - i,
    {
        let ghost before = *k;
        let row = vstd::slice::slice_to_vec(k.row_ref(i));
        let cos_row = cos.row_ref(start + i);
        let sin_row = sin.row_ref(start + i);
        let dst = k.row_mut(i);
        let ghost by = rotated(row@, cos_row@, sin_row@);
        let mut j: usize = 0;
        while j < d
            invariant
                scalar::lawful::<T>(),
                half == d / 2,
                row@.len() == d,
                cos_row@.len() == d,
                sin_row@.len() == d,
                dst@.len() == d,
                by == rotated(row@, cos_row@, sin_row@),
                j <= d,
                forall|a: int| 0 <= a < j ==> #[trigger] dst@[a] == by[a],
            decreases d - j,
        {
            let turned: T = if j < half { scalar::negated(row[j + half]) } else { row[j - half] };
            dst[j] = scalar::plus(
                scalar::times(row[j], cos_row[j]),
                scalar::times(turned, sin_row[j]),
            );
            j += 1;
        }
        proof {
            assert(dst@ =~= by);
            tensor::lemma_row_replaced(before, *k, i as int, by);
            assert(k.row(i as int) == by);
            assert forall|a: int| 0 <= a < old(k).rows && a != i implies #[trigger] k.row(a)
                == before.row(a) by {
                tensor::lemma_rows_equal(before, *k, a);
            }
        }
        i += 1;
    }
}

} // verus!
