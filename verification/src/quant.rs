//! Affine quantization to small integer codes, and the packing of the codes.
//!
//! A group of values shares one offset `lo` and one step `scale`. A value `x`
//! becomes the code `round((x - lo) / scale)`, held between 0 and the largest
//! code, and reads back as `lo + code * scale`.

use vstd::prelude::*;

use crate::math;
use crate::scalar;
use crate::scalar::Scalar;
use crate::tensor;
use crate::tensor::Matrix;

verus! {

/// The largest code of `bits` bits.
pub open spec fn max_code(bits: u32) -> nat {
    (vstd::arithmetic::power2::pow2(bits as nat) - 1) as nat
}

/// The largest code of `bits` bits, as an element.
pub open spec fn levels_spec<T: Scalar>(bits: u32) -> T {
    T::of_count_spec(max_code(bits) as usize)
}

/// The number of bytes that hold `d` packed codes.
pub open spec fn row_len(d: nat, bits: u32) -> nat {
    math::ceil_div(d * bits as nat, 8)
}

/// The least of the values.
pub open spec fn least<T: Scalar>(v: Seq<T>) -> T
    decreases v.len(),
{
    if v.len() == 0 {
        T::infinity_spec()
    } else {
        least(v.drop_last()).smaller_spec(v.last())
    }
}

/// The greatest of the values.
pub open spec fn greatest<T: Scalar>(v: Seq<T>) -> T
    decreases v.len(),
{
    if v.len() == 0 {
        T::neg_infinity_spec()
    } else {
        greatest(v.drop_last()).larger_spec(v.last())
    }
}

/// The step that spreads `lo..hi` over the codes.
pub open spec fn step<T: Scalar>(lo: T, hi: T, lv: T) -> T {
    if lo.below_spec(hi) {
        hi.minus_spec(lo).over_spec(lv)
    } else {
        T::one_spec()
    }
}

/// The step of a group of values.
pub open spec fn group_step<T: Scalar>(v: Seq<T>, bits: u32) -> T {
    step(least(v), greatest(v), levels_spec(bits))
}

/// The multiple of the step that stands for `x`.
pub open spec fn level<T: Scalar>(x: T, lo: T, scale: T, lv: T) -> T {
    x.minus_spec(lo).over_spec(scale).rounded_spec().clamped_spec(T::zero_spec(), lv)
}

/// The code that stands for `x`.
pub open spec fn code_of<T: Scalar>(x: T, lo: T, scale: T, bits: u32) -> u8 {
    level(x, lo, scale, levels_spec(bits)).to_code_spec()
}

/// What a level reads back as.
pub open spec fn restored<T: Scalar>(q: T, lo: T, scale: T) -> T {
    lo.plus_spec(q.times_spec(scale))
}

/// What a code reads back as.
pub open spec fn decoded<T: Scalar>(code: u8, lo: T, scale: T) -> T {
    restored(T::of_count_spec(code as usize), lo, scale)
}

/// The largest code of `bits` bits, as an element.
pub fn levels<T: Scalar>(bits: u32) -> (r: T)
    requires
        scalar::lawful::<T>(),
        bits < 32,
    ensures
        r == levels_spec::<T>(bits),
{
    proof {
        lemma_max_code(bits);
    }
    let top: u32 = (1u32 << bits) - 1;
    scalar::of_count(top as usize)
}

/// The largest code is all ones.
pub proof fn lemma_max_code(bits: u32)
    requires
        bits < 32,
    ensures
        1u32 << bits >= 1,
        max_code(bits) == (1u32 << bits) - 1,
        bits == 4 ==> max_code(bits) == 15,
        bits == 8 ==> max_code(bits) == 255,
{
    assert(1u32 << bits >= 1) by (bit_vector)
        requires
            bits < 32,
    ;
    vstd::arithmetic::power2::lemma2_to64();
    vstd::arithmetic::power2::lemma_pow2_strictly_increases(bits as nat, 32);
    assert(1 * vstd::arithmetic::power2::pow2(bits as nat) <= u32::MAX);
    vstd::bits::lemma_u32_shl_is_mul(1, bits);
}

/// The number of bytes that hold `d` packed codes.
pub fn row_bytes(d: usize, bits: u32) -> (r: usize)
    requires
        d * bits <= usize::MAX,
    ensures
        r == row_len(d as nat, bits),
{
    math::div_ceil(d * bits as usize, 8)
}

/// The least and the greatest of the values.
pub fn range_of<T: Scalar>(v: &[T]) -> (r: (T, T))
    requires
        scalar::lawful::<T>(),
    ensures
        r.0 == least(v@),
        r.1 == greatest(v@),
{
    let mut lo: T = scalar::infinity();
    let mut hi: T = scalar::neg_infinity();
    let mut i: usize = 0;
    assert(v@.take(0) =~= Seq::<T>::empty());
    while i < v.len()
        invariant
            scalar::lawful::<T>(),
            i <= v@.len(),
            lo == least(v@.take(i as int)),
            hi == greatest(v@.take(i as int)),
        decreases v@.len() - i,
    {
        proof {
            assert(v@.take(i + 1).drop_last() =~= v@.take(i as int));
            assert(v@.take(i + 1).last() == v@[i as int]);
        }
        lo = scalar::smaller(lo, v[i]);
        hi = scalar::larger(hi, v[i]);
        i += 1;
    }
    proof {
        assert(v@.take(i as int) =~= v@);
    }
    (lo, hi)
}

/// The step that spreads `lo..hi` over the codes.
pub fn step_of<T: Scalar>(lo: T, hi: T, lv: T) -> (r: T)
    requires
        scalar::lawful::<T>(),
    ensures
        r == step(lo, hi, lv),
{
    if scalar::below(lo, hi) {
        scalar::over(scalar::minus(hi, lo), lv)
    } else {
        scalar::one()
    }
}

/// The multiple of the step that stands for `x`.
pub fn level_of<T: Scalar>(x: T, lo: T, scale: T, lv: T) -> (r: T)
    requires
        scalar::lawful::<T>(),
    ensures
        r == level(x, lo, scale, lv),
{
    let q = scalar::rounded(scalar::over(scalar::minus(x, lo), scale));
    scalar::clamped(q, scalar::zero(), lv)
}

/// What a level reads back as.
pub fn restore<T: Scalar>(q: T, lo: T, scale: T) -> (r: T)
    requires
        scalar::lawful::<T>(),
    ensures
        r == restored(q, lo, scale),
{
    scalar::plus(lo, scalar::times(q, scale))
}

/// What a code reads back as.
pub fn decode<T: Scalar>(code: u8, lo: T, scale: T) -> (r: T)
    requires
        scalar::lawful::<T>(),
    ensures
        r == decoded(code, lo, scale),
{
    restore(scalar::of_count(code as usize), lo, scale)
}

/// The codes of the values under their own range, with offset and step.
pub fn quant_codes<T: Scalar>(v: &[T], bits: u32) -> (r: (Vec<u8>, T, T))
    requires
        scalar::lawful::<T>(),
        bits < 32,
    ensures
        r.0@ == Seq::new(
            v@.len(),
            |c: int| code_of(v@[c], least(v@), group_step(v@, bits), bits),
        ),
        r.1 == least(v@),
        r.2 == group_step(v@, bits),
{
    let (lo, hi) = range_of(v);
    let lv: T = levels(bits);
    let scale = step_of(lo, hi, lv);
    let mut codes: Vec<u8> = Vec::new();
    let mut i: usize = 0;
    while i < v.len()
        invariant
            scalar::lawful::<T>(),
            i <= v@.len(),
            lv == levels_spec::<T>(bits),
            lo == least(v@),
            scale == group_step(v@, bits),
            codes@.len() == i,
            forall|c: int| 0 <= c < i ==> #[trigger] codes@[c] == code_of(v@[c], lo, scale, bits),
        decreases v@.len() - i,
    {
        codes.push(scalar::to_code(level_of(v[i], lo, scale, lv)));
        i += 1;
    }
    assert(codes@ =~= Seq::new(
        v@.len(),
        |c: int| code_of(v@[c], least(v@), group_step(v@, bits), bits),
    ));
    (codes, lo, scale)
}

/// The values that share offset and step with the value at row `i`, column `j`.
pub open spec fn group_at<T>(x: Matrix<T>, by_row: bool, i: int, j: int) -> Seq<T> {
    if by_row {
        Seq::new(x.cols as nat, |k: int| x.at(i, k))
    } else {
        Seq::new(x.rows as nat, |k: int| x.at(k, j))
    }
}

/// What `value` reads back as from the codes of its group.
pub open spec fn round_trip<T: Scalar>(value: T, group: Seq<T>, bits: u32) -> T {
    let scale = group_step(group, bits);
    restored(level(value, least(group), scale, levels_spec(bits)), least(group), scale)
}

/// Quantizes a matrix and reads it back. With `by_row` each row is a group of
/// its own, else each column is.
pub fn quant_dequant<T: Scalar>(x: &Matrix<T>, bits: u32, by_row: bool) -> (r: Matrix<T>)
    requires
        scalar::lawful::<T>(),
        x.wf(),
        1 <= bits <= 16,
    ensures
        r.wf(),
        r.rows == x.rows,
        r.cols == x.cols,
        forall|i: int, j: int|
            0 <= i < x.rows && 0 <= j < x.cols ==> #[trigger] r.at(i, j) == round_trip(
                x.at(i, j),
                group_at(*x, by_row, i, j),
                bits,
            ),
{
    let lv: T = levels(bits);
    let (rows, cols): (usize, usize) = (x.rows, x.cols);
    let mut data: Vec<T> = Vec::new();
    let mut k: usize = 0;
    while k < x.data.len()
        invariant
            scalar::lawful::<T>(),
            k <= x.data@.len(),
            data@.len() == k,
        decreases x.data@.len() - k,
    {
        data.push(scalar::zero());
        k += 1;
    }
    let n_groups: usize = if by_row { rows } else { cols };
    let len: usize = if by_row { cols } else { rows };
    let mut g: usize = 0;
    while g < n_groups
        invariant
            scalar::lawful::<T>(),
            x.wf(),
            rows == x.rows,
            cols == x.cols,
            lv == levels_spec::<T>(bits),
            g <= n_groups,
            n_groups == if by_row { rows } else { cols },
            len == if by_row { cols } else { rows },
            1 <= bits <= 16,
            data@.len() == x.data@.len(),
            forall|i: int, j: int|
                0 <= i < rows && 0 <= j < cols && (if by_row { i < g } else { j < g }) ==> #[trigger]
                    data@[i * cols + j] == round_trip(x.at(i, j), group_at(*x, by_row, i, j), bits),
        decreases n_groups - g,
    {
        let mut group: Vec<T> = Vec::new();
        let mut e: usize = 0;
        while e < len
            invariant
                x.wf(),
                rows == x.rows,
                cols == x.cols,
                e <= len,
                g < n_groups,
                n_groups == if by_row { rows } else { cols },
                len == if by_row { cols } else { rows },
                group@.len() == e,
                forall|k: int|
                    0 <= k < e ==> #[trigger] group@[k] == if by_row {
                        x.at(g as int, k)
                    } else {
                        x.at(k, g as int)
                    },
            decreases len - e,
        {
            let (i, j): (usize, usize) = if by_row { (g, e) } else { (e, g) };
            proof {
                tensor::lemma_cell_in_bounds(i as int, j as int, rows as int, cols as int);
                assert(x.data.len() == x.data@.len());
            }
            group.push(x.data[i * cols + j]);
            e += 1;
        }
        let (lo, hi) = range_of(&group);
        let scale = step_of(lo, hi, lv);
        let ghost before = data@;
        let mut e: usize = 0;
        while e < len
            invariant
                scalar::lawful::<T>(),
                x.wf(),
                rows == x.rows,
                cols == x.cols,
                e <= len,
                g < n_groups,
                n_groups == if by_row { rows } else { cols },
                len == if by_row { cols } else { rows },
                group@.len() == len,
                forall|k: int|
                    0 <= k < len ==> #[trigger] group@[k] == if by_row {
                        x.at(g as int, k)
                    } else {
                        x.at(k, g as int)
                    },
                lv == levels_spec::<T>(bits),
                lo == least(group@),
                scale == group_step(group@, bits),
                data@.len() == x.data@.len(),
                before.len() == data@.len(),
                forall|i: int, j: int|
                    0 <= i < rows && 0 <= j < cols && (if by_row { i < g } else { j < g })
                        ==> #[trigger] data@[i * cols + j] == round_trip(
                        x.at(i, j),
                        group_at(*x, by_row, i, j),
                        bits,
                    ),
                forall|k: int|
                    0 <= k < e ==> #[trigger] group_cell(data@, by_row, cols as int, g as int, k)
                        == round_trip(group@[k], group@, bits),
            decreases len - e,
        {
            let (i, j): (usize, usize) = if by_row { (g, e) } else { (e, g) };
            let deq = restore(level_of(group[e], lo, scale, lv), lo, scale);
            proof {
                tensor::lemma_cell_in_bounds(i as int, j as int, rows as int, cols as int);
                assert(x.data.len() == x.data@.len());
            }
            let ghost was = data@;
            data.set(i * cols + j, deq);
            proof {
                assert forall|a: int, b: int|
                    0 <= a < rows && 0 <= b < cols && (if by_row { a < g } else { b < g })
                    implies #[trigger] data@[a * cols + b] == round_trip(
                    x.at(a, b),
                    group_at(*x, by_row, a, b),
                    bits,
                ) by {
                    tensor::lemma_cell_in_bounds(a, b, rows as int, cols as int);
                    if a * cols + b == i * cols + j {
                        tensor::lemma_cell_unique(a, b, i as int, j as int, cols as int);
                    }
                    assert(was[a * cols + b] == data@[a * cols + b]);
                }
                assert forall|k: int| 0 <= k < e + 1 implies #[trigger] group_cell(
                    data@,
                    by_row,
                    cols as int,
                    g as int,
                    k,
                ) == round_trip(group@[k], group@, bits) by {
                    let (a, b): (int, int) = if by_row { (g as int, k) } else { (k, g as int) };
                    tensor::lemma_cell_in_bounds(a, b, rows as int, cols as int);
                    if a * cols + b == i * cols + j {
                        tensor::lemma_cell_unique(a, b, i as int, j as int, cols as int);
                    } else {
                        assert(group_cell(was, by_row, cols as int, g as int, k) == was[a * cols
                            + b]);
                        assert(was[a * cols + b] == data@[a * cols + b]);
                    }
                }
            }
            e += 1;
        }
        proof {
            assert forall|i: int, j: int|
                0 <= i < rows && 0 <= j < cols && (if by_row { i < g + 1 } else { j < g + 1 })
                implies #[trigger] data@[i * cols + j] == round_trip(
                x.at(i, j),
                group_at(*x, by_row, i, j),
                bits,
            ) by {
                if by_row && i == g {
                    assert(group_at(*x, by_row, i, j) =~= group@);
                    assert(group_cell(data@, by_row, cols as int, g as int, j) == round_trip(
                        group@[j],
                        group@,
                        bits,
                    ));
                } else if !by_row && j == g {
                    assert(group_at(*x, by_row, i, j) =~= group@);
                    assert(group_cell(data@, by_row, cols as int, g as int, i) == round_trip(
                        group@[i],
                        group@,
                        bits,
                    ));
                }
            }
        }
        g += 1;
    }
    let r = Matrix { rows, cols, data };
    assert forall|i: int, j: int| 0 <= i < x.rows && 0 <= j < x.cols implies #[trigger] r.at(i, j)
        == round_trip(x.at(i, j), group_at(*x, by_row, i, j), bits) by {
        assert(r.at(i, j) == r.data@[i * cols + j]);
    }
    r
}

/// Element `k` of group `g` of a matrix with `cols` columns.
spec fn group_cell<T>(data: Seq<T>, by_row: bool, cols: int, g: int, k: int) -> T {
    if by_row {
        data[g * cols + k]
    } else {
        data[k * cols + g]
    }
}

/// Codes of eight bits take a byte each, and codes of four bits one for every two.
pub proof fn law_packed_rows_are_counted_in_bytes(d: nat)
    ensures
        row_len(d, 8) == d,
        row_len(d, 4) == (d + 1) / 2,
{
    math::lemma_ceil_div(d * 8, 8);
    math::lemma_ceil_div(d * 4, 8);
}

} // verus!
