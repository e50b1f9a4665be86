//! How values are spread over codes, written out: the codes of a group reach from
//! its least value to its greatest in equal steps, and each value goes to the step
//! that is nearest to it. Arithmetic is taken to be exact.

use vstd::prelude::*;

use crate::exact;
use crate::exact::Reading;
use crate::kv_cache;
use crate::kv_sdpa;
use crate::packing;
use crate::quant;
use crate::reals;
use crate::scalar::Scalar;
use crate::tensor;
use crate::tensor::{Matrix, NdArray};

verus! {

/// Whether some values lie between the ones at `least` and at `most`.
pub open spec fn reaches<T: Scalar>(f: Reading<T>, v: Seq<T>, least: int, most: int) -> bool {
    &&& 0 <= least < v.len()
    &&& 0 <= most < v.len()
    &&& forall|i: int|
        0 <= i < v.len() ==> f.of(v[least]) <= f.of(#[trigger] v[i]) <= f.of(v[most])
}

/// Whether `y` stands for `x` on a scale of `top + 1` marks from `lo` to `hi`: it is
/// on a mark, and no further from `x` than half the distance between two.
pub open spec fn on_nearest_mark(lo: real, hi: real, top: int, x: real, y: real) -> bool {
    &&& exists|k: int|
        0 <= k <= top && reals::product(reals::whole(top), y - lo) == #[trigger] reals::product(
            reals::whole(k),
            hi - lo,
        )
    &&& lo - hi <= reals::product(reals::whole(2 * top), y - x) <= hi - lo
}

/// The least and the greatest value are the ones that are found so.
proof fn lemma_reach<T: Scalar>(f: Reading<T>, v: Seq<T>, least: int, most: int)
    requires
        f.exact(),
        f.all(v),
        reaches(f, v, least, most),
    ensures
        f.of(quant::least(v)) == f.of(v[least]),
        f.of(quant::greatest(v)) == f.of(v[most]),
{
    exact::lemma_extremes(f, v);
    lemma_attained(f, v);
    let (i, j) = (
        choose|i: int| 0 <= i < v.len() && f.of(quant::least(v)) == f.of(#[trigger] v[i]),
        choose|j: int| 0 <= j < v.len() && f.of(quant::greatest(v)) == f.of(#[trigger] v[j]),
    );
    assert(f.of(v[least]) <= f.of(v[i]));
    assert(f.of(v[j]) <= f.of(v[most]));
}

/// The least and the greatest of some values are among them.
proof fn lemma_attained<T: Scalar>(f: Reading<T>, v: Seq<T>)
    requires
        f.exact(),
        f.all(v),
        v.len() > 0,
    ensures
        exists|i: int| 0 <= i < v.len() && f.of(quant::least(v)) == f.of(#[trigger] v[i]),
        exists|i: int| 0 <= i < v.len() && f.of(quant::greatest(v)) == f.of(#[trigger] v[i]),
    decreases v.len(),
{
    let rest = v.drop_last();
    let last = v.len() - 1;
    assert(f.is(v[last]));
    if rest.len() > 0 {
        assert forall|i: int| 0 <= i < rest.len() implies f.is(#[trigger] rest[i]) by {
            assert(f.is(v[i]));
        }
        exact::lemma_extremes(f, rest);
        lemma_attained(f, rest);
        let i = choose|i: int|
            0 <= i < rest.len() && f.of(quant::least(rest)) == f.of(#[trigger] rest[i]);
        let j = choose|j: int|
            0 <= j < rest.len() && f.of(quant::greatest(rest)) == f.of(#[trigger] rest[j]);
        assert(rest[i] == v[i] && rest[j] == v[j]);
        assert(f.of(quant::least(v)) == f.of(v[i]) || f.of(quant::least(v)) == f.of(v[last]));
        assert(f.of(quant::greatest(v)) == f.of(v[j]) || f.of(quant::greatest(v)) == f.of(v[last]));
    } else {
        assert(quant::least(rest) == T::infinity_spec());
        assert(quant::greatest(rest) == T::neg_infinity_spec());
        assert(v.last() == v[last]);
        assert(f.of(quant::least(v)) == f.of(v[last]));
        assert(f.of(quant::greatest(v)) == f.of(v[last]));
    }
}

/// A number some steps from the offset is on a mark, and is the nearest where it is
/// within half a step.
proof fn lemma_mark(lo: real, hi: real, top: int, s: real, m: int, x: real, y: real)
    requires
        top >= 1,
        0 <= m <= top,
        lo <= x <= hi,
        y == lo + reals::whole(m) * s,
        exact::half(y - x, s),
        s * reals::whole(top) == hi - lo || (s == reals::whole(1) && lo == hi && y == x),
    ensures
        on_nearest_mark(lo, hi, top, x, y),
{
    reveal(reals::product);
    let (n, k) = (reals::whole(top), reals::whole(m));
    let err = y - x;
    let two = reals::whole(2 * top);
    assert(two == n + n);
    if s * n == hi - lo {
        assert(n * (y - lo) == k * (hi - lo)) by (nonlinear_arith)
            requires
                y == lo + k * s,
                s * n == hi - lo,
        ;
        assert(reals::product(n, y - lo) == reals::product(k, hi - lo));
        assert(lo - hi <= two * err && two * err <= hi - lo) by (nonlinear_arith)
            requires
                two == n + n,
                s * n == hi - lo,
                n >= reals::whole(1),
                -s <= err + err,
                err + err <= s,
        ;
    } else {
        let zero = reals::whole(0);
        assert(n * (y - lo) == zero * (hi - lo)) by (nonlinear_arith)
            requires
                y == lo,
                zero == reals::whole(0),
        ;
        assert(reals::product(n, y - lo) == reals::product(reals::whole(0), hi - lo));
        assert(two * err == zero) by (nonlinear_arith)
            requires
                err == zero,
                zero == reals::whole(0),
        ;
    }
}

/// A step that spreads a range spreads it, or is 1 where there is none.
proof fn lemma_spreads(s: real, r: real, n: real, range: real)
    requires
        s == r || (s == reals::whole(1) && r == reals::whole(0)),
        r * n == range,
    ensures
        s * n == range || (s == reals::whole(1) && range == reals::whole(0)),
{
    if s != r {
        assert(range == reals::whole(0)) by (nonlinear_arith)
            requires
                r * n == range,
                r == reals::whole(0),
        ;
    }
}

/// Quantizing a group of values and reading it back puts each on the nearest of the
/// `2^bits` marks from the least value of the group to the greatest.
pub proof fn law_round_trip_goes_to_the_nearest_mark<T: Scalar>(
    f: Reading<T>,
    group: Seq<T>,
    bits: u32,
    i: int,
    least: int,
    most: int,
)
    requires
        f.exact(),
        f.all(group),
        0 <= i < group.len(),
        1 <= bits <= 16,
        reaches(f, group, least, most),
    ensures
        on_nearest_mark(
            f.of(group[least]),
            f.of(group[most]),
            vstd::arithmetic::power2::pow2(bits as nat) - 1,
            f.of(group[i]),
            f.of(quant::round_trip(group[i], group, bits)),
        ),
{
    lemma_reach(f, group, least, most);
    exact::lemma_group(f, group, bits, i);
    exact::lemma_some_codes(bits);
    let (lo, scale) = (quant::least(group), quant::group_step(group, bits));
    let top = quant::max_code(bits) as usize;
    let m = exact::lemma_level(f, group[i], lo, scale, top);
    exact::lemma_exact_where_alone(f.of(lo), f.of(scale), f.of(group[i]), m);
    let q = quant::level(group[i], lo, scale, T::of_count_spec(top));
    assert(f.is(q.times_spec(scale)));
    let y = quant::round_trip(group[i], group, bits);
    assert(f.of(y) == f.of(lo) + reals::whole(m) * f.of(scale));
    lemma_range(f, group, bits);
    vstd::arithmetic::power2::lemma_pow2_pos(bits as nat);
    lemma_spreads(
        f.of(scale),
        f.range_step(group, bits),
        reals::whole(top as int),
        f.of(group[most]) - f.of(lo),
    );
    lemma_mark(
        f.of(lo),
        f.of(group[most]),
        top as int,
        f.of(scale),
        m,
        f.of(group[i]),
        f.of(y),
    );
}

/// The step that spreads a range, times the number of steps, is the range.
proof fn lemma_range<T: Scalar>(f: Reading<T>, v: Seq<T>, bits: u32)
    requires
        1 <= bits < 32,
    ensures
        f.range_step(v, bits) * reals::whole(quant::max_code(bits) as int) == f.of(
            quant::greatest(v),
        ) - f.of(quant::least(v)),
{
    exact::lemma_some_codes(bits);
    let (r, n) = (f.range_step(v, bits), reals::whole(quant::max_code(bits) as int));
    let range = f.of(quant::greatest(v)) - f.of(quant::least(v));
    assert(r * n == range) by (nonlinear_arith)
        requires
            r == range / n,
            n >= reals::whole(1),
    ;
}

/// The matrix that [`quant::quant_dequant`] gives back holds, at each place, what
/// the row of the place, or its column, puts there: the nearest of the `2^bits`
/// marks from the least of its values to the greatest.
pub proof fn law_matrix_is_quantized_by_rows_or_columns<T: Scalar>(
    f: Reading<T>,
    x: Matrix<T>,
    bits: u32,
    by_row: bool,
    i: int,
    j: int,
    least: int,
    most: int,
)
    requires
        f.exact(),
        x.wf(),
        f.all(x.data@),
        1 <= bits <= 16,
        0 <= i < x.rows,
        0 <= j < x.cols,
        ({
            let place = |k: int|
                if by_row {
                    x.data@[i * x.cols + k]
                } else {
                    x.data@[k * x.cols + j]
                };
            let n: int = if by_row {
                x.cols as int
            } else {
                x.rows as int
            };
            &&& 0 <= least < n
            &&& 0 <= most < n
            &&& forall|k: int|
                0 <= k < n ==> f.of(place(least)) <= f.of(#[trigger] place(k)) <= f.of(place(most))
        }),
    ensures
        ({
            let place = |k: int|
                if by_row {
                    x.data@[i * x.cols + k]
                } else {
                    x.data@[k * x.cols + j]
                };
            let here = x.data@[i * x.cols + j];
            on_nearest_mark(
                f.of(place(least)),
                f.of(place(most)),
                vstd::arithmetic::power2::pow2(bits as nat) - 1,
                f.of(here),
                f.of(quant::round_trip(here, quant::group_at(x, by_row, i, j), bits)),
            )
        }),
{
    let place = |k: int|
        if by_row {
            x.data@[i * x.cols + k]
        } else {
            x.data@[k * x.cols + j]
        };
    let n: nat = if by_row {
        x.cols as nat
    } else {
        x.rows as nat
    };
    let group = quant::group_at(x, by_row, i, j);
    assert(group =~= Seq::new(n, place));
    assert forall|k: int| 0 <= k < group.len() implies f.is(#[trigger] group[k]) by {
        if by_row {
            tensor::lemma_cell_in_bounds(i, k, x.rows as int, x.cols as int);
        } else {
            tensor::lemma_cell_in_bounds(k, j, x.rows as int, x.cols as int);
        }
    }
    assert forall|k: int| 0 <= k < group.len() implies f.of(group[least]) <= f.of(
        #[trigger] group[k],
    ) <= f.of(group[most]) by {
        assert(f.of(place(least)) <= f.of(place(k)) <= f.of(place(most)));
    }
    let at = if by_row {
        j
    } else {
        i
    };
    assert(group[at] == x.data@[i * x.cols + j]);
    law_round_trip_goes_to_the_nearest_mark(f, group, bits, at, least, most);
}

/// A value vector reads back, element by element, at the nearest of 16 or 256 marks
/// from its own least element to its greatest.
pub proof fn law_value_goes_to_the_nearest_mark<T: Scalar>(
    f: Reading<T>,
    v: Seq<T>,
    bits: u32,
    c: int,
    least: int,
    most: int,
)
    requires
        f.exact(),
        f.all(v),
        bits == 4 || bits == 8,
        0 <= c < v.len(),
        reaches(f, v, least, most),
    ensures
        on_nearest_mark(
            f.of(v[least]),
            f.of(v[most]),
            if bits == 4 {
                15
            } else {
                255
            },
            f.of(v[c]),
            f.of(kv_cache::value_token(v, bits).value(bits, c)),
        ),
{
    lemma_reach(f, v, least, most);
    exact::lemma_group(f, v, bits, c);
    quant::lemma_max_code(bits);
    lemma_range(f, v, bits);
    let (lo, scale) = (quant::least(v), quant::group_step(v, bits));
    let m = exact::lemma_code(f, v[c], lo, scale, bits, v.len() as int, c);
    let y = packing::read_back(m as u8, v.len() as int, bits, c, lo, scale);
    assert(kv_cache::value_token(v, bits).value(bits, c) == y);
    exact::lemma_exact_where_alone(f.of(lo), f.of(scale), f.of(v[c]), m);
    lemma_spreads(
        f.of(scale),
        f.range_step(v, bits),
        reals::whole(quant::max_code(bits) as int),
        f.of(v[most]) - f.of(lo),
    );
    lemma_mark(
        f.of(lo),
        f.of(v[most]),
        quant::max_code(bits) as int,
        f.of(scale),
        m,
        f.of(v[c]),
        f.of(y),
    );
}

/// Every key of a block reads back, channel by channel, at the nearest of 16 or 256
/// marks from the least value of the channel in that block to the greatest.
pub proof fn law_block_goes_to_the_nearest_marks<T: Scalar>(
    f: Reading<T>,
    rows: Seq<Seq<T>>,
    d: nat,
    bits: u32,
    t: int,
    c: int,
    least: int,
    most: int,
)
    requires
        f.exact(),
        bits == 4 || bits == 8,
        0 <= t < rows.len(),
        0 <= c < d,
        forall|i: int| 0 <= i < rows.len() ==> f.is((#[trigger] rows[i])[c]),
        0 <= least < rows.len(),
        0 <= most < rows.len(),
        forall|i: int|
            0 <= i < rows.len() ==> f.of(rows[least][c]) <= f.of((#[trigger] rows[i])[c]) <= f.of(
                rows[most][c],
            ),
    ensures
        ({
            let b = kv_cache::key_block(rows, d, bits);
            on_nearest_mark(
                f.of(rows[least][c]),
                f.of(rows[most][c]),
                if bits == 4 {
                    15
                } else {
                    255
                },
                f.of(rows[t][c]),
                f.of(quant::decoded(b.codes[t][c], b.lo[c], b.scale[c])),
            )
        }),
{
    let v = kv_cache::column(rows, c);
    assert forall|i: int| 0 <= i < v.len() implies f.is(#[trigger] v[i]) && f.of(v[least]) <= f.of(
        v[i],
    ) <= f.of(v[most]) by {
        assert(v[i] == rows[i][c]);
    }
    lemma_reach(f, v, least, most);
    exact::lemma_group(f, v, bits, t);
    quant::lemma_max_code(bits);
    lemma_range(f, v, bits);
    let (lo, scale) = (quant::least(v), quant::group_step(v, bits));
    let m = exact::lemma_code(f, v[t], lo, scale, bits, 0, 0);
    let b = kv_cache::key_block(rows, d, bits);
    let y = quant::decoded(m as u8, lo, scale);
    assert(quant::decoded(b.codes[t][c], b.lo[c], b.scale[c]) == y);
    exact::lemma_exact_where_alone(f.of(lo), f.of(scale), f.of(v[t]), m);
    lemma_spreads(
        f.of(scale),
        f.range_step(v, bits),
        reals::whole(quant::max_code(bits) as int),
        f.of(v[most]) - f.of(lo),
    );
    lemma_mark(
        f.of(lo),
        f.of(v[most]),
        quant::max_code(bits) as int,
        f.of(scale),
        m,
        f.of(v[t]),
        f.of(y),
    );
}

/// Whether the step of a channel is the widest that one of its tokens asked for:
/// `top` steps reach as far as any value lies above an earlier one, or above itself,
/// and no further.
pub open spec fn widest_rise<T: Scalar>(
    f: Reading<T>,
    rows: Seq<Seq<T>>,
    c: int,
    top: int,
    step: real,
) -> bool {
    &&& forall|s: int, t: int|
        0 <= s <= t < rows.len() ==> f.of((#[trigger] rows[t])[c]) - f.of((#[trigger] rows[s])[c])
            <= reals::product(step, reals::whole(top))
    &&& exists|s: int, t: int|
        0 <= s <= t < rows.len() && reals::product(step, reals::whole(top)) == f.of(
            (#[trigger] rows[t])[c],
        ) - f.of((#[trigger] rows[s])[c])
}

/// What a channel of a cache of keys has after some keys: its offset is the least
/// value that it was given, and its step the widest that one of them asked for.
pub proof fn law_channel_is_as_wide_as_its_keys<T: Scalar>(
    f: Reading<T>,
    rows: Seq<Seq<T>>,
    d: nat,
    bits: u32,
    c: int,
)
    requires
        f.exact(),
        bits == 4 || bits == 8,
        exact::real_rows(f, rows, d),
        rows.len() > 0,
        0 <= c < d,
    ensures
        ({
            let keys = kv_sdpa::keys_fed(kv_cache::no_keys::<T>(d), rows, bits);
            &&& f.is(keys.lo[c]) && f.is(keys.scale[c])
            &&& f.of(keys.scale[c]) >= reals::whole(0)
            &&& forall|t: int|
                0 <= t < rows.len() ==> f.of(keys.lo[c]) <= f.of((#[trigger] rows[t])[c])
            &&& exists|t: int|
                0 <= t < rows.len() && f.of(keys.lo[c]) == f.of((#[trigger] rows[t])[c])
            &&& widest_rise(
                f,
                rows,
                c,
                if bits == 4 {
                    15
                } else {
                    255
                },
                f.of(keys.scale[c]),
            )
        }),
    decreases rows.len(),
{
    exact::lemma_channel(f, rows, d, bits, c);
    let column = kv_cache::column(rows, c);
    assert forall|t: int| 0 <= t < column.len() implies f.is(#[trigger] column[t]) by {
        assert(f.all(rows[t]));
        assert(f.is(rows[t][c]));
    }
    exact::lemma_extremes(f, column);
    lemma_attained(f, column);
    let keys = kv_sdpa::keys_fed(kv_cache::no_keys::<T>(d), rows, bits);
    let lo = f.of(keys.lo[c]);
    assert forall|t: int| 0 <= t < rows.len() implies lo <= f.of((#[trigger] rows[t])[c]) by {
        assert(column[t] == rows[t][c]);
    }
    let least = choose|t: int| 0 <= t < column.len() && f.of(quant::least(column)) == f.of(
        #[trigger] column[t],
    );
    assert(lo == f.of(rows[least][c]));
    quant::lemma_max_code(bits);
    let top = quant::max_code(bits) as int;
    let n = reals::whole(top);
    let rest = rows.drop_last();
    let k = rows.last();
    let last = rows.len() - 1;
    assert(rows[last] == k);
    assert(f.is(k[c]));
    assert forall|t: int| 0 <= t < rest.len() implies (#[trigger] rest[t]).len() == d && f.all(
        rest[t],
    ) by {
        assert(rest[t] == rows[t]);
    }
    exact::lemma_channel(f, rest, d, bits, c);
    let before = kv_sdpa::keys_fed(kv_cache::no_keys::<T>(d), rest, bits);
    assert(keys == before.pushed(k, bits));
    let lv = quant::levels_spec::<T>(bits);
    assert(f.is(lv) && f.of(lv) == n);
    let x = f.of(k[c]);
    let range = k[c].minus_spec(keys.lo[c]);
    assert(f.is(range) && f.of(range) == x - lo);
    let wider = range.over_spec(lv);
    assert(f.is(wider) && f.of(wider) * n == x - lo);
    let (w, s0, s1) = (f.of(wider), f.of(before.scale[c]), f.of(keys.scale[c]));
    assert(f.is(T::zero_spec()) && f.of(T::zero_spec()) == reals::whole(0));
    assert(s1 == if x > lo && s0 < w {
        w
    } else {
        s0
    });
    lemma_wider(s0, w, s1, n, x - lo);
    let reach = reals::product(s1, n);
    if rest.len() > 0 {
        law_channel_is_as_wide_as_its_keys(f, rest, d, bits, c);
        let (a, b) = choose|a: int, b: int|
            0 <= a <= b < rest.len() && reals::product(s0, n) == f.of((#[trigger] rest[b])[c])
                - f.of((#[trigger] rest[a])[c]);
        assert(rest[a] == rows[a] && rest[b] == rows[b]);
        if reach == reals::product(s0, n) {
            assert(reach == f.of(rows[b][c]) - f.of(rows[a][c]));
        } else {
            assert(reach == f.of(rows[last][c]) - f.of(rows[least][c]));
        }
        assert forall|s: int, t: int|
            0 <= s <= t < rows.len() implies f.of((#[trigger] rows[t])[c]) - f.of(
            (#[trigger] rows[s])[c],
        ) <= reach by {
            if t < last {
                assert(rest[s] == rows[s] && rest[t] == rows[t]);
                assert(f.of(rest[t][c]) - f.of(rest[s][c]) <= reals::product(s0, n));
            } else {
                assert(lo <= f.of(rows[s][c]));
            }
        }
    } else {
        assert(least == 0 && last == 0);
        assert(reach == f.of(rows[0][c]) - f.of(rows[0][c]));
    }
}

/// The wider of two steps.
proof fn lemma_wider(s0: real, w: real, s1: real, n: real, rise: real)
    requires
        n >= reals::whole(1),
        w * n == rise,
        rise >= reals::whole(0),
        s0 >= reals::whole(0),
        s1 == if rise > reals::whole(0) && s0 < w {
            w
        } else {
            s0
        },
    ensures
        reals::product(s1, n) == reals::product(s0, n) || reals::product(s1, n) == rise,
        reals::product(s0, n) <= reals::product(s1, n),
        rise <= reals::product(s1, n),
        s0 == reals::whole(0) ==> reals::product(s1, n) == rise,
{
    reveal(reals::product);
    if rise > reals::whole(0) && s0 < w {
        assert(s0 * n <= w * n) by (nonlinear_arith)
            requires
                s0 < w,
                n >= reals::whole(1),
        ;
    } else if rise > reals::whole(0) {
        assert(w * n <= s0 * n) by (nonlinear_arith)
            requires
                w <= s0,
                n >= reals::whole(1),
        ;
        assert(w > reals::whole(0)) by (nonlinear_arith)
            requires
                w * n == rise,
                rise > reals::whole(0),
                n >= reals::whole(1),
        ;
    } else {
        assert(s0 * n >= reals::whole(0)) by (nonlinear_arith)
            requires
                s0 >= reals::whole(0),
                n >= reals::whole(1),
        ;
        if s0 == reals::whole(0) {
            assert(s0 * n == reals::whole(0)) by (nonlinear_arith)
                requires
                    s0 == reals::whole(0),
            ;
        }
    }
}

/// The newest key reads back, channel by channel, within half the step of the
/// channel.
pub proof fn law_newest_key_goes_to_the_nearest_step<T: Scalar>(
    f: Reading<T>,
    rows: Seq<Seq<T>>,
    d: nat,
    bits: u32,
    c: int,
)
    requires
        f.exact(),
        bits == 4 || bits == 8,
        exact::real_rows(f, rows, d),
        rows.len() > 0,
        0 <= c < d,
    ensures
        ({
            let keys = kv_sdpa::keys_fed(kv_cache::no_keys::<T>(d), rows, bits);
            let y = keys.value(bits, rows.len() - 1, c);
            let error = f.of(y) - f.of(rows[rows.len() - 1][c]);
            &&& f.is(y)
            &&& -f.of(keys.scale[c]) <= error + error <= f.of(keys.scale[c])
        }),
{
    exact::lemma_channel(f, rows, d, bits, c);
    let keys = kv_sdpa::keys_fed(kv_cache::no_keys::<T>(d), rows, bits);
    let k = rows.last();
    assert(rows[rows.len() - 1] == k);
    assert(f.is(k[c]));
    let (lo, scale) = (keys.lo[c], keys.scale[c]);
    let step = kv_cache::coding_step(scale);
    assert(kv_cache::column(rows, c).last() == k[c]);
    let n = reals::whole(quant::max_code(bits) as int);
    let (x, s) = (f.of(k[c]), f.of(scale));
    exact::lemma_some_codes(bits);
    if !(reals::whole(0) < s) {
        assert(x == f.of(lo)) by (nonlinear_arith)
            requires
                s == reals::whole(0),
                f.of(lo) <= x,
                x - f.of(lo) <= s * n,
        ;
    }
    assert(x - f.of(lo) <= f.of(step) * n) by (nonlinear_arith)
        requires
            x - f.of(lo) <= s * n,
            s <= f.of(step) || x == f.of(lo),
            reals::whole(0) < f.of(step),
            reals::whole(1) <= n,
    ;
    let m = exact::lemma_code(f, k[c], lo, step, bits, d as int, c);
    let y = packing::read_back(m as u8, d as int, bits, c, lo, scale);
    assert(keys.value(bits, rows.len() - 1, c) == y);
    exact::lemma_exact_where_alone(f.of(lo), f.of(step), x, m);
    if !(reals::whole(0) < s) {
        let k = reals::whole(m);
        assert(k * f.of(step) == k) by (nonlinear_arith)
            requires
                f.of(step) == reals::whole(1),
        ;
        assert(k * s == reals::whole(0)) by (nonlinear_arith)
            requires
                s == reals::whole(0),
        ;
    }
}

/// A key keeps the code that it got when it was the newest.
pub proof fn law_keys_keep_their_codes<T: Scalar>(
    rows: Seq<Seq<T>>,
    d: nat,
    bits: u32,
    t: int,
)
    requires
        0 <= t < rows.len(),
    ensures
        kv_sdpa::keys_fed(kv_cache::no_keys::<T>(d), rows, bits).codes.len() == rows.len(),
        kv_sdpa::keys_fed(kv_cache::no_keys::<T>(d), rows, bits).codes[t] == kv_sdpa::keys_fed(
            kv_cache::no_keys::<T>(d),
            rows.take(t + 1),
            bits,
        ).codes[t],
{
    let none = kv_cache::no_keys::<T>(d);
    let (first, rest) = (rows.take(t + 1), rows.skip(t + 1));
    assert(first + rest =~= rows);
    kv_sdpa::law_feeding_keys_in_parts(none, first, rest, bits);
    kv_sdpa::law_feeding_keys_appends(none, first, bits);
    kv_sdpa::law_feeding_keys_appends(kv_sdpa::keys_fed(none, first, bits), rest, bits);
}

/// The rows of a head stand one behind the other in their tensor, head by head and
/// batch by batch.
pub proof fn law_rows_of_a_head_lie_in_order<T>(
    x: &NdArray<T>,
    bi: int,
    hi: int,
    n: int,
    t: int,
    c: int,
)
    requires
        x.wf(),
        x.is_rank4(),
        0 <= bi < x.shape@[0],
        0 <= hi < x.shape@[1],
        0 <= t < n <= x.shape@[2],
        0 <= c < x.shape@[3],
    ensures
        kv_sdpa::head_rows(x, bi, hi, n).len() == n,
        kv_sdpa::head_rows(x, bi, hi, n)[t].len() == x.shape@[3],
        kv_sdpa::head_rows(x, bi, hi, n)[t][c] == x.data@[((bi * x.shape@[1] + hi) * x.shape@[2]
            + t) * x.shape@[3] + c],
{
    tensor::lemma_row4_len(x, bi, hi, t);
}

/// The codes of some values under their own range stand for the nearest of `2^bits`
/// marks from the least value to the greatest.
pub proof fn law_codes_stand_for_the_nearest_marks<T: Scalar>(
    f: Reading<T>,
    v: Seq<T>,
    bits: u32,
    i: int,
    least: int,
    most: int,
)
    requires
        f.exact(),
        f.all(v),
        0 <= i < v.len(),
        1 <= bits <= 8,
        reaches(f, v, least, most),
    ensures
        ({
            let (lo, step) = (quant::least(v), quant::group_step(v, bits));
            let code = quant::code_of(v[i], lo, step, bits);
            &&& f.of(lo) == f.of(v[least])
            &&& on_nearest_mark(
                f.of(v[least]),
                f.of(v[most]),
                vstd::arithmetic::power2::pow2(bits as nat) - 1,
                f.of(v[i]),
                f.of(quant::decoded(code, lo, step)),
            )
        }),
{
    lemma_reach(f, v, least, most);
    exact::lemma_group(f, v, bits, i);
    exact::lemma_some_codes(bits);
    let (lo, scale) = (quant::least(v), quant::group_step(v, bits));
    let top = quant::max_code(bits) as usize;
    vstd::arithmetic::power2::lemma_pow2_pos(bits as nat);
    vstd::arithmetic::power2::lemma2_to64();
    if bits < 8 {
        vstd::arithmetic::power2::lemma_pow2_strictly_increases(bits as nat, 8);
    }
    assert(top <= 255);
    let m = exact::lemma_level(f, v[i], lo, scale, top);
    exact::lemma_exact_where_alone(f.of(lo), f.of(scale), f.of(v[i]), m);
    let code = m as u8;
    assert(reals::whole(code as int) == reals::whole(m));
    assert(quant::code_of(v[i], lo, scale, bits) == code);
    let n = T::of_count_spec(code as usize);
    assert(f.is(n) && f.of(n) == reals::whole(m));
    assert(f.is(n.times_spec(scale)));
    let y = quant::decoded(code, lo, scale);
    assert(f.of(y) == f.of(lo) + reals::whole(m) * f.of(scale));
    lemma_range(f, v, bits);
    lemma_spreads(
        f.of(scale),
        f.range_step(v, bits),
        reals::whole(top as int),
        f.of(v[most]) - f.of(lo),
    );
    lemma_mark(f.of(lo), f.of(v[most]), top as int, f.of(scale), m, f.of(v[i]), f.of(y));
}

/// The least and the greatest of some values are among them, and bound them all.
pub proof fn law_range_is_what_the_values_reach<T: Scalar>(f: Reading<T>, v: Seq<T>)
    requires
        f.exact(),
        f.all(v),
        v.len() > 0,
    ensures
        exists|i: int| 0 <= i < v.len() && f.of(quant::least(v)) == f.of(#[trigger] v[i]),
        exists|i: int| 0 <= i < v.len() && f.of(quant::greatest(v)) == f.of(#[trigger] v[i]),
        forall|i: int|
            0 <= i < v.len() ==> f.of(quant::least(v)) <= f.of(#[trigger] v[i]) <= f.of(
                quant::greatest(v),
            ),
{
    exact::lemma_extremes(f, v);
    lemma_attained(f, v);
}

} // verus!
