//! How far quantization strays from its values, where arithmetic is exact.
//!
//! Rounding aside, what reads back from a code is within half a step of the
//! value that was coded. The laws here state that over real numbers: they take
//! a reading of numbers as reals under which every operation is exact, as those
//! of fractions are.

use vstd::prelude::*;

use crate::kv_cache;
use crate::kv_cache::{BlockKeys, ChannelKeys};
use crate::kv_sdpa;
use crate::packing;
use crate::quant;
use crate::reals;
use crate::scalar::Scalar;

verus! {

/// Whether `error` is half of `step` at most.
pub open spec fn half(error: real, step: real) -> bool {
    -step <= error + error <= step
}

/// A reading of numbers as reals: which elements stand for a real, and for which.
#[verifier::reject_recursive_types(T)]
pub struct Reading<T> {
    pub finite: spec_fn(T) -> bool,
    pub real: spec_fn(T) -> real,
}

impl<T: Scalar> Reading<T> {
    /// Whether an element stands for a real.
    pub open spec fn is(self, x: T) -> bool {
        (self.finite)(x)
    }

    /// The real that an element stands for.
    pub open spec fn of(self, x: T) -> real {
        (self.real)(x)
    }

    /// Whether counts are read as they are, and sums, differences, products and
    /// quotients are exact.
    pub open spec fn computes(self) -> bool {
        &&& self.is(T::zero_spec()) && self.of(T::zero_spec()) == reals::whole(0)
        &&& self.is(T::one_spec()) && self.of(T::one_spec()) == reals::whole(1)
        &&& forall|n: usize|
            self.is(#[trigger] T::of_count_spec(n)) && self.of(T::of_count_spec(n)) == reals::whole(
                n as int,
            )
        &&& forall|a: T, b: T|
            self.is(a) && self.is(b) ==> self.is(#[trigger] a.plus_spec(b)) && self.of(
                a.plus_spec(b),
            ) == self.of(a) + self.of(b)
        &&& forall|a: T, b: T|
            self.is(a) && self.is(b) ==> self.is(#[trigger] a.minus_spec(b)) && self.of(
                a.minus_spec(b),
            ) == self.of(a) - self.of(b)
        &&& forall|a: T, b: T|
            self.is(a) && self.is(b) ==> self.is(#[trigger] a.times_spec(b)) && self.of(
                a.times_spec(b),
            ) == self.of(a) * self.of(b)
        &&& forall|a: T, b: T|
            self.is(a) && self.is(b) && self.of(b) != reals::whole(0) ==> self.is(
                #[trigger] a.over_spec(b),
            ) && self.of(a.over_spec(b)) * self.of(b) == self.of(a)
        &&& forall|a: T, b: T, c: T|
            self.is(a) && self.is(b) && self.is(c) ==> self.is(#[trigger] a.fused_spec(b, c))
                && self.of(a.fused_spec(b, c)) == self.of(a) * self.of(b) + self.of(c)
    }

    /// Whether comparisons go by the reals, with every one of them between the
    /// two infinities.
    pub open spec fn compares(self) -> bool {
        &&& forall|a: T, b: T|
            self.is(a) && self.is(b) ==> #[trigger] a.below_spec(b) == (self.of(a) < self.of(b))
        &&& forall|a: T| self.is(a) ==> #[trigger] a.below_spec(T::infinity_spec())
        &&& forall|a: T, b: T|
            self.is(a) && self.is(b) ==> #[trigger] a.smaller_spec(b) == if self.of(b) < self.of(a) {
                b
            } else {
                a
            }
        &&& forall|a: T, b: T|
            self.is(a) && self.is(b) ==> #[trigger] a.larger_spec(b) == if self.of(a) < self.of(b) {
                b
            } else {
                a
            }
        &&& forall|a: T| self.is(a) ==> #[trigger] T::infinity_spec().smaller_spec(a) == a
        &&& forall|a: T| self.is(a) ==> #[trigger] T::neg_infinity_spec().larger_spec(a) == a
    }

    /// Whether a number is rounded to a whole one no further than a half away,
    /// held between bounds as it is where it lies there, and turned into the
    /// code that it is.
    pub open spec fn rounds(self) -> bool {
        &&& forall|a: T| self.is(a) ==> self.is(#[trigger] a.rounded_spec()) && self.rounds_well(a)
        &&& forall|a: T, low: T, high: T|
            self.is(a) && self.is(low) && self.is(high) && self.of(low) <= self.of(a) <= self.of(
                high,
            ) ==> #[trigger] a.clamped_spec(low, high) == a
        &&& forall|a: T, n: u8|
            self.is(a) && self.of(a) == #[trigger] reals::whole(n as int) ==> #[trigger] a.to_code_spec()
                == n
    }

    /// Whether `a` is rounded to a whole number no further than a half away.
    pub open spec fn rounds_well(self, a: T) -> bool {
        exists|n: int|
            self.of(a.rounded_spec()) == #[trigger] reals::whole(n) && half(
                reals::whole(n) - self.of(a),
                reals::whole(1),
            )
    }

    /// Whether arithmetic is exact under this reading.
    pub open spec fn exact(self) -> bool {
        self.computes() && self.compares() && self.rounds()
    }

    /// Whether `y` is within half of `step` of `x`.
    pub open spec fn within_half(self, y: T, x: T, step: real) -> bool {
        self.is(y) && half(self.of(y) - self.of(x), step)
    }

    /// Whether all elements stand for reals.
    pub open spec fn all(self, v: Seq<T>) -> bool {
        forall|i: int| 0 <= i < v.len() ==> self.is(#[trigger] v[i])
    }

    /// The step that spreads the range of some values over the codes.
    pub open spec fn range_step(self, v: Seq<T>, bits: u32) -> real {
        (self.of(quant::greatest(v)) - self.of(quant::least(v))) / reals::whole(
            quant::max_code(bits) as int,
        )
    }
}

/// A level between 0 and the greatest stands for its value within half a step.
pub proof fn lemma_level<T: Scalar>(f: Reading<T>, x: T, lo: T, scale: T, top: usize) -> (m: int)
    requires
        f.exact(),
        f.is(x),
        f.is(lo),
        f.is(scale),
        reals::whole(0) < f.of(scale),
        f.of(lo) <= f.of(x),
        f.of(x) - f.of(lo) <= f.of(scale) * reals::whole(top as int),
    ensures
        0 <= m <= top,
        f.is(quant::level(x, lo, scale, T::of_count_spec(top))),
        f.of(quant::level(x, lo, scale, T::of_count_spec(top))) == reals::whole(m),
        half(f.of(lo) + reals::whole(m) * f.of(scale) - f.of(x), f.of(scale)),
{
    let q = x.minus_spec(lo).over_spec(scale);
    let (t, s) = (f.of(q), f.of(scale));
    let gap = f.of(x) - f.of(lo);
    assert(f.is(q) && t * s == gap);
    assert(f.rounds_well(q));
    let m = choose|n: int|
        f.of(q.rounded_spec()) == #[trigger] reals::whole(n) && half(reals::whole(n) - t, reals::whole(1));
    let (n, k) = (reals::whole(top as int), reals::whole(m));
    assert(reals::whole(0) <= t <= n) by (nonlinear_arith)
        requires
            t * s == gap,
            reals::whole(0) < s,
            reals::whole(0) <= gap,
            gap <= s * n,
    ;
    assert(0 <= m <= top);
    assert(q.rounded_spec().clamped_spec(T::zero_spec(), T::of_count_spec(top))
        == q.rounded_spec());
    let e = k - t;
    assert(k * s - gap == e * s) by (nonlinear_arith)
        requires
            t * s == gap,
            e == k - t,
    ;
    assert(-s <= e * s + e * s <= s) by (nonlinear_arith)
        requires
            reals::whole(0) < s,
            -reals::whole(1) <= e + e <= reals::whole(1),
    ;
    m
}

/// The least and the greatest of some values bound them all.
pub proof fn lemma_extremes<T: Scalar>(f: Reading<T>, v: Seq<T>)
    requires
        f.exact(),
        f.all(v),
        v.len() > 0,
    ensures
        f.is(quant::least(v)),
        f.is(quant::greatest(v)),
        forall|i: int|
            0 <= i < v.len() ==> f.of(quant::least(v)) <= f.of(#[trigger] v[i]) <= f.of(
                quant::greatest(v),
            ),
    decreases v.len(),
{
    let rest = v.drop_last();
    assert(f.is(v[v.len() - 1]));
    if rest.len() > 0 {
        assert forall|i: int| 0 <= i < rest.len() implies f.is(#[trigger] rest[i]) by {
            assert(f.is(v[i]));
        }
        lemma_extremes(f, rest);
        assert forall|i: int| 0 <= i < v.len() implies f.of(quant::least(v)) <= f.of(
            #[trigger] v[i],
        ) <= f.of(quant::greatest(v)) by {
            if i < rest.len() {
                assert(rest[i] == v[i]);
            }
        }
    }
}

/// Codes of one bit or more can tell two values apart.
pub proof fn lemma_some_codes(bits: u32)
    requires
        1 <= bits < 32,
    ensures
        1 <= quant::max_code(bits) <= usize::MAX,
{
    quant::lemma_max_code(bits);
    vstd::arithmetic::power2::lemma2_to64();
    if bits > 1 {
        vstd::arithmetic::power2::lemma_pow2_strictly_increases(1, bits as nat);
    }
}

/// The step of a group of values, and how its values fit into the codes.
pub proof fn lemma_group<T: Scalar>(f: Reading<T>, v: Seq<T>, bits: u32, i: int)
    requires
        f.exact(),
        f.all(v),
        0 <= i < v.len(),
        1 <= bits < 32,
    ensures
        ({
            let (lo, s) = (f.of(quant::least(v)), f.of(quant::group_step(v, bits)));
            &&& f.is(v[i])
            &&& f.is(quant::least(v))
            &&& f.is(quant::group_step(v, bits))
            &&& reals::whole(0) < s
            &&& lo <= f.of(v[i])
            &&& f.of(v[i]) - lo <= s * reals::whole(quant::max_code(bits) as int)
            &&& s == f.range_step(v, bits) || (s == reals::whole(1) && f.of(v[i]) == lo && f.range_step(
                v,
                bits,
            ) == reals::whole(0))
        }),
{
    lemma_extremes(f, v);
    lemma_some_codes(bits);
    assert(f.is(v[i]));
    let (lo, hi) = (f.of(quant::least(v)), f.of(quant::greatest(v)));
    let top = quant::max_code(bits);
    let n = reals::whole(top as int);
    let lv = quant::levels_spec::<T>(bits);
    assert(f.is(lv) && f.of(lv) == n);
    let s = f.of(quant::group_step(v, bits));
    let r = f.range_step(v, bits);
    assert(lo <= f.of(v[i]) <= hi);
    assert(r * n == hi - lo) by (nonlinear_arith)
        requires
            r == (hi - lo) / n,
            reals::whole(1) <= n,
    ;
    if lo < hi {
        assert(s * n == hi - lo);
        assert(s == r && reals::whole(0) < s) by (nonlinear_arith)
            requires
                s * n == hi - lo,
                r * n == hi - lo,
                lo < hi,
                reals::whole(1) <= n,
        ;
    } else {
        assert(r == reals::whole(0)) by (nonlinear_arith)
            requires
                r * n == reals::whole(0),
                reals::whole(1) <= n,
        ;
        assert(s * n >= reals::whole(0)) by (nonlinear_arith)
            requires
                s == reals::whole(1),
                reals::whole(1) <= n,
        ;
    }
}

/// A matrix reads back, element by element, within half the step of its group:
/// half of what spreads the range of its row, or of its column, over the codes.
pub proof fn law_round_trip_is_within_half_a_step<T: Scalar>(
    f: Reading<T>,
    group: Seq<T>,
    bits: u32,
    i: int,
)
    requires
        f.exact(),
        f.all(group),
        0 <= i < group.len(),
        1 <= bits <= 16,
    ensures
        f.within_half(
            quant::round_trip(group[i], group, bits),
            group[i],
            f.range_step(group, bits),
        ),
{
    lemma_group(f, group, bits, i);
    lemma_some_codes(bits);
    let (lo, scale) = (quant::least(group), quant::group_step(group, bits));
    let top = quant::max_code(bits) as usize;
    let m = lemma_level(f, group[i], lo, scale, top);
    lemma_exact_where_alone(f.of(lo), f.of(scale), f.of(group[i]), m);
}

/// With a step of one, what lies at the offset is coded as 0.
pub proof fn lemma_exact_where_alone(lo: real, s: real, x: real, m: int)
    requires
        half(lo + reals::whole(m) * s - x, s),
    ensures
        s == reals::whole(1) && x == lo ==> lo + reals::whole(m) * s - x == reals::whole(0),
{
    if s == reals::whole(1) && x == lo {
        let k = reals::whole(m);
        assert(k * s == k) by (nonlinear_arith)
            requires
                s == reals::whole(1),
        ;
        assert(m == 0);
    }
}

/// What the code of a value reads back as, with one rounding or with two.
pub proof fn lemma_code<T: Scalar>(
    f: Reading<T>,
    x: T,
    lo: T,
    scale: T,
    bits: u32,
    d: int,
    c: int,
) -> (m: int)
    requires
        f.exact(),
        bits == 4 || bits == 8,
        f.is(x),
        f.is(lo),
        f.is(scale),
        reals::whole(0) < f.of(scale),
        f.of(lo) <= f.of(x),
        f.of(x) - f.of(lo) <= f.of(scale) * reals::whole(quant::max_code(bits) as int),
    ensures
        0 <= m <= quant::max_code(bits),
        packing::stored(quant::code_of(x, lo, scale, bits), bits) == m,
        half(f.of(lo) + reals::whole(m) * f.of(scale) - f.of(x), f.of(scale)),
        forall|step: T|
            f.is(step) ==> {
                let y = #[trigger] packing::read_back(m as u8, d, bits, c, lo, step);
                f.is(y) && f.of(y) == f.of(lo) + reals::whole(m) * f.of(step)
            },
        forall|step: T|
            f.is(step) ==> {
                let y = #[trigger] quant::decoded(m as u8, lo, step);
                f.is(y) && f.of(y) == f.of(lo) + reals::whole(m) * f.of(step)
            },
{
    lemma_some_codes(bits);
    quant::lemma_max_code(bits);
    let m = lemma_level(f, x, lo, scale, quant::max_code(bits) as usize);
    let code = m as u8;
    assert(reals::whole(code as int) == reals::whole(m));
    assert(quant::code_of(x, lo, scale, bits) == code);
    assert(code <= 15 ==> code & 0x0F == code) by (bit_vector);
    m
}

/// A value reads back, element by element, within half the step that spreads
/// its own range over the codes.
pub proof fn law_value_is_within_half_a_step<T: Scalar>(
    f: Reading<T>,
    v: Seq<T>,
    bits: u32,
    c: int,
)
    requires
        f.exact(),
        f.all(v),
        bits == 4 || bits == 8,
        0 <= c < v.len(),
    ensures
        f.within_half(
            kv_cache::value_token(v, bits).value(bits, c),
            v[c],
            f.range_step(v, bits),
        ),
{
    lemma_group(f, v, bits, c);
    let (lo, scale) = (quant::least(v), quant::group_step(v, bits));
    let m = lemma_code(f, v[c], lo, scale, bits, v.len() as int, c);
    let y = packing::read_back(m as u8, v.len() as int, bits, c, lo, scale);
    assert(kv_cache::value_token(v, bits).value(bits, c) == y);
    lemma_exact_where_alone(f.of(lo), f.of(scale), f.of(v[c]), m);
}

/// Every key of the block that a push fills reads back within half the step
/// that spreads the range of its channel in that block over the codes.
pub proof fn law_filled_block_is_within_half_a_step<T: Scalar>(
    f: Reading<T>,
    keys: BlockKeys<T>,
    k: Seq<T>,
    bits: u32,
    t: int,
    c: int,
)
    requires
        f.exact(),
        bits == 4 || bits == 8,
        keys.pending.len() == 31,
        0 <= t < 32,
        0 <= c < k.len(),
        f.all(kv_cache::column(keys.pending.push(k), c)),
    ensures
        f.within_half(
            keys.pushed(k, bits).value(keys.blocks.len() * 32 + t, c),
            kv_cache::column(keys.pending.push(k), c)[t],
            f.range_step(kv_cache::column(keys.pending.push(k), c), bits),
        ),
{
    let rows = keys.pending.push(k);
    law_block_is_within_half_a_step(f, rows, k.len(), bits, t, c);
    let all = keys.pushed(k, bits);
    let at = keys.blocks.len() * 32 + t;
    assert(at / 32 == keys.blocks.len() && at % 32 == t);
    assert(all.blocks[at / 32] == kv_cache::key_block(rows, k.len(), bits));
}

/// Every key of a block reads back within half the step that spreads the range
/// of its channel in that block over the codes.
pub proof fn law_block_is_within_half_a_step<T: Scalar>(
    f: Reading<T>,
    rows: Seq<Seq<T>>,
    d: nat,
    bits: u32,
    t: int,
    c: int,
)
    requires
        f.exact(),
        bits == 4 || bits == 8,
        0 <= t < rows.len(),
        0 <= c < d,
        f.all(kv_cache::column(rows, c)),
    ensures
        ({
            let b = kv_cache::key_block(rows, d, bits);
            f.within_half(
                quant::decoded(b.codes[t][c], b.lo[c], b.scale[c]),
                rows[t][c],
                f.range_step(kv_cache::column(rows, c), bits),
            )
        }),
{
    let v = kv_cache::column(rows, c);
    lemma_group(f, v, bits, t);
    let (lo, scale) = (quant::least(v), quant::group_step(v, bits));
    let m = lemma_code(f, v[t], lo, scale, bits, 0, 0);
    let b = kv_cache::key_block(rows, d, bits);
    let y = quant::decoded(m as u8, lo, scale);
    assert(quant::decoded(b.codes[t][c], b.lo[c], b.scale[c]) == y);
    lemma_exact_where_alone(f.of(lo), f.of(scale), f.of(v[t]), m);
}

/// Whether some rows have `d` columns, all of whose elements stand for reals.
pub open spec fn real_rows<T: Scalar>(f: Reading<T>, rows: Seq<Seq<T>>, d: nat) -> bool {
    forall|t: int| 0 <= t < rows.len() ==> (#[trigger] rows[t]).len() == d && f.all(rows[t])
}

/// Whatever a code is, it reads back as a real.
pub proof fn lemma_read_back_is_real<T: Scalar>(
    f: Reading<T>,
    code: u8,
    d: int,
    bits: u32,
    c: int,
    lo: T,
    scale: T,
)
    requires
        f.exact(),
        f.is(lo),
        f.is(scale),
    ensures
        f.is(packing::read_back(code, d, bits, c, lo, scale)),
{
    let n = T::of_count_spec(code as usize);
    assert(f.is(n));
    assert(f.is(n.times_spec(scale)));
    assert(f.is(lo.plus_spec(n.times_spec(scale))));
    assert(f.is(n.fused_spec(scale, lo)));
}

/// A code with offset 0 and step 1 reads back as the number that it is, with
/// fused arithmetic or without.
pub proof fn law_plain_code_reads_back_as_it_is<T: Scalar>(
    f: Reading<T>,
    code: u8,
    d: int,
    bits: u32,
    c: int,
)
    requires
        f.exact(),
    ensures
        ({
            let y = packing::read_back(code, d, bits, c, T::zero_spec(), T::one_spec());
            f.is(y) && f.of(y) == reals::whole(code as int)
        }),
{
    let (zero, one) = (T::zero_spec(), T::one_spec());
    let n = T::of_count_spec(code as usize);
    assert(f.is(zero) && f.is(one) && f.is(n));
    lemma_read_back_is_real(f, code, d, bits, c, zero, one);
    let w = reals::whole(code as int);
    assert(f.of(n.times_spec(one)) == w * reals::whole(1));
    assert(f.of(n.fused_spec(one, zero)) == w * reals::whole(1) + reals::whole(0));
    assert(f.of(zero.plus_spec(n.times_spec(one))) == reals::whole(0) + w * reals::whole(1));
    assert(w * reals::whole(1) == w) by (nonlinear_arith);
}

/// What a channel holds after some keys: their least as its offset, and a step
/// no wider than their range asks for.
pub proof fn lemma_channel<T: Scalar>(
    f: Reading<T>,
    rows: Seq<Seq<T>>,
    d: nat,
    bits: u32,
    c: int,
)
    requires
        f.exact(),
        bits == 4 || bits == 8,
        real_rows(f, rows, d),
        0 <= c < d,
    ensures
        ({
            let keys = kv_sdpa::keys_fed(kv_cache::no_keys::<T>(d), rows, bits);
            let column = kv_cache::column(rows, c);
            &&& keys.codes.len() == rows.len()
            &&& keys.lo.len() == d
            &&& keys.scale.len() == d
            &&& f.is(keys.scale[c])
            &&& reals::whole(0) <= f.of(keys.scale[c])
            &&& rows.len() == 0 ==> keys.lo[c] == T::infinity_spec() && f.of(keys.scale[c])
                == reals::whole(0)
            &&& rows.len() > 0 ==> {
                &&& f.is(keys.lo[c])
                &&& f.of(keys.lo[c]) == f.of(quant::least(column))
                &&& f.of(keys.scale[c]) <= f.range_step(column, bits)
                &&& f.of(keys.lo[c]) <= f.of(column.last())
                &&& f.of(column.last()) - f.of(keys.lo[c]) <= f.of(keys.scale[c]) * reals::whole(
                    quant::max_code(bits) as int,
                )
            }
        }),
    decreases rows.len(),
{
    lemma_some_codes(bits);
    if rows.len() > 0 {
        let rest = rows.drop_last();
        let k = rows.last();
        assert(rows[rows.len() - 1] == k);
        assert forall|t: int| 0 <= t < rest.len() implies (#[trigger] rest[t]).len() == d && f.all(
            rest[t],
        ) by {
            assert(rest[t] == rows[t]);
        }
        lemma_channel(f, rest, d, bits, c);
        let before = kv_sdpa::keys_fed(kv_cache::no_keys::<T>(d), rest, bits);
        let keys = before.pushed(k, bits);
        let column = kv_cache::column(rows, c);
        let early = kv_cache::column(rest, c);
        assert(column.drop_last() =~= early);
        assert(column.last() == k[c]);
        assert(f.is(k[c]));
        assert forall|t: int| 0 <= t < column.len() implies f.is(#[trigger] column[t]) by {
            assert(f.all(rows[t]));
            assert(f.is(rows[t][c]));
        }
        lemma_extremes(f, column);
        let n = reals::whole(quant::max_code(bits) as int);
        let lv = quant::levels_spec::<T>(bits);
        assert(f.is(lv) && f.of(lv) == n);
        let x = f.of(k[c]);
        let (lo, hi) = (f.of(quant::least(column)), f.of(quant::greatest(column)));
        if rest.len() > 0 {
            assert forall|t: int| 0 <= t < early.len() implies f.is(#[trigger] early[t]) by {
                assert(f.is(column[t]));
            }
            lemma_extremes(f, early);
        }
        assert(f.is(keys.lo[c]) && f.of(keys.lo[c]) == lo);
        assert(lo <= x <= hi) by {
            assert(column[column.len() - 1] == k[c]);
        }
        let range = k[c].minus_spec(keys.lo[c]);
        assert(f.is(range) && f.of(range) == x - lo);
        let wider = range.over_spec(lv);
        assert(f.is(wider) && f.of(wider) * n == x - lo);
        let (w, s0, s) = (f.of(wider), f.of(before.scale[c]), f.of(keys.scale[c]));
        let r = f.range_step(column, bits);
        assert(r * n == hi - lo) by (nonlinear_arith)
            requires
                r == (hi - lo) / n,
                reals::whole(1) <= n,
        ;
        assert(reals::whole(0) <= w <= r) by (nonlinear_arith)
            requires
                w * n == x - lo,
                r * n == hi - lo,
                lo <= x <= hi,
                reals::whole(1) <= n,
        ;
        if rest.len() > 0 {
            let (lo0, hi0, r0) = (
                f.of(quant::least(early)),
                f.of(quant::greatest(early)),
                f.range_step(early, bits),
            );
            assert(r0 <= r) by (nonlinear_arith)
                requires
                    r0 == (hi0 - lo0) / n,
                    r * n == hi - lo,
                    lo <= lo0,
                    hi0 <= hi,
                    reals::whole(1) <= n,
            ;
        }
        assert(s0 <= r);
        assert(x == lo ==> w == reals::whole(0)) by (nonlinear_arith)
            requires
                w * n == x - lo,
                reals::whole(1) <= n,
        ;
        assert(w <= s);
        assert(x - lo <= s * n) by (nonlinear_arith)
            requires
                w * n == x - lo,
                w <= s,
                reals::whole(1) <= n,
        ;
    }
}

/// The newest key reads back, channel by channel, within half the step that
/// spreads the range of the channel's keys so far over the codes.
pub proof fn law_newest_key_is_within_half_a_step<T: Scalar>(
    f: Reading<T>,
    rows: Seq<Seq<T>>,
    d: nat,
    bits: u32,
    c: int,
)
    requires
        f.exact(),
        bits == 4 || bits == 8,
        real_rows(f, rows, d),
        rows.len() > 0,
        0 <= c < d,
    ensures
        ({
            let keys = kv_sdpa::keys_fed(kv_cache::no_keys::<T>(d), rows, bits);
            &&& keys.codes.len() == rows.len()
            &&& f.within_half(
                keys.value(bits, rows.len() - 1, c),
                rows.last()[c],
                f.range_step(kv_cache::column(rows, c), bits),
            )
        }),
{
    lemma_channel(f, rows, d, bits, c);
    let keys: ChannelKeys<T> = kv_sdpa::keys_fed(kv_cache::no_keys::<T>(d), rows, bits);
    let k = rows.last();
    assert(rows[rows.len() - 1] == k);
    assert(f.is(k[c]));
    let (lo, scale) = (keys.lo[c], keys.scale[c]);
    let step = kv_cache::coding_step(scale);
    let column = kv_cache::column(rows, c);
    assert(column.last() == k[c]);
    let n = reals::whole(quant::max_code(bits) as int);
    let (x, s) = (f.of(k[c]), f.of(scale));
    lemma_some_codes(bits);
    if !(reals::whole(0) < s) {
        assert(x == f.of(lo)) by (nonlinear_arith)
            requires
                s == reals::whole(0),
                f.of(lo) <= x,
                x - f.of(lo) <= s * n,
        ;
    }
    assert(x - f.of(lo) <= f.of(step) * n) by (nonlinear_arith)
        requires
            x - f.of(lo) <= s * n,
            s <= f.of(step) || x == f.of(lo),
            reals::whole(0) < f.of(step),
            reals::whole(1) <= n,
    ;
    let m = lemma_code(f, k[c], lo, step, bits, d as int, c);
    let y = packing::read_back(m as u8, d as int, bits, c, lo, scale);
    assert(keys.value(bits, rows.len() - 1, c) == y);
    lemma_exact_where_alone(f.of(lo), f.of(step), x, m);
    if !(reals::whole(0) < s) {
        let k = reals::whole(m);
        assert(k * f.of(step) == k) by (nonlinear_arith)
            requires
                f.of(step) == reals::whole(1),
        ;
        assert(k * s == reals::whole(0)) by (nonlinear_arith)
            requires
                s == reals::whole(0),
        ;
    }
}

/// The product of two numbers reads as the product of what they read as.
pub proof fn lemma_product<T: Scalar>(f: Reading<T>, a: T, b: T)
    requires
        f.exact(),
        f.is(a),
        f.is(b),
    ensures
        f.is(a.times_spec(b)),
        f.of(a.times_spec(b)) == reals::product(f.of(a), f.of(b)),
{
    reveal(reals::product);
    assert(f.is(a.times_spec(b)));
}

} // verus!
