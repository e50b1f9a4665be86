//! Attention over tiles is softmax attention, where arithmetic is exact.
//!
//! A query row absorbs one tile of keys and values after the other, and rescales
//! what it has as it goes. Rounding aside, what comes out is the mean of the
//! values that the row sees, each weighed by the exponential of its score. The
//! laws here state that over real numbers.

use vstd::prelude::*;

use crate::attention;
use crate::attention::RowState;
use crate::exact;
use crate::exact::Reading;
use crate::kv_cache;
use crate::kv_cache::{ChannelKeys, ValueToken};
use crate::kv_sdpa;
use crate::kv_sdpa::QuantizedKvSdpaState;
use crate::math;
use crate::quant;
use crate::reals;
use crate::rope;
use crate::scalar::Scalar;
use crate::tensor;
use crate::tensor::NdArray;

verus! {

/// The sum of some numbers.
pub open spec fn sum_of<T: Scalar>(f: Reading<T>, v: Seq<T>) -> real
    decreases v.len(),
{
    if v.len() == 0 {
        reals::whole(0)
    } else {
        sum_of(f, v.drop_last()) + f.of(v.last())
    }
}

/// The inner product of two vectors of one length.
pub open spec fn inner<T: Scalar>(f: Reading<T>, a: Seq<T>, b: Seq<T>) -> real
    decreases a.len(),
{
    if a.len() == 0 {
        reals::whole(0)
    } else {
        inner(f, a.drop_last(), b.drop_last()) + reals::product(f.of(a.last()), f.of(b.last()))
    }
}

/// Whether `e` is an exponential function: positive, and turning sums into
/// products.
#[verifier::opaque]
pub open spec fn exponential(e: spec_fn(real) -> real) -> bool {
    &&& forall|x: real| #[trigger] e(x) > reals::whole(0)
    &&& forall|x: real, y: real| #[trigger] reals::product(e(x), e(y)) == e(x + y)
}

/// Whether arithmetic is exact, exponentials are those of `e`, and minus
/// infinity is below all numbers, with an exponential of 0.
#[verifier::opaque]
pub open spec fn exponentiates<T: Scalar>(f: Reading<T>, e: spec_fn(real) -> real) -> bool {
    let below_all = T::neg_infinity_spec();
    &&& f.exact()
    &&& exponential(e)
    &&& forall|a: T|
        f.is(a) ==> f.is(#[trigger] a.exponential_spec()) && f.of(a.exponential_spec()) == e(
            f.of(a),
        )
    &&& forall|v: Seq<T>|
        f.all(v) ==> f.is(#[trigger] T::total_spec(v)) && f.of(T::total_spec(v)) == sum_of(f, v)
    &&& forall|a: Seq<T>, b: Seq<T>|
        a.len() == b.len() && f.all(a) && f.all(b) ==> f.is(#[trigger] T::dot_spec(a, b)) && f.of(
            T::dot_spec(a, b),
        ) == inner(f, a, b)
    &&& forall|a: T|
        f.is(a) && f.of(a) != reals::whole(0) ==> f.is(#[trigger] a.reciprocal_spec()) && reals::product(
            f.of(a.reciprocal_spec()),
            f.of(a),
        ) == reals::whole(1)
    &&& forall|a: T| f.is(a) ==> #[trigger] a.finite_spec()
    &&& !below_all.finite_spec()
    &&& below_all.larger_spec(below_all) == below_all
    &&& forall|a: T| f.is(a) ==> #[trigger] a.larger_spec(below_all) == a
    &&& f.is(below_all.exponential_spec())
    &&& f.of(below_all.exponential_spec()) == reals::whole(0)
    &&& forall|a: T|
        f.is(a) ==> {
            let x = (#[trigger] below_all.minus_spec(a)).exponential_spec();
            f.is(x) && f.of(x) == reals::whole(0)
        }
}

/// Whether a row that may look as far as `allowed` sees position `j`.
pub open spec fn sees(allowed: Option<int>, j: int) -> bool {
    match allowed {
        Some(last) => j <= last,
        None => true,
    }
}

/// The weight of a key: the exponential of its score, or 0 where it is not seen.
pub open spec fn weight<T: Scalar>(
    f: Reading<T>,
    e: spec_fn(real) -> real,
    q: Seq<T>,
    key: Seq<T>,
    scale: T,
    seen: bool,
) -> real {
    if seen {
        e(reals::product(inner(f, q, key), f.of(scale)))
    } else {
        reals::whole(0)
    }
}

/// The sum of the weights of some keys.
pub open spec fn weight_sum<T: Scalar>(
    f: Reading<T>,
    e: spec_fn(real) -> real,
    q: Seq<T>,
    keys: Seq<Seq<T>>,
    scale: T,
    allowed: Option<int>,
) -> real
    decreases keys.len(),
{
    if keys.len() == 0 {
        reals::whole(0)
    } else {
        weight_sum(f, e, q, keys.drop_last(), scale, allowed) + weight(
            f,
            e,
            q,
            keys.last(),
            scale,
            sees(allowed, keys.len() - 1),
        )
    }
}

/// The sum of column `c` of some values, each weighed as its key is.
pub open spec fn weighed_sum<T: Scalar>(
    f: Reading<T>,
    e: spec_fn(real) -> real,
    q: Seq<T>,
    keys: Seq<Seq<T>>,
    values: Seq<Seq<T>>,
    scale: T,
    allowed: Option<int>,
    c: int,
) -> real
    decreases keys.len(),
{
    if keys.len() == 0 {
        reals::whole(0)
    } else {
        weighed_sum(f, e, q, keys.drop_last(), values, scale, allowed, c) + reals::product(
            weight(f, e, q, keys.last(), scale, sees(allowed, keys.len() - 1)),
            f.of(values[keys.len() - 1][c]),
        )
    }
}

/// One column of the attention of one row.
#[verifier::reject_recursive_types(T)]
struct Column<T> {
    f: Reading<T>,
    e: spec_fn(real) -> real,
    q: Seq<T>,
    keys: Seq<Seq<T>>,
    values: Seq<Seq<T>>,
    scale: T,
    allowed: Option<int>,
    c: int,
}

impl<T: Scalar> Column<T> {
    /// What the law asks.
    spec fn wf(self) -> bool {
        &&& exponentiates(self.f, self.e)
        &&& self.keys.len() > 0
        &&& self.values.len() == self.keys.len()
        &&& self.f.all(self.q)
        &&& self.f.is(self.scale)
        &&& self.allowed is Some ==> self.allowed->0 >= 0
        &&& 0 <= self.c < self.q.len()
        &&& forall|j: int|
            0 <= j < self.keys.len() ==> (#[trigger] self.keys[j]).len() == self.q.len()
                && self.f.all(self.keys[j])
        &&& forall|j: int|
            0 <= j < self.keys.len() ==> self.f.is((#[trigger] self.values[j])[self.c])
    }

    /// The weight of position `j`.
    spec fn w(self, j: int) -> real {
        weight(self.f, self.e, self.q, self.keys[j], self.scale, sees(self.allowed, j))
    }

    /// The sum of the weights of the first `n` positions.
    spec fn ws(self, n: int) -> real {
        weight_sum(self.f, self.e, self.q, self.keys.take(n), self.scale, self.allowed)
    }

    /// The weighed sum of the first `n` positions.
    spec fn vs(self, n: int) -> real {
        weighed_sum(
            self.f,
            self.e,
            self.q,
            self.keys.take(n),
            self.values,
            self.scale,
            self.allowed,
            self.c,
        )
    }

    /// The exponential of a running maximum.
    spec fn top(self, m: T) -> real {
        if self.f.is(m) {
            (self.e)(self.f.of(m))
        } else {
            reals::whole(0)
        }
    }

    /// Whether `m` is a number or minus infinity.
    spec fn bound(self, m: T) -> bool {
        self.f.is(m) || m == T::neg_infinity_spec()
    }

    /// The scores of tile `i`.
    spec fn scores(self, i: int) -> Seq<T> {
        attention::scores(
            self.q,
            attention::tile(self.keys, i),
            i * 32,
            self.scale,
            self.allowed,
        )
    }

    /// Minus infinity is no number.
    proof fn lemma_no_number(self)
        requires
            self.wf(),
        ensures
            !self.f.is(T::neg_infinity_spec()),
            !T::neg_infinity_spec().finite_spec(),
    {
        reveal(exponentiates);
    }

    /// Zero is a number.
    proof fn lemma_zero(self)
        requires
            self.wf(),
        ensures
            self.f.is(T::zero_spec()),
            self.f.of(T::zero_spec()) == reals::whole(0),
    {
        reveal(exponentiates);
    }

    /// Numbers are finite.
    proof fn lemma_finite(self, a: T)
        requires
            self.wf(),
            self.f.is(a),
        ensures
            a.finite_spec(),
    {
        reveal(exponentiates);
    }

    /// Products are exact.
    proof fn lemma_times(self, a: T, b: T)
        requires
            self.wf(),
            self.f.is(a),
            self.f.is(b),
        ensures
            self.f.is(a.times_spec(b)),
            self.f.of(a.times_spec(b)) == reals::product(self.f.of(a), self.f.of(b)),
    {
        reveal(exponentiates);
        reveal(reals::product);
    }

    /// Sums are exact.
    proof fn lemma_plus(self, a: T, b: T)
        requires
            self.wf(),
            self.f.is(a),
            self.f.is(b),
        ensures
            self.f.is(a.plus_spec(b)),
            self.f.of(a.plus_spec(b)) == self.f.of(a) + self.f.of(b),
    {
        reveal(exponentiates);
    }

    /// Sums of all elements are exact.
    proof fn lemma_total(self, v: Seq<T>)
        requires
            self.wf(),
            self.f.all(v),
        ensures
            self.f.is(T::total_spec(v)),
            self.f.of(T::total_spec(v)) == sum_of(self.f, v),
    {
        reveal(exponentiates);
    }

    /// Inner products are exact.
    proof fn lemma_dot(self, a: Seq<T>, b: Seq<T>)
        requires
            self.wf(),
            a.len() == b.len(),
            self.f.all(a),
            self.f.all(b),
        ensures
            self.f.is(T::dot_spec(a, b)),
            self.f.of(T::dot_spec(a, b)) == inner(self.f, a, b),
    {
        reveal(exponentiates);
    }

    /// Reciprocals are exact.
    proof fn lemma_reciprocal(self, a: T)
        requires
            self.wf(),
            self.f.is(a),
            self.f.of(a) != reals::whole(0),
        ensures
            self.f.is(a.reciprocal_spec()),
            reals::product(self.f.of(a.reciprocal_spec()), self.f.of(a)) == reals::whole(1),
    {
        reveal(exponentiates);
    }

    /// Exponentials of differences are those of `e`, or 0.
    proof fn lemma_exponential(self, m: T, m2: T)
        requires
            self.wf(),
            self.bound(m),
            self.f.is(m2),
        ensures
            self.f.is(m.minus_spec(m2).exponential_spec()),
            self.f.is(m) ==> self.f.of(m.minus_spec(m2).exponential_spec()) == (self.e)(
                self.f.of(m) - self.f.of(m2),
            ),
            !self.f.is(m) ==> self.f.of(m.minus_spec(m2).exponential_spec()) == reals::whole(0),
    {
        reveal(exponentiates);
        if self.f.is(m) {
            assert(self.f.is(m.minus_spec(m2)));
        } else {
            let x = T::neg_infinity_spec().minus_spec(m2);
        }
    }

    /// The exponential of minus infinity is 0.
    proof fn lemma_exponential_below(self)
        requires
            self.wf(),
        ensures
            self.f.is(T::neg_infinity_spec().exponential_spec()),
            self.f.of(T::neg_infinity_spec().exponential_spec()) == reals::whole(0),
    {
        reveal(exponentiates);
    }

    /// The larger of two is a number where one of them is.
    proof fn lemma_larger(self, a: T, b: T)
        requires
            self.wf(),
            self.bound(a),
            self.bound(b),
        ensures
            self.bound(a.larger_spec(b)),
            self.f.is(a) || self.f.is(b) ==> self.f.is(a.larger_spec(b)),
    {
        reveal(exponentiates);
    }

    /// `e` is positive.
    proof fn lemma_positive(self, x: real)
        requires
            self.wf(),
        ensures
            (self.e)(x) > reals::whole(0),
    {
        assert(exponential(self.e)) by {
            reveal(exponentiates);
        }
        reveal(exponential);
    }

    /// `e` turns sums into products.
    proof fn lemma_sum(self, x: real, y: real)
        requires
            self.wf(),
        ensures
            reals::product((self.e)(x), (self.e)(y)) == (self.e)(x + y),
    {
        assert(exponential(self.e)) by {
            reveal(exponentiates);
        }
        reveal(exponential);
    }

    /// One position more.
    proof fn lemma_one_more(self, n: int)
        requires
            0 <= n < self.keys.len(),
        ensures
            self.ws(n + 1) == self.ws(n) + self.w(n),
            self.vs(n + 1) == self.vs(n) + reals::product(self.w(n), self.f.of(self.values[n][self.c])),
    {
        let all = self.keys.take(n + 1);
        assert(all.drop_last() =~= self.keys.take(n));
        assert(all.last() == self.keys[n]);
    }

    /// Weights are not negative, and the first is positive.
    proof fn lemma_weights_positive(self, n: int)
        requires
            self.wf(),
            0 <= n <= self.keys.len(),
        ensures
            n > 0 ==> self.ws(n) > reals::whole(0),
            n == 0 ==> self.ws(n) == reals::whole(0) && self.vs(n) == reals::whole(0),
        decreases n,
    {
        if n > 0 {
            self.lemma_weights_positive(n - 1);
            self.lemma_one_more(n - 1);
            self.lemma_positive(
                reals::product(inner(self.f, self.q, self.keys[n - 1]), self.f.of(self.scale)),
            );
        }
    }

    /// The greatest score is a number, or no position is seen.
    proof fn lemma_greatest(self, s: Seq<T>)
        requires
            self.wf(),
            forall|j: int| 0 <= j < s.len() ==> self.bound(#[trigger] s[j]),
        ensures
            self.bound(quant::greatest(s)),
            forall|j: int|
                0 <= j < s.len() && self.f.is(#[trigger] s[j]) ==> self.f.is(quant::greatest(s)),
        decreases s.len(),
    {
        if s.len() > 0 {
            let rest = s.drop_last();
            assert forall|j: int| 0 <= j < rest.len() implies self.bound(#[trigger] rest[j]) by {
                assert(self.bound(s[j]));
            }
            self.lemma_greatest(rest);
            assert(self.bound(s[s.len() - 1]));
            self.lemma_larger(quant::greatest(rest), s.last());
            assert forall|j: int| 0 <= j < s.len() && self.f.is(#[trigger] s[j]) implies self.f.is(
                quant::greatest(s),
            ) by {
                if j < rest.len() {
                    assert(rest[j] == s[j]);
                }
            }
        }
    }

    /// A score is a number where its position is seen, and minus infinity where
    /// it is not.
    proof fn lemma_score(self, i: int, j: int)
        requires
            self.wf(),
            0 <= i,
            0 <= j < attention::tile(self.keys, i).len(),
            i * 32 + j < self.keys.len(),
        ensures
            self.bound(self.scores(i)[j]),
            self.f.is(self.scores(i)[j]) == sees(self.allowed, i * 32 + j),
            sees(self.allowed, i * 32 + j) ==> (self.e)(self.f.of(self.scores(i)[j])) == self.w(
                i * 32 + j,
            ),
    {
        self.lemma_no_number();
        let key = self.keys[i * 32 + j];
        assert(attention::tile(self.keys, i)[j] == key);
        self.lemma_dot(self.q, key);
        self.lemma_times(T::dot_spec(self.q, key), self.scale);
    }

    /// What a running quantity is rescaled by when the maximum becomes `m2`.
    proof fn lemma_rescale(self, m: T, m2: T)
        requires
            self.wf(),
            self.bound(m),
            self.f.is(m2),
        ensures
            self.f.is(m.minus_spec(m2).exponential_spec()),
            reals::product(self.f.of(m.minus_spec(m2).exponential_spec()), self.top(m2)) == self.top(m),
    {
        self.lemma_exponential(m, m2);
        let (a, b) = (self.f.of(m), self.f.of(m2));
        if self.f.is(m) {
            self.lemma_sum(a - b, b);
            assert(a - b + b == a);
        } else {
            reals::lemma_zero_and_one(self.top(m2));
        }
    }

    /// A weight of a tile, rescaled, is the weight of its position.
    proof fn lemma_weight(self, i: int, j: int)
        requires
            self.wf(),
            0 <= i,
            0 <= j < attention::tile(self.keys, i).len(),
            i * 32 + attention::tile(self.keys, i).len() <= self.keys.len(),
        ensures
            ({
                let s = self.scores(i);
                let p = attention::weights(s)[j];
                &&& self.f.is(p)
                &&& reals::product(self.f.of(p), self.top(quant::greatest(s))) == self.w(i * 32 + j)
            }),
    {
        let s = self.scores(i);
        let t = quant::greatest(s);
        assert forall|k: int| 0 <= k < s.len() implies self.bound(#[trigger] s[k]) by {
            self.lemma_score(i, k);
        }
        self.lemma_greatest(s);
        self.lemma_score(i, j);
        self.lemma_no_number();
        assert(self.f.is(s[j]) ==> self.f.is(t));
        if self.f.is(t) {
            self.lemma_finite(t);
            self.lemma_rescale(s[j], t);
        } else {
            assert(s[j] == T::neg_infinity_spec());
            self.lemma_exponential_below();
            reals::lemma_zero_and_one(self.top(t));
        }
    }

    /// The sums over the first `k` positions of a tile, rescaled, are what these
    /// positions add.
    proof fn lemma_tile(self, i: int, k: int)
        requires
            self.wf(),
            0 <= i,
            0 <= k <= attention::tile(self.keys, i).len(),
            i * 32 + attention::tile(self.keys, i).len() <= self.keys.len(),
        ensures
            ({
                let s = self.scores(i);
                let p = attention::weights(s).take(k);
                let v = kv_cache::column(attention::tile(self.values, i), self.c).take(k);
                let top = self.top(quant::greatest(s));
                &&& self.f.all(p)
                &&& self.f.all(v)
                &&& self.ws(i * 32 + k) == self.ws(i * 32) + reals::product(sum_of(self.f, p), top)
                &&& self.vs(i * 32 + k) == self.vs(i * 32) + reals::product(inner(self.f, p, v), top)
            }),
        decreases k,
    {
        let s = self.scores(i);
        let weights = attention::weights(s);
        let column = kv_cache::column(attention::tile(self.values, i), self.c);
        let top = self.top(quant::greatest(s));
        let (p, v) = (weights.take(k), column.take(k));
        if k == 0 {
            reals::lemma_zero_and_one(top);
        } else {
            let (p0, v0) = (weights.take(k - 1), column.take(k - 1));
            self.lemma_tile(i, k - 1);
            self.lemma_weight(i, k - 1);
            let at = i * 32 + k - 1;
            self.lemma_one_more(at);
            assert(p.drop_last() =~= p0);
            assert(v.drop_last() =~= v0);
            assert(p.last() == weights[k - 1]);
            assert(v.last() == self.values[at][self.c]);
            assert forall|x: int| 0 <= x < p.len() implies self.f.is(#[trigger] p[x]) by {
                if x < k - 1 {
                    assert(self.f.is(p0[x]));
                }
            }
            assert forall|x: int| 0 <= x < v.len() implies self.f.is(#[trigger] v[x]) by {
                if x < k - 1 {
                    assert(self.f.is(v0[x]));
                }
            }
            reals::lemma_add_weight(
                sum_of(self.f, p0),
                self.f.of(weights[k - 1]),
                top,
                self.w(at),
            );
            reals::lemma_add_value(
                inner(self.f, p0, v0),
                self.f.of(weights[k - 1]),
                self.f.of(self.values[at][self.c]),
                top,
                self.w(at),
            );
        }
    }

    /// Where tile `n` starts, or all keys end.
    spec fn upto(self, n: int) -> int {
        math::min(n * 32, self.keys.len() as int)
    }

    /// What a row holds after `n` tiles.
    spec fn holds(self, n: nat) -> bool {
        let st = attention::attended(
            self.q,
            self.keys,
            self.values,
            self.scale,
            self.allowed,
            n,
        );
        let (o, l, top) = (self.f.of(st.o[self.c]), self.f.of(st.l), self.top(st.m));
        &&& st.o.len() == self.q.len()
        &&& self.f.is(st.o[self.c])
        &&& self.f.is(st.l)
        &&& self.bound(st.m)
        &&& n > 0 ==> self.f.is(st.m)
        &&& reals::product(l, top) == self.ws(self.upto(n as int))
        &&& reals::product(o, reals::product(l, top)) == self.vs(self.upto(n as int))
    }

    /// One tile more.
    proof fn lemma_absorb(self, n: nat)
        requires
            self.wf(),
            n < math::ceil_div(self.keys.len(), 32),
            self.holds(n),
        ensures
            self.holds(n + 1),
    {
        let i = n as int;
        let (keys, values) = (attention::tile(self.keys, i), attention::tile(self.values, i));
        math::lemma_ceil_div(self.keys.len(), 32);
        let rows = keys.len() as int;
        assert(i * 32 < self.keys.len());
        assert(i * 32 + rows == self.upto(i + 1) && rows > 0);
        assert(self.upto(i) == i * 32);
        let st = attention::attended(
            self.q,
            self.keys,
            self.values,
            self.scale,
            self.allowed,
            n,
        );
        let s = self.scores(i);
        let t = quant::greatest(s);
        let p = attention::weights(s);
        let column = kv_cache::column(values, self.c);
        assert(p.take(rows) =~= p);
        assert(column.take(rows) =~= column);
        self.lemma_tile(i, rows);
        assert forall|k: int| 0 <= k < s.len() implies self.bound(#[trigger] s[k]) by {
            self.lemma_score(i, k);
        }
        self.lemma_greatest(s);
        if n == 0 {
            self.lemma_score(0, 0);
            assert(self.f.is(s[0]));
        }
        let m = st.m.larger_spec(t);
        self.lemma_larger(st.m, t);
        assert(self.f.is(m));
        self.lemma_rescale(st.m, m);
        self.lemma_rescale(t, m);
        let next = attention::absorbed(st, s, values);
        assert(next == attention::attended(
            self.q,
            self.keys,
            self.values,
            self.scale,
            self.allowed,
            n + 1,
        ));
        self.lemma_weights_positive(self.upto(i + 1));
        let (keep, take) = (
            st.m.minus_spec(m).exponential_spec(),
            t.minus_spec(m).exponential_spec(),
        );
        self.lemma_sums(st, p, column, keep, take, m, t, next);
    }

    /// The running sums after one tile more.
    proof fn lemma_sums(
        self,
        st: RowState<T>,
        p: Seq<T>,
        column: Seq<T>,
        keep: T,
        take: T,
        m: T,
        t: T,
        next: RowState<T>,
    )
        requires
            self.wf(),
            p.len() == column.len(),
            self.f.all(p),
            self.f.all(column),
            self.f.is(st.o[self.c]),
            self.f.is(st.l),
            self.f.is(keep),
            self.f.is(take),
            self.f.is(m),
            reals::product(self.f.of(keep), self.top(m)) == self.top(st.m),
            reals::product(self.f.of(take), self.top(m)) == self.top(t),
            next.l == keep.times_spec(st.l).plus_spec(take.times_spec(T::total_spec(p))),
            next.m == m,
            next.o[self.c] == st.o[self.c].times_spec(
                keep.times_spec(st.l).times_spec(next.l.reciprocal_spec()),
            ).plus_spec(
                T::dot_spec(p, column).times_spec(take.times_spec(next.l.reciprocal_spec())),
            ),
            reals::product(self.f.of(st.l), self.top(st.m)) + reals::product(sum_of(self.f, p), self.top(t))
                > reals::whole(0),
        ensures
            self.f.is(next.l),
            self.f.is(next.o[self.c]),
            reals::product(self.f.of(next.l), self.top(m)) == reals::product(self.f.of(st.l), self.top(st.m))
                + reals::product(sum_of(self.f, p), self.top(t)),
            reals::product(self.f.of(next.o[self.c]), reals::product(self.f.of(next.l), self.top(m))) == reals::product(
                self.f.of(st.o[self.c]),
                reals::product(self.f.of(st.l), self.top(st.m)),
            ) + reals::product(inner(self.f, p, column), self.top(t)),
    {
        let f = self.f;
        let total = T::total_spec(p);
        let o = st.o[self.c];
        self.lemma_total(p);
        self.lemma_times(keep, st.l);
        self.lemma_times(take, total);
        self.lemma_plus(keep.times_spec(st.l), take.times_spec(total));
        reals::lemma_fold(
            f.of(keep),
            f.of(take),
            f.of(st.l),
            f.of(total),
            self.top(m),
            self.top(st.m),
            self.top(t),
        );
        reals::lemma_factor_not_zero(f.of(next.l), self.top(m));
        self.lemma_reciprocal(next.l);
        let r = next.l.reciprocal_spec();
        let (mo, ms) = (keep.times_spec(st.l).times_spec(r), take.times_spec(r));
        self.lemma_times(keep.times_spec(st.l), r);
        self.lemma_times(take, r);
        let dot = T::dot_spec(p, column);
        self.lemma_dot(p, column);
        self.lemma_times(o, mo);
        self.lemma_times(dot, ms);
        self.lemma_plus(o.times_spec(mo), dot.times_spec(ms));
        reals::lemma_blend(
            f.of(o),
            f.of(st.l),
            f.of(dot),
            f.of(keep),
            f.of(take),
            f.of(r),
            f.of(next.l),
            self.top(m),
            self.top(st.m),
            self.top(t),
        );
    }

    /// What a row holds after `n` tiles.
    proof fn lemma_attended(self, n: nat)
        requires
            self.wf(),
            n <= math::ceil_div(self.keys.len(), 32),
        ensures
            self.holds(n),
        decreases n,
    {
        if n == 0 {
            self.lemma_weights_positive(0);
            self.lemma_no_number();
            self.lemma_zero();
            reals::lemma_zero_and_one(reals::whole(0));
        } else {
            self.lemma_attended((n - 1) as nat);
            self.lemma_absorb((n - 1) as nat);
        }
    }
}

/// Attention is softmax attention: a row is the mean of the values that it sees,
/// each weighed by the exponential of its score.
pub proof fn law_attention_is_softmax<T: Scalar>(
    f: Reading<T>,
    e: spec_fn(real) -> real,
    q: Seq<T>,
    keys: Seq<Seq<T>>,
    values: Seq<Seq<T>>,
    scale: T,
    allowed: Option<int>,
    c: int,
)
    requires
        exponentiates(f, e),
        keys.len() > 0,
        values.len() == keys.len(),
        f.all(q),
        f.is(scale),
        allowed is Some ==> allowed->0 >= 0,
        0 <= c < q.len(),
        forall|j: int|
            0 <= j < keys.len() ==> (#[trigger] keys[j]).len() == q.len() && f.all(keys[j]),
        forall|j: int| 0 <= j < keys.len() ==> f.is((#[trigger] values[j])[c]),
    ensures
        weight_sum(f, e, q, keys, scale, allowed) > reals::whole(0),
        f.is(attention::attention_row(q, keys, values, scale, allowed)[c]),
        f.of(attention::attention_row(q, keys, values, scale, allowed)[c]) * weight_sum(
            f,
            e,
            q,
            keys,
            scale,
            allowed,
        ) == weighed_sum(f, e, q, keys, values, scale, allowed, c),
{
    let col = Column { f, e, q, keys, values, scale, allowed, c };
    let n = math::ceil_div(keys.len(), 32);
    math::lemma_ceil_div(keys.len(), 32);
    col.lemma_attended(n);
    assert(col.upto(n as int) == keys.len());
    assert(keys.take(keys.len() as int) =~= keys);
    col.lemma_weights_positive(keys.len() as int);
    reveal(reals::product);
}

/// Whether signs are turned around exactly.
pub open spec fn negates<T: Scalar>(f: Reading<T>) -> bool {
    forall|a: T| f.is(a) ==> f.is(#[trigger] a.negated_spec()) && f.of(a.negated_spec()) == -f.of(a)
}

/// Whether the tables of a rotation, where there is one, reach as far as `n`
/// rows of `d` reals.
pub open spec fn real_tables<T: Scalar>(
    f: Reading<T>,
    table: Option<(Seq<Seq<T>>, Seq<Seq<T>>)>,
    n: nat,
    d: nat,
) -> bool {
    match table {
        Some((cos, sin)) => {
            &&& negates(f)
            &&& cos.len() == n && sin.len() == n
            &&& exact::real_rows(f, cos, d)
            &&& exact::real_rows(f, sin, d)
        },
        None => true,
    }
}

/// What a head has cached after it was fed these keys and values.
pub open spec fn fed_head<T: Scalar>(
    keys: ChannelKeys<T>,
    values: Seq<ValueToken<T>>,
    krows: Seq<Seq<T>>,
    vrows: Seq<Seq<T>>,
    d: nat,
    bits: u32,
) -> bool {
    &&& keys == kv_sdpa::keys_fed(kv_cache::no_keys::<T>(d), krows, bits)
    &&& values == kv_sdpa::values_fed(Seq::empty(), vrows, bits)
}

/// The numbers of a row that was rotated are reals.
proof fn lemma_rotated_is_real<T: Scalar>(
    f: Reading<T>,
    row: Seq<T>,
    cos: Seq<T>,
    sin: Seq<T>,
)
    requires
        f.exact(),
        negates(f),
        f.all(row),
        f.all(cos),
        f.all(sin),
        cos.len() == row.len(),
        sin.len() == row.len(),
    ensures
        f.all(rope::rotated(row, cos, sin)),
{
    let all = rope::rotated(row, cos, sin);
    assert forall|j: int| 0 <= j < all.len() implies f.is(#[trigger] all[j]) by {
        let half = row.len() as int / 2;
        assert(f.is(row[j]) && f.is(cos[j]) && f.is(sin[j]));
        if j < half {
            assert(f.is(row[j + half]));
        } else {
            assert(f.is(row[j - half]));
        }
        let x = rope::rotate_half(row, j);
        assert(f.is(x));
        assert(f.is(row[j].times_spec(cos[j])));
        assert(f.is(x.times_spec(sin[j])));
    }
}

/// Keys that were fed reals read back as reals, rotated or not.
proof fn lemma_key_is_real<T: Scalar>(
    f: Reading<T>,
    krows: Seq<Seq<T>>,
    d: nat,
    bits: u32,
    t: int,
    table: Option<(Seq<Seq<T>>, Seq<Seq<T>>)>,
)
    requires
        f.exact(),
        bits == 4 || bits == 8,
        exact::real_rows(f, krows, d),
        real_tables(f, table, krows.len(), d),
        0 <= t < krows.len(),
        d > 0,
    ensures
        ({
            let keys = kv_sdpa::keys_fed(kv_cache::no_keys::<T>(d), krows, bits);
            let row = attention::key_row(keys, bits, t, table);
            row.len() == d && f.all(row)
        }),
{
    let keys = kv_sdpa::keys_fed(kv_cache::no_keys::<T>(d), krows, bits);
    exact::lemma_channel(f, krows, d, bits, 0);
    let plain = Seq::new(d, |c: int| keys.value(bits, t, c));
    assert(plain =~= Seq::new(keys.lo.len(), |c: int| keys.value(bits, t, c)));
    assert forall|c: int| 0 <= c < plain.len() implies f.is(#[trigger] plain[c]) by {
        exact::lemma_channel(f, krows, d, bits, c);
        exact::lemma_read_back_is_real(
            f,
            keys.codes[t][c],
            d as int,
            bits,
            c,
            keys.lo[c],
            keys.scale[c],
        );
    }
    if let Some((cos, sin)) = table {
        assert(cos[t].len() == d && f.all(cos[t]));
        assert(sin[t].len() == d && f.all(sin[t]));
        lemma_rotated_is_real(f, plain, cos[t], sin[t]);
    }
}

/// The attention of a head over all keys and values that it was fed, in their
/// order, is softmax attention over them as they read back, the keys rotated
/// where there is a rotation. Each value reads back within half its own step of
/// what was fed.
pub proof fn law_fed_attention_is_softmax<T: Scalar>(
    f: Reading<T>,
    e: spec_fn(real) -> real,
    q: Seq<T>,
    krows: Seq<Seq<T>>,
    vrows: Seq<Seq<T>>,
    d: nat,
    bits: u32,
    scale: T,
    table: Option<(Seq<Seq<T>>, Seq<Seq<T>>)>,
    allowed: Option<int>,
    c: int,
)
    requires
        exponentiates(f, e),
        bits == 4 || bits == 8,
        krows.len() > 0,
        vrows.len() == krows.len(),
        exact::real_rows(f, krows, d),
        exact::real_rows(f, vrows, d),
        q.len() == d,
        f.all(q),
        f.is(scale),
        real_tables(f, table, krows.len(), d),
        allowed is Some ==> allowed->0 >= 0,
        0 <= c < d,
    ensures
        ({
            let kept = kv_sdpa::keys_fed(kv_cache::no_keys::<T>(d), krows, bits);
            let tokens = kv_sdpa::values_fed(Seq::empty(), vrows, bits);
            let keys = attention::key_rows(kept, bits, krows.len(), table);
            let values = attention::value_rows(tokens, bits, krows.len());
            let row = attention::attention_row(q, keys, values, scale, allowed);
            &&& keys.len() == krows.len() && values.len() == krows.len()
            &&& forall|j: int|
                0 <= j < krows.len() ==> f.within_half(
                    (#[trigger] values[j])[c],
                    vrows[j][c],
                    f.range_step(vrows[j], bits),
                )
            &&& weight_sum(f, e, q, keys, scale, allowed) > reals::whole(0)
            &&& f.is(row[c])
            &&& f.of(row[c]) * weight_sum(f, e, q, keys, scale, allowed) == weighed_sum(
                f,
                e,
                q,
                keys,
                values,
                scale,
                allowed,
                c,
            )
        }),
{
    let kept = kv_sdpa::keys_fed(kv_cache::no_keys::<T>(d), krows, bits);
    let tokens = kv_sdpa::values_fed(Seq::empty(), vrows, bits);
    let keys = attention::key_rows(kept, bits, krows.len(), table);
    let values = attention::value_rows(tokens, bits, krows.len());
    lemma_is_exact(f, e);
    assert forall|j: int| 0 <= j < keys.len() implies (#[trigger] keys[j]).len() == q.len()
        && f.all(keys[j]) by {
        lemma_key_is_real(f, krows, d, bits, j, table);
    }
    assert forall|j: int| 0 <= j < krows.len() implies f.within_half(
        (#[trigger] values[j])[c],
        vrows[j][c],
        f.range_step(vrows[j], bits),
    ) by {
        assert(vrows[j].len() == d && f.all(vrows[j]));
        assert(tokens[j] == kv_cache::value_token(vrows[j], bits));
        exact::law_value_is_within_half_a_step(f, vrows[j], bits, c);
        assert(values[j][c] == tokens[j].value(bits, c));
    }
    assert forall|j: int| 0 <= j < keys.len() implies f.is((#[trigger] values[j])[c]) by {
        assert(f.within_half(values[j][c], vrows[j][c], f.range_step(vrows[j], bits)));
    }
    law_attention_is_softmax(f, e, q, keys, values, scale, allowed, c);
}

/// Where exponentials are exact, arithmetic is.
pub proof fn lemma_is_exact<T: Scalar>(f: Reading<T>, e: spec_fn(real) -> real)
    requires
        exponentiates(f, e),
    ensures
        f.exact(),
{
    reveal(exponentiates);
}

/// Before its first call, a state has been fed nothing.
pub proof fn law_fresh_state_was_fed_nothing<T: Scalar>(
    s: &QuantizedKvSdpaState<T>,
    k: &NdArray<T>,
    i: int,
)
    requires
        !s.initialized,
        0 <= i < k.shape@[0] * k.shape@[1],
    ensures
        fed_head(
            s.start_keys(k)[i],
            s.start_values(k)[i],
            Seq::empty(),
            Seq::empty(),
            k.shape@[3] as nat,
            s.bits,
        ),
{
    assert(s.start_values(k)[i] =~= kv_sdpa::values_fed(
        Seq::<ValueToken<T>>::empty(),
        Seq::<Seq<T>>::empty(),
        s.bits,
    ));
}

/// A call feeds every head the new keys and values behind those that it was fed
/// before.
pub proof fn law_calls_add_up<T: Scalar>(
    keys: Seq<ChannelKeys<T>>,
    values: Seq<Seq<ValueToken<T>>>,
    k: &NdArray<T>,
    v: &NdArray<T>,
    bits: u32,
    i: int,
    krows: Seq<Seq<T>>,
    vrows: Seq<Seq<T>>,
    d: nat,
)
    requires
        values.len() == keys.len(),
        0 <= i < keys.len(),
        i < k.shape@[0] * k.shape@[1],
        fed_head(keys[i], values[i], krows, vrows, d, bits),
    ensures
        ({
            let kh = k.shape@[1] as int;
            let n = k.shape@[2] as int;
            fed_head(
                kv_sdpa::all_keys_fed(keys, k, bits)[i],
                kv_sdpa::all_values_fed(values, k, v, bits)[i],
                krows + kv_sdpa::head_rows(k, i / kh, i % kh, n),
                vrows + kv_sdpa::head_rows(v, i / kh, i % kh, n),
                d,
                bits,
            )
        }),
{
    let kh = k.shape@[1] as int;
    let n = k.shape@[2] as int;
    let (knew, vnew) = (
        kv_sdpa::head_rows(k, i / kh, i % kh, n),
        kv_sdpa::head_rows(v, i / kh, i % kh, n),
    );
    kv_sdpa::law_feeding_keys_in_parts(kv_cache::no_keys::<T>(d), krows, knew, bits);
    assert(kv_sdpa::values_fed(values[i], vnew, bits) =~= kv_sdpa::values_fed(
        Seq::empty(),
        vrows + vnew,
        bits,
    ));
}

/// What a call answers is softmax attention over all keys and values that the
/// head was fed by this call and those before, as they read back. Each value
/// reads back within half its own step of what was fed.
pub proof fn law_answer_is_softmax<T: Scalar>(
    f: Reading<T>,
    e: spec_fn(real) -> real,
    s: &QuantizedKvSdpaState<T>,
    inputs: Seq<NdArray<T>>,
    o: &NdArray<T>,
    bi: int,
    qh: int,
    i: int,
    krows: Seq<Seq<T>>,
    vrows: Seq<Seq<T>>,
    c: int,
)
    requires
        exponentiates(f, e),
        s.answers(inputs, s.keys(), s.values(), o),
        s.bits == 4 || s.bits == 8,
        inputs[0].wf(),
        inputs[0].is_rank4(),
        0 <= bi < inputs[0].shape@[0],
        0 <= qh < inputs[0].shape@[1],
        0 <= i < inputs[0].shape@[2],
        0 <= c < inputs[0].shape@[3],
        0 < krows.len() <= usize::MAX,
        s.keys()[0].codes.len() == krows.len(),
        vrows.len() == krows.len(),
        s.is_causal ==> inputs[0].shape@[2] <= krows.len(),
        ({
            let ci = attention::cache_of(
                bi,
                qh,
                inputs[0].shape@[1] as int,
                inputs[1].shape@[1] as int,
            );
            fed_head(
                s.keys()[ci],
                s.values()[ci],
                krows,
                vrows,
                inputs[0].shape@[3] as nat,
                s.bits,
            )
        }),
        exact::real_rows(f, krows, inputs[0].shape@[3] as nat),
        exact::real_rows(f, vrows, inputs[0].shape@[3] as nat),
        f.all(inputs[0].row4(bi, qh, i)),
        f.is(kv_sdpa::score_scale(s.scale, inputs[0].shape@[3])),
        real_tables(
            f,
            kv_sdpa::rotation(inputs, krows.len() as usize),
            krows.len(),
            inputs[0].shape@[3] as nat,
        ),
    ensures
        ({
            let n = krows.len();
            let d = inputs[0].shape@[3];
            let q = inputs[0].row4(bi, qh, i);
            let scale = kv_sdpa::score_scale(s.scale, d);
            let allowed = attention::horizon(
                s.is_causal,
                n as int,
                inputs[0].shape@[2] as int,
                i,
            );
            let kept = kv_sdpa::keys_fed(kv_cache::no_keys::<T>(d as nat), krows, s.bits);
            let tokens = kv_sdpa::values_fed(Seq::empty(), vrows, s.bits);
            let table = kv_sdpa::rotation(inputs, n as usize);
            let keys = attention::key_rows(kept, s.bits, n, table);
            let values = attention::value_rows(tokens, s.bits, n);
            &&& forall|j: int|
                0 <= j < n ==> f.within_half(
                    (#[trigger] values[j])[c],
                    vrows[j][c],
                    f.range_step(vrows[j], s.bits),
                )
            &&& weight_sum(f, e, q, keys, scale, allowed) > reals::whole(0)
            &&& f.is(o.row4(bi, qh, i)[c])
            &&& f.of(o.row4(bi, qh, i)[c]) * weight_sum(f, e, q, keys, scale, allowed)
                == weighed_sum(f, e, q, keys, values, scale, allowed, c)
        }),
{
    let d = inputs[0].shape@[3];
    tensor::lemma_row4_len(&inputs[0], bi, qh, i);
    law_fed_attention_is_softmax(
        f,
        e,
        inputs[0].row4(bi, qh, i),
        krows,
        vrows,
        d as nat,
        s.bits,
        kv_sdpa::score_scale(s.scale, d),
        kv_sdpa::rotation(inputs, krows.len() as usize),
        attention::horizon(
            s.is_causal,
            krows.len() as int,
            inputs[0].shape@[2] as int,
            i,
        ),
        c,
    );
}

} // verus!
