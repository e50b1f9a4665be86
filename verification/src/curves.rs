//! What the activation kernels compute, where arithmetic is exact.

use vstd::prelude::*;

use crate::activations;
use crate::activations::{
    Lane, WasmErf4Relaxed, WasmGelu4Relaxed, WasmSigmoid4Relaxed, WasmSilu4Relaxed,
    WasmTanh4Relaxed,
};
use crate::reals;

verus! {

/// `m` with `places` decimal places: `m` divided by ten that many times.
pub open spec fn decimal(m: int, places: nat) -> real {
    reals::whole(m) / reals::whole(vstd::arithmetic::power::pow(10, places))
}

/// The polynomial with coefficients `c`, lowest power first, at `t`.
pub open spec fn polynomial(c: Seq<real>, t: real) -> real {
    reals::sum(c.len(), |k: int| reals::product(c[k], reals::power(t, k as nat)))
}

/// A way to read lanes as real numbers: which of them stand for one, and for
/// which.
#[verifier::reject_recursive_types(L)]
pub struct LaneReading<L> {
    pub finite: spec_fn(L) -> bool,
    pub real: spec_fn(L) -> real,
}

impl<L: Lane> LaneReading<L> {
    /// Whether a lane stands for a real number.
    pub open spec fn is(self, x: L) -> bool {
        (self.finite)(x)
    }

    /// The real number that a lane stands for.
    pub open spec fn of(self, x: L) -> real {
        (self.real)(x)
    }

    /// Whether lane arithmetic is exact under this reading. A sign is put on a
    /// magnitude that has none.
    #[verifier::opaque]
    pub open spec fn exact(self) -> bool {
        &&& forall|m: int, e: int|
            e <= 0 ==> self.is(#[trigger] L::of_decimal_spec(m, e)) && self.of(
                L::of_decimal_spec(m, e),
            ) == decimal(m, (-e) as nat)
        &&& forall|a: L, b: L|
            self.is(a) && self.is(b) ==> #[trigger] a.lane_min_spec(b) == if self.of(b) < self.of(
                a,
            ) {
                b
            } else {
                a
            }
        &&& forall|a: L, b: L|
            self.is(a) && self.is(b) ==> #[trigger] a.lane_max_spec(b) == if self.of(a) < self.of(
                b,
            ) {
                b
            } else {
                a
            }
        &&& forall|a: L, b: L|
            self.is(a) && self.is(b) ==> self.is(#[trigger] a.lane_add_spec(b)) && self.of(
                a.lane_add_spec(b),
            ) == self.of(a) + self.of(b)
        &&& forall|a: L, b: L|
            self.is(a) && self.is(b) ==> self.is(#[trigger] a.lane_sub_spec(b)) && self.of(
                a.lane_sub_spec(b),
            ) == self.of(a) - self.of(b)
        &&& forall|a: L, b: L|
            self.is(a) && self.is(b) ==> self.is(#[trigger] a.lane_mul_spec(b)) && self.of(
                a.lane_mul_spec(b),
            ) == reals::product(self.of(a), self.of(b))
        &&& forall|a: L, b: L|
            self.is(a) && self.is(b) && self.of(b) != reals::whole(0) ==> self.is(
                #[trigger] a.lane_div_spec(b),
            ) && reals::product(self.of(a.lane_div_spec(b)), self.of(b)) == self.of(a)
        &&& forall|a: L|
            self.is(a) ==> self.is(#[trigger] a.lane_abs_spec()) && self.of(a.lane_abs_spec())
                == if self.of(a) < reals::whole(0) {
                -self.of(a)
            } else {
                self.of(a)
            }
        &&& forall|a: L, b: L, c: L|
            self.is(a) && self.is(b) && self.is(c) ==> self.is(#[trigger] a.madd_spec(b, c))
                && self.of(a.madd_spec(b, c)) == reals::product(self.of(a), self.of(b)) + self.of(c)
        &&& forall|a: L, b: L|
            self.is(a) && self.is(b) && (self.of(a) == reals::whole(0) || self.of(a) > reals::whole(
                0,
            ) && self.of(b) != reals::whole(0)) ==> self.is(
                #[trigger] a.or_bits_spec(b.sign_of_spec()),
            ) && self.of(a.or_bits_spec(b.sign_of_spec())) == if self.of(b) < reals::whole(0) {
                -self.of(a)
            } else {
                self.of(a)
            }
    }

    /// Constants read as the decimals that they are.
    proof fn lemma_decimal(self, m: int, e: int)
        requires
            self.exact(),
            e <= 0,
        ensures
            self.is(L::of_decimal_spec(m, e)),
            self.of(L::of_decimal_spec(m, e)) == decimal(m, (-e) as nat),
    {
        reveal(LaneReading::exact);
    }

    proof fn lemma_min_max(self, a: L, b: L)
        requires
            self.exact(),
            self.is(a),
            self.is(b),
        ensures
            a.lane_min_spec(b) == if self.of(b) < self.of(a) {
                b
            } else {
                a
            },
            a.lane_max_spec(b) == if self.of(a) < self.of(b) {
                b
            } else {
                a
            },
    {
        reveal(LaneReading::exact);
    }

    proof fn lemma_add(self, a: L, b: L)
        requires
            self.exact(),
            self.is(a),
            self.is(b),
        ensures
            self.is(a.lane_add_spec(b)),
            self.of(a.lane_add_spec(b)) == self.of(a) + self.of(b),
    {
        reveal(LaneReading::exact);
    }

    proof fn lemma_sub(self, a: L, b: L)
        requires
            self.exact(),
            self.is(a),
            self.is(b),
        ensures
            self.is(a.lane_sub_spec(b)),
            self.of(a.lane_sub_spec(b)) == self.of(a) - self.of(b),
    {
        reveal(LaneReading::exact);
    }

    proof fn lemma_mul(self, a: L, b: L)
        requires
            self.exact(),
            self.is(a),
            self.is(b),
        ensures
            self.is(a.lane_mul_spec(b)),
            self.of(a.lane_mul_spec(b)) == reals::product(self.of(a), self.of(b)),
    {
        reveal(LaneReading::exact);
    }

    proof fn lemma_div(self, a: L, b: L)
        requires
            self.exact(),
            self.is(a),
            self.is(b),
            self.of(b) != reals::whole(0),
        ensures
            self.is(a.lane_div_spec(b)),
            reals::product(self.of(a.lane_div_spec(b)), self.of(b)) == self.of(a),
    {
        reveal(LaneReading::exact);
    }

    proof fn lemma_abs(self, a: L)
        requires
            self.exact(),
            self.is(a),
        ensures
            self.is(a.lane_abs_spec()),
            self.of(a.lane_abs_spec()) == if self.of(a) < reals::whole(0) {
                -self.of(a)
            } else {
                self.of(a)
            },
    {
        reveal(LaneReading::exact);
    }

    proof fn lemma_madd(self, a: L, b: L, c: L)
        requires
            self.exact(),
            self.is(a),
            self.is(b),
            self.is(c),
        ensures
            self.is(a.madd_spec(b, c)),
            self.of(a.madd_spec(b, c)) == reals::product(self.of(a), self.of(b)) + self.of(c),
    {
        reveal(LaneReading::exact);
    }

    proof fn lemma_sign(self, a: L, b: L)
        requires
            self.exact(),
            self.is(a),
            self.is(b),
            self.of(a) == reals::whole(0) || self.of(a) > reals::whole(0) && self.of(b)
                != reals::whole(0),
        ensures
            self.is(a.or_bits_spec(b.sign_of_spec())),
            self.of(a.or_bits_spec(b.sign_of_spec())) == if self.of(b) < reals::whole(0) {
                -self.of(a)
            } else {
                self.of(a)
            },
    {
        reveal(LaneReading::exact);
    }
}

/// A polynomial of one degree more is its constant and `t` times the rest.
proof fn lemma_polynomial_shifted(c: Seq<real>, t: real)
    requires
        c.len() > 0,
    ensures
        polynomial(c, t) == c[0] + reals::product(t, polynomial(c.skip(1), t)),
{
    let g = |k: int| reals::product(c[k], reals::power(t, k as nat));
    let d = c.skip(1);
    let h = |k: int| reals::product(d[k], reals::power(t, k as nat));
    assert forall|k: int| 0 <= k < d.len() implies g(k + 1) == reals::product(
        t,
        #[trigger] h(k),
    ) by {
        let p = reals::power(t, k as nat);
        assert(reals::power(t, (k + 1) as nat) == reals::product(t, p));
        reals::lemma_regroups(c[k + 1], t, p);
        reals::lemma_commutes(c[k + 1], t);
        reals::lemma_regroups(t, c[k + 1], p);
        assert(d[k] == c[k + 1]);
    }
    lemma_shifted_sum(d.len(), g, h, t);
    assert(g(0) == c[0]) by {
        reals::lemma_commutes(c[0], reals::whole(1));
        reals::lemma_zero_and_one(c[0]);
        assert(reals::power(t, 0) == reals::whole(1));
    }
}

/// A sum whose terms but the first are multiples of those of another.
proof fn lemma_shifted_sum(
    n: nat,
    g: spec_fn(int) -> real,
    h: spec_fn(int) -> real,
    t: real,
)
    requires
        forall|k: int| 0 <= k < n ==> g(k + 1) == reals::product(t, #[trigger] h(k)),
    ensures
        reals::sum(n + 1, g) == g(0) + reals::product(t, reals::sum(n, h)),
    decreases n,
{
    if n == 0 {
        reals::lemma_zero_and_one(t);
        reveal_with_fuel(reals::sum, 2);
    } else {
        let m = (n - 1) as nat;
        lemma_shifted_sum(m, g, h, t);
        let k = n - 1;
        assert(g(k + 1) == reals::product(t, h(k)));
        reals::lemma_commutes(t, reals::sum(n, h));
        reals::lemma_commutes(t, reals::sum(m, h));
        reals::lemma_commutes(t, h(k));
        reals::lemma_distributes(reals::sum(m, h), h(k), t);
        assert(reals::sum(n + 1, g) == reals::sum(n, g) + g(n as int));
    }
}

/// Horner's rule computes the polynomial.
proof fn lemma_horner<L: Lane>(f: LaneReading<L>, x: L, c: Seq<L>, r: Seq<real>)
    requires
        f.exact(),
        f.is(x),
        c.len() > 0,
        r.len() == c.len(),
        forall|k: int| 0 <= k < c.len() ==> f.is(#[trigger] c[k]),
        forall|k: int| 0 <= k < c.len() ==> f.of(#[trigger] c[k]) == r[c.len() - 1 - k],
    ensures
        f.is(activations::horner(x, c)),
        f.of(activations::horner(x, c)) == polynomial(r, f.of(x)),
    decreases c.len(),
{
    let t = f.of(x);
    lemma_polynomial_shifted(r, t);
    let rest = r.skip(1);
    if c.len() == 1 {
        assert(f.of(c[0]) == r[0]);
        assert(polynomial(rest, t) == reals::whole(0));
        reals::lemma_zero_and_one(t);
    } else {
        let d = c.drop_last();
        assert forall|k: int| 0 <= k < d.len() implies f.is(#[trigger] d[k]) && f.of(d[k])
            == rest[d.len() - 1 - k] by {
            assert(d[k] == c[k]);
        }
        lemma_horner(f, x, d, rest);
        assert(c.last() == c[c.len() - 1]);
        f.lemma_madd(x, activations::horner(x, d), c.last());
    }
}

/// The product of two numbers that are not negative is not either, and grows with
/// each of them.
proof fn lemma_product_grows(a: real, b: real, c: real)
    requires
        reals::whole(0) <= a <= b,
        reals::whole(0) <= c,
    ensures
        reals::whole(0) <= reals::product(a, c) <= reals::product(b, c),
        a < b && reals::whole(0) < c ==> reals::product(a, c) < reals::product(b, c),
{
    reveal(reals::product);
    let zero = reals::whole(0);
    assert(zero <= a * c && a * c <= b * c) by (nonlinear_arith)
        requires
            zero == reals::whole(0),
            zero <= a <= b,
            zero <= c,
    ;
    if a < b && zero < c {
        assert(a * c < b * c) by (nonlinear_arith)
            requires
                zero == reals::whole(0),
                a < b,
                zero < c,
        ;
    }
}

/// A decimal has the sign of its digits, and no places leave it as it is.
proof fn lemma_decimals(m: int, n: int, places: nat)
    ensures
        m < n ==> decimal(m, places) < decimal(n, places),
        decimal(0, places) == reals::whole(0),
        decimal(m, 0) == reals::whole(m),
        decimal(-m, places) == -decimal(m, places),
{
    vstd::arithmetic::power::lemma_pow_positive(10, places);
    vstd::arithmetic::power::lemma_pow0(10);
    let d = reals::whole(vstd::arithmetic::power::pow(10, places));
    let (a, b) = (reals::whole(m), reals::whole(n));
    assert(d > reals::whole(0));
    if m < n {
        assert(a / d < b / d) by (nonlinear_arith)
            requires
                a < b,
                d > reals::whole(0),
        ;
    }
    assert(reals::whole(0) / d == reals::whole(0)) by (nonlinear_arith)
        requires
            d > reals::whole(0),
    ;
    assert((-a) / d == -(a / d)) by (nonlinear_arith)
        requires
            d > reals::whole(0),
    ;
    assert(reals::whole(-m) == -a);
    let one = reals::whole(vstd::arithmetic::power::pow(10, 0));
    assert(a / one == a) by (nonlinear_arith)
        requires
            one == reals::whole(1),
    ;
}

/// A square is not negative.
proof fn lemma_square(a: real)
    ensures
        reals::product(a, a) >= reals::whole(0),
{
    reveal(reals::product);
    assert(a * a >= reals::whole(0)) by (nonlinear_arith);
}

/// Powers are multiplied by adding their exponents.
proof fn lemma_powers(x: real, a: nat, b: nat)
    ensures
        reals::power(x, a + b) == reals::product(reals::power(x, a), reals::power(x, b)),
    decreases a,
{
    if a == 0 {
        reals::lemma_zero_and_one(reals::power(x, b));
    } else {
        let n = (a - 1) as nat;
        lemma_powers(x, n, b);
        assert((a + b - 1) as nat == n + b);
        reals::lemma_regroups(x, reals::power(x, n), reals::power(x, b));
    }
}

/// Powers of numbers from 1 on are from 1 on, and grow with the number.
proof fn lemma_powers_grow(x: real, y: real, n: nat)
    requires
        reals::whole(1) <= x <= y,
    ensures
        reals::whole(1) <= reals::power(x, n) <= reals::power(y, n),
        x < y && n > 0 ==> reals::power(x, n) < reals::power(y, n),
    decreases n,
{
    if n > 0 {
        let m = (n - 1) as nat;
        lemma_powers_grow(x, y, m);
        let (p, q) = (reals::power(x, m), reals::power(y, m));
        lemma_product_grows(x, y, p);
        lemma_product_grows(reals::whole(1), x, p);
        reals::lemma_zero_and_one(p);
        lemma_product_grows(p, q, y);
        reals::lemma_commutes(p, y);
        reals::lemma_commutes(q, y);
    }
}

/// A polynomial without negative coefficients grows from its constant on.
proof fn lemma_polynomial_grows(c: Seq<real>, s: real, t: real)
    requires
        c.len() > 0,
        forall|k: int| 0 <= k < c.len() ==> #[trigger] c[k] >= reals::whole(0),
        reals::whole(0) <= s <= t,
    ensures
        c[0] <= polynomial(c, s) <= polynomial(c, t),
        s == reals::whole(0) ==> polynomial(c, s) == c[0],
        s < t && c.len() > 1 && c[1] > reals::whole(0) ==> polynomial(c, s) < polynomial(c, t),
    decreases c.len(),
{
    lemma_polynomial_shifted(c, s);
    lemma_polynomial_shifted(c, t);
    let d = c.skip(1);
    let (p, q) = (polynomial(d, s), polynomial(d, t));
    if d.len() == 0 {
        assert(p == reals::whole(0) && q == reals::whole(0));
        reals::lemma_zero_and_one(s);
        reals::lemma_zero_and_one(t);
    } else {
        assert forall|k: int| 0 <= k < d.len() implies #[trigger] d[k] >= reals::whole(0) by {
            assert(d[k] == c[k + 1]);
        }
        lemma_polynomial_grows(d, s, t);
        assert(d[0] == c[1]);
        assert(c[1] >= reals::whole(0));
        lemma_product_grows(s, t, p);
        lemma_product_grows(p, q, t);
        reals::lemma_commutes(p, t);
        reals::lemma_commutes(q, t);
        reals::lemma_zero_and_one(p);
    }
}

/// The error function's polynomial: 1 and six decimal coefficients.
spec fn erf_base(t: real) -> real {
    polynomial(
        seq![
            reals::whole(1),
            decimal(705230784, 10),
            decimal(422820123, 10),
            decimal(92705272, 10),
            decimal(1520143, 10),
            decimal(2765672, 10),
            decimal(430638, 10),
        ],
        t,
    )
}

/// The polynomial is 1 at 0, and grows.
proof fn lemma_erf_base(s: real, t: real)
    requires
        reals::whole(0) <= s <= t,
    ensures
        reals::whole(1) <= erf_base(s) <= erf_base(t),
        s == reals::whole(0) ==> erf_base(s) == reals::whole(1),
        s < t ==> erf_base(s) < erf_base(t),
{
    let c = seq![
        reals::whole(1),
        decimal(705230784, 10),
        decimal(422820123, 10),
        decimal(92705272, 10),
        decimal(1520143, 10),
        decimal(2765672, 10),
        decimal(430638, 10),
    ];
    lemma_decimals(0, 705230784, 10);
    lemma_decimals(0, 422820123, 10);
    lemma_decimals(0, 92705272, 10);
    lemma_decimals(0, 1520143, 10);
    lemma_decimals(0, 2765672, 10);
    lemma_decimals(0, 430638, 10);
    lemma_polynomial_grows(c, s, t);
}

/// The magnitude that the kernel computes: with the polynomial `u` at `t`, it is
/// `1 - 1 / u^16`.
proof fn lemma_erf_magnitude<L: Lane>(f: LaneReading<L>, x: L)
    requires
        f.exact(),
        f.is(x),
        f.of(x) >= reals::whole(0),
    ensures
        ({
            let u = reals::power(erf_base(f.of(x)), 16);
            let y = activations::erf_magnitude(x);
            &&& f.is(y)
            &&& reals::whole(1) <= u
            &&& reals::product(f.of(y), u) == u - reals::whole(1)
            &&& reals::whole(0) <= f.of(y) < reals::whole(1)
            &&& f.of(x) == reals::whole(0) ==> f.of(y) == reals::whole(0)
            &&& f.of(x) > reals::whole(0) ==> f.of(y) > reals::whole(0)
        }),
{
    let t = f.of(x);
    let c = activations::erf_polynomial::<L>();
    let r = seq![
        decimal(705230784, 10),
        decimal(422820123, 10),
        decimal(92705272, 10),
        decimal(1520143, 10),
        decimal(2765672, 10),
        decimal(430638, 10),
    ];
    f.lemma_decimal(705230784, -10);
    f.lemma_decimal(422820123, -10);
    f.lemma_decimal(92705272, -10);
    f.lemma_decimal(1520143, -10);
    f.lemma_decimal(2765672, -10);
    f.lemma_decimal(430638, -10);
    f.lemma_decimal(1, 0);
    lemma_decimals(1, 1, 0);
    lemma_horner(f, x, c, r);
    let h = activations::horner(x, c);
    let one = activations::unit::<L>();
    assert(f.is(one) && f.of(one) == reals::whole(1));
    f.lemma_mul(h, x);
    let ht = h.lane_mul_spec(x);
    f.lemma_add(ht, one);
    let u = ht.lane_add_spec(one);
    let whole = seq![reals::whole(1)] + r;
    assert(whole =~= seq![
        reals::whole(1),
        decimal(705230784, 10),
        decimal(422820123, 10),
        decimal(92705272, 10),
        decimal(1520143, 10),
        decimal(2765672, 10),
        decimal(430638, 10),
    ]);
    lemma_polynomial_shifted(whole, t);
    assert(whole.skip(1) =~= r);
    reals::lemma_commutes(f.of(h), t);
    let b = erf_base(t);
    assert(f.of(u) == b);
    assert(reals::power(b, 1) == b) by {
        reveal_with_fuel(reals::power, 2);
        reals::lemma_commutes(b, reals::whole(1));
        reals::lemma_zero_and_one(b);
    }
    lemma_powers(b, 1, 1);
    lemma_powers(b, 2, 2);
    lemma_powers(b, 4, 4);
    lemma_powers(b, 8, 8);
    f.lemma_mul(u, u);
    let u2 = u.lane_mul_spec(u);
    f.lemma_mul(u2, u2);
    let u4 = u2.lane_mul_spec(u2);
    f.lemma_mul(u4, u4);
    let u8th = u4.lane_mul_spec(u4);
    f.lemma_mul(u8th, u8th);
    let u16th = u8th.lane_mul_spec(u8th);
    let p = reals::power(b, 16);
    assert(f.of(u16th) == p);
    lemma_erf_base(t, t);
    lemma_erf_base(reals::whole(0), t);
    lemma_powers_grow(reals::whole(1), b, 16);
    lemma_powers_grow(b, b, 16);
    f.lemma_div(one, u16th);
    let q = one.lane_div_spec(u16th);
    f.lemma_sub(one, q);
    let y = one.lane_sub_spec(q);
    assert(activations::erf_magnitude(x) == y);
    lemma_one_minus_inverse(f.of(q), p);
    lemma_power_of_one(16);
}

/// Every power of 1 is 1.
proof fn lemma_power_of_one(n: nat)
    ensures
        reals::power(reals::whole(1), n) == reals::whole(1),
    decreases n,
{
    if n > 0 {
        lemma_power_of_one((n - 1) as nat);
        reals::lemma_zero_and_one(reals::whole(1));
    }
}

/// `1 - 1/p` for `p` from 1 on.
proof fn lemma_one_minus_inverse(q: real, p: real)
    requires
        reals::product(q, p) == reals::whole(1),
        reals::whole(1) <= p,
    ensures
        reals::product(reals::whole(1) - q, p) == p - reals::whole(1),
        reals::whole(0) <= reals::whole(1) - q < reals::whole(1),
        p == reals::whole(1) ==> reals::whole(1) - q == reals::whole(0),
        p > reals::whole(1) ==> reals::whole(1) - q > reals::whole(0),
{
    reveal(reals::product);
    let (zero, one) = (reals::whole(0), reals::whole(1));
    assert((one - q) * p == p - q * p) by (nonlinear_arith)
        requires
            one == reals::whole(1),
    ;
    assert(zero < q && q <= one) by (nonlinear_arith)
        requires
            zero == reals::whole(0),
            one == reals::whole(1),
            q * p == one,
            one <= p,
    ;
    if p > one {
        assert(q < one) by (nonlinear_arith)
            requires
                one == reals::whole(1),
                q * p == one,
                p > one,
                q > reals::whole(0),
        ;
    }
    if p == one {
        assert(q == one) by (nonlinear_arith)
            requires
                one == reals::whole(1),
                q * p == one,
                p == one,
        ;
    }
}

/// The error function of `v` is `sign(v) * (1 - 1 / u^16)`, where
/// `u = 1 + a1 t + a2 t^2 + .. + a6 t^6` at `t = |v|`.
pub proof fn law_erf_is_its_formula<L: Lane>(f: LaneReading<L>, v: L)
    requires
        f.exact(),
        f.is(v),
    ensures
        ({
            let x = f.of(v);
            let t = if x < reals::whole(0) {
                -x
            } else {
                x
            };
            let u = reals::whole(1) + reals::product(decimal(705230784, 10), t) + reals::product(
                decimal(422820123, 10),
                reals::power(t, 2),
            ) + reals::product(decimal(92705272, 10), reals::power(t, 3)) + reals::product(
                decimal(1520143, 10),
                reals::power(t, 4),
            ) + reals::product(decimal(2765672, 10), reals::power(t, 5)) + reals::product(
                decimal(430638, 10),
                reals::power(t, 6),
            );
            let y = f.of(WasmErf4Relaxed::value(v));
            &&& f.is(WasmErf4Relaxed::value(v))
            &&& reals::power(u, 16) >= reals::whole(1)
            &&& reals::product(y, reals::power(u, 16)) == if x < reals::whole(0) {
                reals::whole(1) - reals::power(u, 16)
            } else {
                reals::power(u, 16) - reals::whole(1)
            }
        }),
{
    let x = f.of(v);
    f.lemma_abs(v);
    let a = v.lane_abs_spec();
    let t = f.of(a);
    lemma_erf_magnitude(f, a);
    let m = activations::erf_magnitude(a);
    f.lemma_sign(m, v);
    let p = reals::power(erf_base(t), 16);
    reals::lemma_negated_product(f.of(m), p);
    lemma_erf_base_in_full(t);
}

/// The error function's polynomial, term by term.
proof fn lemma_erf_base_in_full(t: real)
    ensures
        erf_base(t) == reals::whole(1) + reals::product(decimal(705230784, 10), t)
            + reals::product(decimal(422820123, 10), reals::power(t, 2)) + reals::product(
            decimal(92705272, 10),
            reals::power(t, 3),
        ) + reals::product(decimal(1520143, 10), reals::power(t, 4)) + reals::product(
            decimal(2765672, 10),
            reals::power(t, 5),
        ) + reals::product(decimal(430638, 10), reals::power(t, 6)),
{
    let c = seq![
        reals::whole(1),
        decimal(705230784, 10),
        decimal(422820123, 10),
        decimal(92705272, 10),
        decimal(1520143, 10),
        decimal(2765672, 10),
        decimal(430638, 10),
    ];
    let g = |k: int| reals::product(c[k], reals::power(t, k as nat));
    assert(reals::power(t, 0) == reals::whole(1));
    assert(reals::power(t, 1) == t) by {
        reveal_with_fuel(reals::power, 2);
        reals::lemma_commutes(t, reals::whole(1));
        reals::lemma_zero_and_one(t);
    }
    reals::lemma_zero_and_one(reals::whole(1));
    assert(reals::sum(0, g) == reals::whole(0));
    assert(reals::sum(1, g) == reals::sum(0, g) + g(0));
    assert(reals::sum(2, g) == reals::sum(1, g) + g(1));
    assert(reals::sum(3, g) == reals::sum(2, g) + g(2));
    assert(reals::sum(4, g) == reals::sum(3, g) + g(3));
    assert(reals::sum(5, g) == reals::sum(4, g) + g(4));
    assert(reals::sum(6, g) == reals::sum(5, g) + g(5));
    assert(reals::sum(7, g) == reals::sum(6, g) + g(6));
}

/// The error function is 0 at 0, has the sign of its argument, stays within 1,
/// turns around with its argument, and increases strictly.
pub proof fn law_erf_increases<L: Lane>(f: LaneReading<L>, v: L, w: L)
    requires
        f.exact(),
        f.is(v),
        f.is(w),
    ensures
        ({
            let (x, z) = (f.of(v), f.of(w));
            let (y, r) = (f.of(WasmErf4Relaxed::value(v)), f.of(WasmErf4Relaxed::value(w)));
            &&& x == reals::whole(0) ==> y == reals::whole(0)
            &&& x > reals::whole(0) ==> reals::whole(0) < y < reals::whole(1)
            &&& x < reals::whole(0) ==> -reals::whole(1) < y < reals::whole(0)
            &&& z == -x ==> r == -y
            &&& x < z ==> y < r
        }),
{
    let (a, b) = (v.lane_abs_spec(), w.lane_abs_spec());
    f.lemma_abs(v);
    f.lemma_abs(w);
    let (s, t) = (f.of(a), f.of(b));
    lemma_erf_magnitude(f, a);
    lemma_erf_magnitude(f, b);
    let (m, n) = (activations::erf_magnitude(a), activations::erf_magnitude(b));
    f.lemma_sign(m, v);
    f.lemma_sign(n, w);
    let (p, q) = (reals::power(erf_base(s), 16), reals::power(erf_base(t), 16));
    if s < t {
        lemma_erf_base(s, t);
        lemma_powers_grow(erf_base(s), erf_base(t), 16);
        lemma_closer_to_one(f.of(m), f.of(n), p, q);
    } else if t < s {
        lemma_erf_base(t, s);
        lemma_powers_grow(erf_base(t), erf_base(s), 16);
        lemma_closer_to_one(f.of(n), f.of(m), q, p);
    } else {
        reals::lemma_cancels(f.of(m), f.of(n), p);
    }
}

/// `1 - 1/p` grows with `p`.
proof fn lemma_closer_to_one(m: real, n: real, p: real, q: real)
    requires
        reals::whole(1) <= p < q,
        reals::product(m, p) == p - reals::whole(1),
        reals::product(n, q) == q - reals::whole(1),
    ensures
        m < n,
{
    reveal(reals::product);
    let one = reals::whole(1);
    assert((one - m) * p == one) by (nonlinear_arith)
        requires
            m * p == p - one,
            one == reals::whole(1),
    ;
    assert((one - n) * q == one) by (nonlinear_arith)
        requires
            n * q == q - one,
            one == reals::whole(1),
    ;
    let (x, y) = (one - m, one - n);
    assert(x > y) by (nonlinear_arith)
        requires
            x * p == one,
            y * q == one,
            one == reals::whole(1),
            one <= p,
            p < q,
    ;
}

/// A rational approximation `x p(x^2) / q(x^2)` whose denominator has no negative
/// coefficients and the constant 1.
proof fn lemma_rational<L: Lane>(
    f: LaneReading<L>,
    x: L,
    p: Seq<L>,
    q: Seq<L>,
    a: Seq<real>,
    b: Seq<real>,
)
    requires
        f.exact(),
        f.is(x),
        p.len() > 0,
        q.len() > 0,
        a.len() == p.len(),
        b.len() == q.len(),
        forall|k: int| 0 <= k < p.len() ==> f.is(#[trigger] p[k]),
        forall|k: int| 0 <= k < q.len() ==> f.is(#[trigger] q[k]),
        forall|k: int| 0 <= k < p.len() ==> f.of(#[trigger] p[k]) == a[p.len() - 1 - k],
        forall|k: int| 0 <= k < q.len() ==> f.of(#[trigger] q[k]) == b[q.len() - 1 - k],
        forall|k: int| 0 <= k < b.len() ==> #[trigger] b[k] >= reals::whole(0),
        b[0] == reals::whole(1),
    ensures
        ({
            let t = reals::product(f.of(x), f.of(x));
            let y = activations::rational(x, p, q);
            &&& f.is(y)
            &&& reals::whole(1) <= polynomial(b, t)
            &&& reals::product(f.of(y), polynomial(b, t)) == reals::product(
                f.of(x),
                polynomial(a, t),
            )
        }),
{
    f.lemma_mul(x, x);
    let x2 = x.lane_mul_spec(x);
    lemma_horner(f, x2, p, a);
    lemma_horner(f, x2, q, b);
    let t = f.of(x2);
    lemma_square(f.of(x));
    lemma_polynomial_grows(b, t, t);
    let (u, w) = (activations::horner(x2, p), activations::horner(x2, q));
    f.lemma_mul(u, x);
    f.lemma_div(u.lane_mul_spec(x), w);
    reals::lemma_commutes(f.of(u), f.of(x));
}

/// A number held between two bounds.
pub open spec fn held(low: real, high: real, x: real) -> real {
    if x < low {
        low
    } else if x > high {
        high
    } else {
        x
    }
}

/// A clamped lane reads as the number held between the bounds.
proof fn lemma_clamp<L: Lane>(f: LaneReading<L>, low: L, high: L, v: L)
    requires
        f.exact(),
        f.is(low),
        f.is(high),
        f.is(v),
        f.of(low) <= f.of(high),
    ensures
        f.is(activations::clamp(low, high, v)),
        f.of(activations::clamp(low, high, v)) == held(f.of(low), f.of(high), f.of(v)),
{
    f.lemma_min_max(low, v);
    let m = low.lane_max_spec(v);
    f.lemma_min_max(high, m);
}

/// The logistic approximation, before one half is added, of a held argument.
proof fn lemma_sigmoid_core<L: Lane>(f: LaneReading<L>, x: L)
    requires
        f.exact(),
        f.is(x),
    ensures
        ({
            let t = reals::product(f.of(x), f.of(x));
            let a = seq![
                decimal(2499999971, 10),
                decimal(8163842030, 12),
                decimal(4811817576, 14),
                decimal(4257889523, 17),
                decimal(-1875289645, 20),
                decimal(1169974371, 23),
                decimal(-4433153405, 27),
            ];
            let b = seq![
                reals::whole(1),
                decimal(1159886749, 10),
                decimal(1524872358, 12),
                decimal(3922935744, 15),
            ];
            let y = activations::rational(
                x,
                activations::sigmoid_numerator(),
                activations::sigmoid_denominator(),
            );
            &&& f.is(y)
            &&& reals::whole(1) <= polynomial(b, t)
            &&& reals::product(f.of(y), polynomial(b, t)) == reals::product(
                f.of(x),
                polynomial(a, t),
            )
        }),
{
    let a = seq![
        decimal(2499999971, 10),
        decimal(8163842030, 12),
        decimal(4811817576, 14),
        decimal(4257889523, 17),
        decimal(-1875289645, 20),
        decimal(1169974371, 23),
        decimal(-4433153405, 27),
    ];
    let b = seq![
        reals::whole(1),
        decimal(1159886749, 10),
        decimal(1524872358, 12),
        decimal(3922935744, 15),
    ];
    f.lemma_decimal(2499999971, -10);
    f.lemma_decimal(8163842030, -12);
    f.lemma_decimal(4811817576, -14);
    f.lemma_decimal(4257889523, -17);
    f.lemma_decimal(-1875289645, -20);
    f.lemma_decimal(1169974371, -23);
    f.lemma_decimal(-4433153405, -27);
    f.lemma_decimal(1, 0);
    f.lemma_decimal(1159886749, -10);
    f.lemma_decimal(1524872358, -12);
    f.lemma_decimal(3922935744, -15);
    lemma_decimals(1, 1, 0);
    lemma_decimals(0, 1159886749, 10);
    lemma_decimals(0, 1524872358, 12);
    lemma_decimals(0, 3922935744, 15);
    lemma_rational(
        f,
        x,
        activations::sigmoid_numerator(),
        activations::sigmoid_denominator(),
        a,
        b,
    );
}

/// The tangent's approximation of a held argument.
proof fn lemma_tanh_core<L: Lane>(f: LaneReading<L>, x: L)
    requires
        f.exact(),
        f.is(x),
    ensures
        ({
            let t = reals::product(f.of(x), f.of(x));
            let a = seq![
                decimal(9999999934, 10),
                decimal(1308400453, 10),
                decimal(3103950131, 12),
                decimal(1115424833, 14),
                decimal(-2022500419, 17),
                decimal(5277853000, 20),
                decimal(-8488492677, 23),
            ];
            let b = seq![
                reals::whole(1),
                decimal(4641733162, 10),
                decimal(2449515379, 11),
                decimal(2546136580, 13),
            ];
            let y = activations::rational(
                x,
                activations::tanh_numerator(),
                activations::tanh_denominator(),
            );
            &&& f.is(y)
            &&& reals::whole(1) <= polynomial(b, t)
            &&& reals::product(f.of(y), polynomial(b, t)) == reals::product(
                f.of(x),
                polynomial(a, t),
            )
        }),
{
    let a = seq![
        decimal(9999999934, 10),
        decimal(1308400453, 10),
        decimal(3103950131, 12),
        decimal(1115424833, 14),
        decimal(-2022500419, 17),
        decimal(5277853000, 20),
        decimal(-8488492677, 23),
    ];
    let b = seq![
        reals::whole(1),
        decimal(4641733162, 10),
        decimal(2449515379, 11),
        decimal(2546136580, 13),
    ];
    f.lemma_decimal(9999999934, -10);
    f.lemma_decimal(1308400453, -10);
    f.lemma_decimal(3103950131, -12);
    f.lemma_decimal(1115424833, -14);
    f.lemma_decimal(-2022500419, -17);
    f.lemma_decimal(5277853000, -20);
    f.lemma_decimal(-8488492677, -23);
    f.lemma_decimal(1, 0);
    f.lemma_decimal(4641733162, -10);
    f.lemma_decimal(2449515379, -11);
    f.lemma_decimal(2546136580, -13);
    lemma_decimals(1, 1, 0);
    lemma_decimals(0, 4641733162, 10);
    lemma_decimals(0, 2449515379, 11);
    lemma_decimals(0, 2546136580, 13);
    lemma_rational(f, x, activations::tanh_numerator(), activations::tanh_denominator(), a, b);
}

/// The logistic curve of `v` is `1/2 + x p(x^2) / q(x^2)`, where `x` is `v` held
/// between -18.6 and 18.6.
pub proof fn law_sigmoid_is_its_formula<L: Lane>(f: LaneReading<L>, v: L)
    requires
        f.exact(),
        f.is(v),
    ensures
        ({
            let x = held(decimal(-186, 1), decimal(186, 1), f.of(v));
            let t = reals::product(x, x);
            let p = polynomial(
                seq![
                    decimal(2499999971, 10),
                    decimal(8163842030, 12),
                    decimal(4811817576, 14),
                    decimal(4257889523, 17),
                    decimal(-1875289645, 20),
                    decimal(1169974371, 23),
                    decimal(-4433153405, 27),
                ],
                t,
            );
            let q = polynomial(
                seq![
                    reals::whole(1),
                    decimal(1159886749, 10),
                    decimal(1524872358, 12),
                    decimal(3922935744, 15),
                ],
                t,
            );
            let y = f.of(WasmSigmoid4Relaxed::value(v));
            &&& f.is(WasmSigmoid4Relaxed::value(v))
            &&& reals::whole(1) <= q
            &&& reals::product(y - decimal(5, 1), q) == reals::product(x, p)
        }),
{
    let (low, high) = (activations::sigmoid_low::<L>(), activations::sigmoid_high::<L>());
    f.lemma_decimal(-186, -1);
    f.lemma_decimal(186, -1);
    f.lemma_decimal(5, -1);
    lemma_decimals(-186, 186, 1);
    lemma_clamp(f, low, high, v);
    let x = activations::clamp(low, high, v);
    lemma_sigmoid_core(f, x);
    f.lemma_add(
        activations::rational(
            x,
            activations::sigmoid_numerator(),
            activations::sigmoid_denominator(),
        ),
        activations::half(),
    );
}

/// The hyperbolic tangent of `v` is `x p(x^2) / q(x^2)`, where `x` is `v` held
/// between -8.9 and 8.9.
pub proof fn law_tanh_is_its_formula<L: Lane>(f: LaneReading<L>, v: L)
    requires
        f.exact(),
        f.is(v),
    ensures
        ({
            let x = held(decimal(-89, 1), decimal(89, 1), f.of(v));
            let t = reals::product(x, x);
            let p = polynomial(
                seq![
                    decimal(9999999934, 10),
                    decimal(1308400453, 10),
                    decimal(3103950131, 12),
                    decimal(1115424833, 14),
                    decimal(-2022500419, 17),
                    decimal(5277853000, 20),
                    decimal(-8488492677, 23),
                ],
                t,
            );
            let q = polynomial(
                seq![
                    reals::whole(1),
                    decimal(4641733162, 10),
                    decimal(2449515379, 11),
                    decimal(2546136580, 13),
                ],
                t,
            );
            let y = f.of(WasmTanh4Relaxed::value(v));
            &&& f.is(WasmTanh4Relaxed::value(v))
            &&& reals::whole(1) <= q
            &&& reals::product(y, q) == reals::product(x, p)
        }),
{
    let (low, high) = (activations::tanh_low::<L>(), activations::tanh_high::<L>());
    f.lemma_decimal(-89, -1);
    f.lemma_decimal(89, -1);
    lemma_decimals(-89, 89, 1);
    lemma_clamp(f, low, high, v);
    lemma_tanh_core(f, activations::clamp(low, high, v));
}

/// The linear unit of `v` is `max(v, -18.6)` times the logistic curve of `v`.
pub proof fn law_silu_is_its_formula<L: Lane>(f: LaneReading<L>, v: L)
    requires
        f.exact(),
        f.is(v),
    ensures
        ({
            let x = f.of(v);
            let factor = if x < decimal(-186, 1) {
                decimal(-186, 1)
            } else {
                x
            };
            &&& f.is(WasmSilu4Relaxed::value(v))
            &&& f.of(WasmSilu4Relaxed::value(v)) == reals::product(
                factor,
                f.of(WasmSigmoid4Relaxed::value(v)),
            )
        }),
{
    law_sigmoid_is_its_formula(f, v);
    let low = activations::sigmoid_low::<L>();
    f.lemma_decimal(-186, -1);
    f.lemma_min_max(low, v);
    f.lemma_mul(low.lane_max_spec(v), WasmSigmoid4Relaxed::value(v));
}

/// The Gaussian unit of `v` is `v/2 (1 + tanh(u))` with `u = v (k1 + k3 v^2)`,
/// where the tangent is `x p(x^2) / q(x^2)` at `x`, which is `u` held between -8.9
/// and 8.9.
pub proof fn law_gelu_is_its_formula<L: Lane>(f: LaneReading<L>, v: L)
    requires
        f.exact(),
        f.is(v),
    ensures
        ({
            let z = f.of(v);
            let u = reals::product(
                z,
                decimal(7978845608028654, 16) + reals::product(
                    decimal(356774081363001264, 19),
                    reals::product(z, z),
                ),
            );
            let x = held(decimal(-89, 1), decimal(89, 1), u);
            let t = reals::product(x, x);
            let p = polynomial(
                seq![
                    decimal(9999999934, 10),
                    decimal(1308400453, 10),
                    decimal(3103950131, 12),
                    decimal(1115424833, 14),
                    decimal(-2022500419, 17),
                    decimal(5277853000, 20),
                    decimal(-8488492677, 23),
                ],
                t,
            );
            let q = polynomial(
                seq![
                    reals::whole(1),
                    decimal(4641733162, 10),
                    decimal(2449515379, 11),
                    decimal(2546136580, 13),
                ],
                t,
            );
            let y = f.of(WasmGelu4Relaxed::value(v));
            &&& f.is(WasmGelu4Relaxed::value(v))
            &&& reals::whole(1) <= q
            &&& reals::product(y, q) == reals::product(
                reals::product(decimal(5, 1), z),
                q + reals::product(x, p),
            )
        }),
{
    let z = f.of(v);
    let (k1, k3) = (activations::gelu_linear::<L>(), activations::gelu_cubic::<L>());
    let h = activations::half::<L>();
    f.lemma_decimal(7978845608028654, -16);
    f.lemma_decimal(356774081363001264, -19);
    f.lemma_decimal(5, -1);
    f.lemma_mul(v, v);
    let v2 = v.lane_mul_spec(v);
    f.lemma_madd(k3, v2, k1);
    let k = k3.madd_spec(v2, k1);
    f.lemma_mul(v, k);
    let u = v.lane_mul_spec(k);
    let (low, high) = (activations::tanh_low::<L>(), activations::tanh_high::<L>());
    f.lemma_decimal(-89, -1);
    f.lemma_decimal(89, -1);
    lemma_decimals(-89, 89, 1);
    lemma_clamp(f, low, high, u);
    let x = activations::clamp(low, high, u);
    lemma_tanh_core(f, x);
    let th = activations::rational(
        x,
        activations::tanh_numerator(),
        activations::tanh_denominator(),
    );
    f.lemma_mul(h, v);
    let hv = h.lane_mul_spec(v);
    f.lemma_madd(hv, th, hv);
    let t = reals::product(f.of(x), f.of(x));
    let q = polynomial(
        seq![
            reals::whole(1),
            decimal(4641733162, 10),
            decimal(2449515379, 11),
            decimal(2546136580, 13),
        ],
        t,
    );
    let (a, b) = (f.of(hv), f.of(th));
    reals::lemma_distributes(reals::product(a, b), a, q);
    reals::lemma_regroups(a, b, q);
    let n = reals::product(b, q);
    reals::lemma_commutes(a, q + n);
    reals::lemma_commutes(a, q);
    reals::lemma_commutes(a, n);
    reals::lemma_distributes(q, n, a);
}

/// Opposite arguments have tangents that are opposite, and logistic values that
/// add up to 1.
pub proof fn law_curves_are_symmetric<L: Lane>(f: LaneReading<L>, v: L, w: L)
    requires
        f.exact(),
        f.is(v),
        f.is(w),
        f.of(w) == -f.of(v),
    ensures
        f.of(WasmTanh4Relaxed::value(w)) == -f.of(WasmTanh4Relaxed::value(v)),
        f.of(WasmSigmoid4Relaxed::value(v)) + f.of(WasmSigmoid4Relaxed::value(w)) == reals::whole(1),
{
    law_tanh_is_its_formula(f, v);
    law_tanh_is_its_formula(f, w);
    law_sigmoid_is_its_formula(f, v);
    law_sigmoid_is_its_formula(f, w);
    lemma_decimals(89, 89, 1);
    lemma_decimals(-89, 89, 1);
    lemma_decimals(186, 186, 1);
    lemma_decimals(-186, 186, 1);
    let z = f.of(v);
    let x = held(decimal(-89, 1), decimal(89, 1), z);
    let t = reals::product(x, x);
    reals::lemma_negated_product(x, x);
    let p = polynomial(
        seq![
            decimal(9999999934, 10),
            decimal(1308400453, 10),
            decimal(3103950131, 12),
            decimal(1115424833, 14),
            decimal(-2022500419, 17),
            decimal(5277853000, 20),
            decimal(-8488492677, 23),
        ],
        t,
    );
    let q = polynomial(
        seq![
            reals::whole(1),
            decimal(4641733162, 10),
            decimal(2449515379, 11),
            decimal(2546136580, 13),
        ],
        t,
    );
    reals::lemma_negated_product(x, p);
    let y = f.of(WasmTanh4Relaxed::value(v));
    reals::lemma_negated_product(y, q);
    reals::lemma_cancels(f.of(WasmTanh4Relaxed::value(w)), -y, q);
    let x = held(decimal(-186, 1), decimal(186, 1), z);
    let t = reals::product(x, x);
    reals::lemma_negated_product(x, x);
    let p = polynomial(
        seq![
            decimal(2499999971, 10),
            decimal(8163842030, 12),
            decimal(4811817576, 14),
            decimal(4257889523, 17),
            decimal(-1875289645, 20),
            decimal(1169974371, 23),
            decimal(-4433153405, 27),
        ],
        t,
    );
    let q = polynomial(
        seq![
            reals::whole(1),
            decimal(1159886749, 10),
            decimal(1524872358, 12),
            decimal(3922935744, 15),
        ],
        t,
    );
    reals::lemma_negated_product(x, p);
    let half = decimal(5, 1);
    let y = f.of(WasmSigmoid4Relaxed::value(v)) - half;
    reals::lemma_negated_product(y, q);
    reals::lemma_cancels(f.of(WasmSigmoid4Relaxed::value(w)) - half, -y, q);
    lemma_one_half();
}

/// Two halves are a whole.
proof fn lemma_one_half()
    ensures
        decimal(5, 1) + decimal(5, 1) == reals::whole(1),
{
    vstd::arithmetic::power::lemma_pow1(10);
    let (five, ten) = (reals::whole(5), reals::whole(vstd::arithmetic::power::pow(10, 1)));
    assert(five / ten + five / ten == reals::whole(1)) by (nonlinear_arith)
        requires
            five == reals::whole(5),
            ten == reals::whole(10),
    ;
}

} // verus!
