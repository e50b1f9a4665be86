//! Activation kernels over blocks of four lanes.
//!
//! Every kernel is a fixed chain of lane operations with fused multiply-adds:
//! a clamp, a pair of polynomials run by Horner's rule, one division. The
//! chain is the same on each lane, so a kernel maps one function over its
//! buffer; that function stands beside the kernel as its `value`.

use vstd::prelude::*;

verus! {

/// One lane of a vector register. Each operation stands beside the spec
/// function that names its result.
pub trait Lane: Copy {
    /// `mantissa` times ten to the `exponent`, rounded once.
    open spec fn of_decimal_spec(mantissa: int, exponent: int) -> Self {
        choose|r: Self| #[trigger] call_ensures(Self::of_decimal, (mantissa as i64, exponent as i32), r)
    }

    /// `mantissa` times ten to the `exponent`, rounded once.
    fn of_decimal(mantissa: i64, exponent: i32) -> Self;

    /// The smaller lane.
    open spec fn lane_min_spec(self, other: Self) -> Self {
        choose|r: Self| #[trigger] call_ensures(Self::lane_min, (self, other), r)
    }

    /// The smaller lane.
    fn lane_min(self, other: Self) -> Self;

    /// The larger lane.
    open spec fn lane_max_spec(self, other: Self) -> Self {
        choose|r: Self| #[trigger] call_ensures(Self::lane_max, (self, other), r)
    }

    /// The larger lane.
    fn lane_max(self, other: Self) -> Self;

    /// `self + other`.
    open spec fn lane_add_spec(self, other: Self) -> Self {
        choose|r: Self| #[trigger] call_ensures(Self::lane_add, (self, other), r)
    }

    /// `self + other`.
    fn lane_add(self, other: Self) -> Self;

    /// `self - other`.
    open spec fn lane_sub_spec(self, other: Self) -> Self {
        choose|r: Self| #[trigger] call_ensures(Self::lane_sub, (self, other), r)
    }

    /// `self - other`.
    fn lane_sub(self, other: Self) -> Self;

    /// `self * other`.
    open spec fn lane_mul_spec(self, other: Self) -> Self {
        choose|r: Self| #[trigger] call_ensures(Self::lane_mul, (self, other), r)
    }

    /// `self * other`.
    fn lane_mul(self, other: Self) -> Self;

    /// `self / other`.
    open spec fn lane_div_spec(self, other: Self) -> Self {
        choose|r: Self| #[trigger] call_ensures(Self::lane_div, (self, other), r)
    }

    /// `self / other`.
    fn lane_div(self, other: Self) -> Self;

    /// `self` without its sign.
    open spec fn lane_abs_spec(self) -> Self {
        choose|r: Self| #[trigger] call_ensures(Self::lane_abs, (self,), r)
    }

    /// `self` without its sign.
    fn lane_abs(self) -> Self;

    /// `self * factor + addend`, fused into one rounding where the host can.
    open spec fn madd_spec(self, factor: Self, addend: Self) -> Self {
        choose|r: Self| #[trigger] call_ensures(Self::madd, (self, factor, addend), r)
    }

    /// `self * factor + addend`, fused into one rounding where the host can.
    fn madd(self, factor: Self, addend: Self) -> Self;

    /// The sign bit of `self`, every other bit clear.
    open spec fn sign_of_spec(self) -> Self {
        choose|r: Self| #[trigger] call_ensures(Self::sign_of, (self,), r)
    }

    /// The sign bit of `self`, every other bit clear.
    fn sign_of(self) -> Self;

    /// The bitwise union of the two lanes.
    open spec fn or_bits_spec(self, other: Self) -> Self {
        choose|r: Self| #[trigger] call_ensures(Self::or_bits, (self, other), r)
    }

    /// The bitwise union of the two lanes.
    fn or_bits(self, other: Self) -> Self;
}

/// Whether every lane operation is a function of its operands: the one that
/// the spec function of the same name names.
#[verifier::opaque]
pub open spec fn lawful<L: Lane>() -> bool {
    &&& forall|m: i64, e: i32, r: L| #[trigger]
        call_ensures(L::of_decimal, (m, e), r) ==> r == L::of_decimal_spec(m as int, e as int)
    &&& forall|a: L, b: L, r: L| #[trigger]
        call_ensures(L::lane_min, (a, b), r) ==> r == a.lane_min_spec(b)
    &&& forall|a: L, b: L, r: L| #[trigger]
        call_ensures(L::lane_max, (a, b), r) ==> r == a.lane_max_spec(b)
    &&& forall|a: L, b: L, r: L| #[trigger]
        call_ensures(L::lane_add, (a, b), r) ==> r == a.lane_add_spec(b)
    &&& forall|a: L, b: L, r: L| #[trigger]
        call_ensures(L::lane_sub, (a, b), r) ==> r == a.lane_sub_spec(b)
    &&& forall|a: L, b: L, r: L| #[trigger]
        call_ensures(L::lane_mul, (a, b), r) ==> r == a.lane_mul_spec(b)
    &&& forall|a: L, b: L, r: L| #[trigger]
        call_ensures(L::lane_div, (a, b), r) ==> r == a.lane_div_spec(b)
    &&& forall|a: L, r: L| #[trigger]
        call_ensures(L::lane_abs, (a,), r) ==> r == a.lane_abs_spec()
    &&& forall|a: L, b: L, c: L, r: L| #[trigger]
        call_ensures(L::madd, (a, b, c), r) ==> r == a.madd_spec(b, c)
    &&& forall|a: L, r: L| #[trigger]
        call_ensures(L::sign_of, (a,), r) ==> r == a.sign_of_spec()
    &&& forall|a: L, b: L, r: L| #[trigger]
        call_ensures(L::or_bits, (a, b), r) ==> r == a.or_bits_spec(b)
}

/// [`Lane::of_decimal`], under the law of `L`.
fn of_decimal<L: Lane>(m: i64, e: i32) -> (r: L)
    requires
        lawful::<L>(),
    ensures
        r == L::of_decimal_spec(m as int, e as int),
{
    proof {
        reveal(lawful);
    }
    L::of_decimal(m, e)
}

/// [`Lane::lane_min`], under the law of `L`.
fn lane_min<L: Lane>(a: L, b: L) -> (r: L)
    requires
        lawful::<L>(),
    ensures
        r == a.lane_min_spec(b),
{
    proof {
        reveal(lawful);
    }
    a.lane_min(b)
}

/// [`Lane::lane_max`], under the law of `L`.
fn lane_max<L: Lane>(a: L, b: L) -> (r: L)
    requires
        lawful::<L>(),
    ensures
        r == a.lane_max_spec(b),
{
    proof {
        reveal(lawful);
    }
    a.lane_max(b)
}

/// [`Lane::lane_add`], under the law of `L`.
fn lane_add<L: Lane>(a: L, b: L) -> (r: L)
    requires
        lawful::<L>(),
    ensures
        r == a.lane_add_spec(b),
{
    proof {
        reveal(lawful);
    }
    a.lane_add(b)
}

/// [`Lane::lane_sub`], under the law of `L`.
fn lane_sub<L: Lane>(a: L, b: L) -> (r: L)
    requires
        lawful::<L>(),
    ensures
        r == a.lane_sub_spec(b),
{
    proof {
        reveal(lawful);
    }
    a.lane_sub(b)
}

/// [`Lane::lane_mul`], under the law of `L`.
fn lane_mul<L: Lane>(a: L, b: L) -> (r: L)
    requires
        lawful::<L>(),
    ensures
        r == a.lane_mul_spec(b),
{
    proof {
        reveal(lawful);
    }
    a.lane_mul(b)
}

/// [`Lane::lane_div`], under the law of `L`.
fn lane_div<L: Lane>(a: L, b: L) -> (r: L)
    requires
        lawful::<L>(),
    ensures
        r == a.lane_div_spec(b),
{
    proof {
        reveal(lawful);
    }
    a.lane_div(b)
}

/// [`Lane::lane_abs`], under the law of `L`.
fn lane_abs<L: Lane>(a: L) -> (r: L)
    requires
        lawful::<L>(),
    ensures
        r == a.lane_abs_spec(),
{
    proof {
        reveal(lawful);
    }
    a.lane_abs()
}

/// [`Lane::madd`], under the law of `L`.
fn madd<L: Lane>(a: L, b: L, c: L) -> (r: L)
    requires
        lawful::<L>(),
    ensures
        r == a.madd_spec(b, c),
{
    proof {
        reveal(lawful);
    }
    a.madd(b, c)
}

/// [`Lane::sign_of`], under the law of `L`.
fn sign_of<L: Lane>(a: L) -> (r: L)
    requires
        lawful::<L>(),
    ensures
        r == a.sign_of_spec(),
{
    proof {
        reveal(lawful);
    }
    a.sign_of()
}

/// [`Lane::or_bits`], under the law of `L`.
fn or_bits<L: Lane>(a: L, b: L) -> (r: L)
    requires
        lawful::<L>(),
    ensures
        r == a.or_bits_spec(b),
{
    proof {
        reveal(lawful);
    }
    a.or_bits(b)
}

/// The polynomial with coefficients `c`, highest power first, at `x`.
pub open spec fn horner<L: Lane>(x: L, c: Seq<L>) -> L
    decreases c.len(),
{
    if c.len() <= 1 {
        c[0]
    } else {
        x.madd_spec(horner(x, c.drop_last()), c.last())
    }
}

/// `v` held between `low` and `high`.
pub open spec fn clamp<L: Lane>(low: L, high: L, v: L) -> L {
    high.lane_min_spec(low.lane_max_spec(v))
}

/// The rational approximation `x * p(x²) / q(x²)`.
pub open spec fn rational<L: Lane>(x: L, p: Seq<L>, q: Seq<L>) -> L {
    let x2 = x.lane_mul_spec(x);
    horner(x2, p).lane_mul_spec(x).lane_div_spec(horner(x2, q))
}

/// Arguments of the logistic curve saturate below -18.6.
pub open spec fn sigmoid_low<L: Lane>() -> L {
    L::of_decimal_spec(-186, -1)
}

/// Arguments of the logistic curve saturate above 18.6.
pub open spec fn sigmoid_high<L: Lane>() -> L {
    L::of_decimal_spec(186, -1)
}

/// Numerator of the logistic curve, highest power first.
pub open spec fn sigmoid_numerator<L: Lane>() -> Seq<L> {
    seq![
        L::of_decimal_spec(-4433153405, -27),
        L::of_decimal_spec(1169974371, -23),
        L::of_decimal_spec(-1875289645, -20),
        L::of_decimal_spec(4257889523, -17),
        L::of_decimal_spec(4811817576, -14),
        L::of_decimal_spec(8163842030, -12),
        L::of_decimal_spec(2499999971, -10),
    ]
}

/// Denominator of the logistic curve, highest power first.
pub open spec fn sigmoid_denominator<L: Lane>() -> Seq<L> {
    seq![
        L::of_decimal_spec(3922935744, -15),
        L::of_decimal_spec(1524872358, -12),
        L::of_decimal_spec(1159886749, -10),
        L::of_decimal_spec(1, 0),
    ]
}

/// Arguments of the hyperbolic tangent saturate below -8.9.
pub open spec fn tanh_low<L: Lane>() -> L {
    L::of_decimal_spec(-89, -1)
}

/// Arguments of the hyperbolic tangent saturate above 8.9.
pub open spec fn tanh_high<L: Lane>() -> L {
    L::of_decimal_spec(89, -1)
}

/// Numerator of the hyperbolic tangent, highest power first.
pub open spec fn tanh_numerator<L: Lane>() -> Seq<L> {
    seq![
        L::of_decimal_spec(-8488492677, -23),
        L::of_decimal_spec(5277853000, -20),
        L::of_decimal_spec(-2022500419, -17),
        L::of_decimal_spec(1115424833, -14),
        L::of_decimal_spec(3103950131, -12),
        L::of_decimal_spec(1308400453, -10),
        L::of_decimal_spec(9999999934, -10),
    ]
}

/// Denominator of the hyperbolic tangent, highest power first.
pub open spec fn tanh_denominator<L: Lane>() -> Seq<L> {
    seq![
        L::of_decimal_spec(2546136580, -13),
        L::of_decimal_spec(2449515379, -11),
        L::of_decimal_spec(4641733162, -10),
        L::of_decimal_spec(1, 0),
    ]
}

/// The degree-6 polynomial of the error function, without its constant term.
pub open spec fn erf_polynomial<L: Lane>() -> Seq<L> {
    seq![
        L::of_decimal_spec(430638, -10),
        L::of_decimal_spec(2765672, -10),
        L::of_decimal_spec(1520143, -10),
        L::of_decimal_spec(92705272, -10),
        L::of_decimal_spec(422820123, -10),
        L::of_decimal_spec(705230784, -10),
    ]
}

/// One half.
pub open spec fn half<L: Lane>() -> L {
    L::of_decimal_spec(5, -1)
}

/// One.
pub open spec fn unit<L: Lane>() -> L {
    L::of_decimal_spec(1, 0)
}

/// The square root of `2 / pi`.
pub open spec fn gelu_linear<L: Lane>() -> L {
    L::of_decimal_spec(7978845608028654, -16)
}

/// 0.044715 times the square root of `2 / pi`.
pub open spec fn gelu_cubic<L: Lane>() -> L {
    L::of_decimal_spec(356774081363001264, -19)
}

/// The coefficients of a clamped rational approximation.
struct Pade<L> {
    low: L,
    high: L,
    numerator: Vec<L>,
    denominator: Vec<L>,
}

/// The coefficients of the logistic curve.
fn sigmoid_pade<L: Lane>() -> (r: Pade<L>)
    requires
        lawful::<L>(),
    ensures
        r.low == sigmoid_low::<L>(),
        r.high == sigmoid_high::<L>(),
        r.numerator@ == sigmoid_numerator::<L>(),
        r.denominator@ == sigmoid_denominator::<L>(),
{
    let mut numerator: Vec<L> = Vec::new();
    numerator.push(of_decimal(-4433153405, -27));
    numerator.push(of_decimal(1169974371, -23));
    numerator.push(of_decimal(-1875289645, -20));
    numerator.push(of_decimal(4257889523, -17));
    numerator.push(of_decimal(4811817576, -14));
    numerator.push(of_decimal(8163842030, -12));
    numerator.push(of_decimal(2499999971, -10));
    let mut denominator: Vec<L> = Vec::new();
    denominator.push(of_decimal(3922935744, -15));
    denominator.push(of_decimal(1524872358, -12));
    denominator.push(of_decimal(1159886749, -10));
    denominator.push(of_decimal(1, 0));
    assert(numerator@ =~= sigmoid_numerator::<L>());
    assert(denominator@ =~= sigmoid_denominator::<L>());
    Pade { low: of_decimal(-186, -1), high: of_decimal(186, -1), numerator, denominator }
}

/// The coefficients of the hyperbolic tangent.
fn tanh_pade<L: Lane>() -> (r: Pade<L>)
    requires
        lawful::<L>(),
    ensures
        r.low == tanh_low::<L>(),
        r.high == tanh_high::<L>(),
        r.numerator@ == tanh_numerator::<L>(),
        r.denominator@ == tanh_denominator::<L>(),
{
    let mut numerator: Vec<L> = Vec::new();
    numerator.push(of_decimal(-8488492677, -23));
    numerator.push(of_decimal(5277853000, -20));
    numerator.push(of_decimal(-2022500419, -17));
    numerator.push(of_decimal(1115424833, -14));
    numerator.push(of_decimal(3103950131, -12));
    numerator.push(of_decimal(1308400453, -10));
    numerator.push(of_decimal(9999999934, -10));
    let mut denominator: Vec<L> = Vec::new();
    denominator.push(of_decimal(2546136580, -13));
    denominator.push(of_decimal(2449515379, -11));
    denominator.push(of_decimal(4641733162, -10));
    denominator.push(of_decimal(1, 0));
    assert(numerator@ =~= tanh_numerator::<L>());
    assert(denominator@ =~= tanh_denominator::<L>());
    Pade { low: of_decimal(-89, -1), high: of_decimal(89, -1), numerator, denominator }
}

/// The coefficients of the error function's polynomial.
fn erf_coefficients<L: Lane>() -> (r: Vec<L>)
    requires
        lawful::<L>(),
    ensures
        r@ == erf_polynomial::<L>(),
{
    let mut c: Vec<L> = Vec::new();
    c.push(of_decimal(430638, -10));
    c.push(of_decimal(2765672, -10));
    c.push(of_decimal(1520143, -10));
    c.push(of_decimal(92705272, -10));
    c.push(of_decimal(422820123, -10));
    c.push(of_decimal(705230784, -10));
    assert(c@ =~= erf_polynomial::<L>());
    c
}

/// Runs Horner's rule.
fn run_horner<L: Lane>(x: L, c: &Vec<L>) -> (r: L)
    requires
        lawful::<L>(),
        c@.len() > 0,
    ensures
        r == horner(x, c@),
{
    let mut acc = c[0];
    let mut i: usize = 1;
    assert(c@.take(1).len() == 1);
    while i < c.len()
        invariant
            lawful::<L>(),
            1 <= i <= c@.len(),
            acc == horner(x, c@.take(i as int)),
        decreases c@.len() - i,
    {
        acc = madd(x, acc, c[i]);
        proof {
            assert(c@.take(i + 1).drop_last() =~= c@.take(i as int));
            assert(c@.take(i + 1).last() == c@[i as int]);
        }
        i += 1;
    }
    proof {
        assert(c@.take(i as int) =~= c@);
    }
    acc
}

impl<L: Lane> Pade<L> {
    /// `v` held between the two ends of the approximation's range.
    fn clamped(&self, v: L) -> (r: L)
        requires
            lawful::<L>(),
        ensures
            r == clamp(self.low, self.high, v),
    {
        lane_min(self.high, lane_max(self.low, v))
    }

    /// The rational approximation at `x`.
    fn at(&self, x: L) -> (r: L)
        requires
            lawful::<L>(),
            self.numerator@.len() > 0,
            self.denominator@.len() > 0,
        ensures
            r == rational(x, self.numerator@, self.denominator@),
    {
        let x2 = lane_mul(x, x);
        let p = lane_mul(run_horner(x2, &self.numerator), x);
        lane_div(p, run_horner(x2, &self.denominator))
    }
}

/// The logistic curve.
#[derive(Clone, Debug)]
pub struct WasmSigmoid4Relaxed;

impl WasmSigmoid4Relaxed {
    /// The name that the kernel registers under.
    pub fn name() -> (r: &'static str)
        ensures
            r@ == "wasm_relaxed_simd"@,
    {
        "wasm_relaxed_simd"
    }

    /// The alignment, in bytes, of the buffers that the kernel takes.
    pub fn alignment_bytes() -> (r: usize)
        ensures
            r == 16,
    {
        16
    }

    /// The alignment, in items, of the buffers that the kernel takes.
    pub fn alignment_items() -> (r: usize)
        ensures
            r == 4,
    {
        4
    }

    /// The number of items in a block.
    pub fn nr() -> (r: usize)
        ensures
            r == 4,
    {
        4
    }

    /// The logistic curve at `v`: the rational approximation, moved up by one half.
    pub open spec fn value<L: Lane>(v: L) -> L {
        rational(
            clamp(sigmoid_low(), sigmoid_high(), v),
            sigmoid_numerator(),
            sigmoid_denominator(),
        ).lane_add_spec(half())
    }

    /// Replaces every item of `buf`, a whole number of blocks, by its value.
    pub fn run<L: Lane>(buf: &mut [L])
        requires
            lawful::<L>(),
            old(buf)@.len() % 4 == 0,
        ensures
            final(buf)@ == old(buf)@.map_values(|v: L| Self::value(v)),
    {
        let c: Pade<L> = sigmoid_pade();
        let h: L = of_decimal(5, -1);
        let n: usize = buf.len();
        let mut block: usize = 0;
        while block < n
            invariant
                lawful::<L>(),
                block <= n,
                n == buf@.len(),
                n == old(buf)@.len(),
                n % 4 == 0,
                block % 4 == 0,
                c.low == sigmoid_low::<L>(),
                c.high == sigmoid_high::<L>(),
                c.numerator@ == sigmoid_numerator::<L>(),
                c.denominator@ == sigmoid_denominator::<L>(),
                h == half::<L>(),
                forall|j: int| 0 <= j < block ==> #[trigger] buf@[j] == Self::value(old(buf)@[j]),
                forall|j: int| block <= j < n ==> #[trigger] buf@[j] == old(buf)@[j],
            decreases n - block,
        {
            let mut lane: usize = 0;
            while lane < 4
                invariant
                    lawful::<L>(),
                    lane <= 4,
                    block + 4 <= n,
                    n == buf@.len(),
                    n == old(buf)@.len(),
                    c.low == sigmoid_low::<L>(),
                    c.high == sigmoid_high::<L>(),
                    c.numerator@ == sigmoid_numerator::<L>(),
                    c.denominator@ == sigmoid_denominator::<L>(),
                    h == half::<L>(),
                    forall|j: int|
                        0 <= j < block + lane ==> #[trigger] buf@[j] == Self::value(old(buf)@[j]),
                    forall|j: int| block + lane <= j < n ==> #[trigger] buf@[j] == old(buf)@[j],
                decreases 4 - lane,
            {
                let v = buf[block + lane];
                let x = c.clamped(v);
                let r = lane_add(c.at(x), h);
                buf[block + lane] = r;
                lane += 1;
            }
            block += 4;
        }
    }
}

/// The hyperbolic tangent.
#[derive(Clone, Debug)]
pub struct WasmTanh4Relaxed;

impl WasmTanh4Relaxed {
    /// The name that the kernel registers under.
    pub fn name() -> (r: &'static str)
        ensures
            r@ == "wasm_relaxed_simd"@,
    {
        "wasm_relaxed_simd"
    }

    /// The alignment, in bytes, of the buffers that the kernel takes.
    pub fn alignment_bytes() -> (r: usize)
        ensures
            r == 16,
    {
        16
    }

    /// The alignment, in items, of the buffers that the kernel takes.
    pub fn alignment_items() -> (r: usize)
        ensures
            r == 4,
    {
        4
    }

    /// The number of items in a block.
    pub fn nr() -> (r: usize)
        ensures
            r == 4,
    {
        4
    }

    /// The hyperbolic tangent at `v`.
    pub open spec fn value<L: Lane>(v: L) -> L {
        rational(clamp(tanh_low(), tanh_high(), v), tanh_numerator(), tanh_denominator())
    }

    /// Replaces every item of `buf`, a whole number of blocks, by its value.
    pub fn run<L: Lane>(buf: &mut [L])
        requires
            lawful::<L>(),
            old(buf)@.len() % 4 == 0,
        ensures
            final(buf)@ == old(buf)@.map_values(|v: L| Self::value(v)),
    {
        let c: Pade<L> = tanh_pade();
        let n: usize = buf.len();
        let mut block: usize = 0;
        while block < n
            invariant
                lawful::<L>(),
                block <= n,
                n == buf@.len(),
                n == old(buf)@.len(),
                n % 4 == 0,
                block % 4 == 0,
                c.low == tanh_low::<L>(),
                c.high == tanh_high::<L>(),
                c.numerator@ == tanh_numerator::<L>(),
                c.denominator@ == tanh_denominator::<L>(),
                forall|j: int| 0 <= j < block ==> #[trigger] buf@[j] == Self::value(old(buf)@[j]),
                forall|j: int| block <= j < n ==> #[trigger] buf@[j] == old(buf)@[j],
            decreases n - block,
        {
            let mut lane: usize = 0;
            while lane < 4
                invariant
                    lawful::<L>(),
                    lane <= 4,
                    block + 4 <= n,
                    n == buf@.len(),
                    n == old(buf)@.len(),
                    c.low == tanh_low::<L>(),
                    c.high == tanh_high::<L>(),
                    c.numerator@ == tanh_numerator::<L>(),
                    c.denominator@ == tanh_denominator::<L>(),
                    forall|j: int|
                        0 <= j < block + lane ==> #[trigger] buf@[j] == Self::value(old(buf)@[j]),
                    forall|j: int| block + lane <= j < n ==> #[trigger] buf@[j] == old(buf)@[j],
                decreases 4 - lane,
            {
                let v = buf[block + lane];
                let r = c.at(c.clamped(v));
                buf[block + lane] = r;
                lane += 1;
            }
            block += 4;
        }
    }
}

/// The sigmoid-weighted linear unit. Its factor is held above -18.6, so that
/// the negative tail saturates, and is left free above.
#[derive(Clone, Debug)]
pub struct WasmSilu4Relaxed;

impl WasmSilu4Relaxed {
    /// The name that the kernel registers under.
    pub fn name() -> (r: &'static str)
        ensures
            r@ == "wasm_relaxed_simd"@,
    {
        "wasm_relaxed_simd"
    }

    /// The alignment, in bytes, of the buffers that the kernel takes.
    pub fn alignment_bytes() -> (r: usize)
        ensures
            r == 16,
    {
        16
    }

    /// The alignment, in items, of the buffers that the kernel takes.
    pub fn alignment_items() -> (r: usize)
        ensures
            r == 4,
    {
        4
    }

    /// The number of items in a block.
    pub fn nr() -> (r: usize)
        ensures
            r == 4,
    {
        4
    }

    /// `f * sigmoid(f)`, where `f` is `v` held above -18.6.
    pub open spec fn value<L: Lane>(v: L) -> L {
        let f = sigmoid_low::<L>().lane_max_spec(v);
        let x = sigmoid_high::<L>().lane_min_spec(f);
        f.lane_mul_spec(
            rational(x, sigmoid_numerator(), sigmoid_denominator()).lane_add_spec(half()),
        )
    }

    /// Replaces every item of `buf`, a whole number of blocks, by its value.
    pub fn run<L: Lane>(buf: &mut [L])
        requires
            lawful::<L>(),
            old(buf)@.len() % 4 == 0,
        ensures
            final(buf)@ == old(buf)@.map_values(|v: L| Self::value(v)),
    {
        let c: Pade<L> = sigmoid_pade();
        let h: L = of_decimal(5, -1);
        let n: usize = buf.len();
        let mut block: usize = 0;
        while block < n
            invariant
                lawful::<L>(),
                block <= n,
                n == buf@.len(),
                n == old(buf)@.len(),
                n % 4 == 0,
                block % 4 == 0,
                c.low == sigmoid_low::<L>(),
                c.high == sigmoid_high::<L>(),
                c.numerator@ == sigmoid_numerator::<L>(),
                c.denominator@ == sigmoid_denominator::<L>(),
                h == half::<L>(),
                forall|j: int| 0 <= j < block ==> #[trigger] buf@[j] == Self::value(old(buf)@[j]),
                forall|j: int| block <= j < n ==> #[trigger] buf@[j] == old(buf)@[j],
            decreases n - block,
        {
            let mut lane: usize = 0;
            while lane < 4
                invariant
                    lawful::<L>(),
                    lane <= 4,
                    block + 4 <= n,
                    n == buf@.len(),
                    n == old(buf)@.len(),
                    c.low == sigmoid_low::<L>(),
                    c.high == sigmoid_high::<L>(),
                    c.numerator@ == sigmoid_numerator::<L>(),
                    c.denominator@ == sigmoid_denominator::<L>(),
                    h == half::<L>(),
                    forall|j: int|
                        0 <= j < block + lane ==> #[trigger] buf@[j] == Self::value(old(buf)@[j]),
                    forall|j: int| block + lane <= j < n ==> #[trigger] buf@[j] == old(buf)@[j],
                decreases 4 - lane,
            {
                let v = buf[block + lane];
                let f = lane_max(c.low, v);
                let x = lane_min(c.high, f);
                let r = lane_mul(f, lane_add(c.at(x), h));
                buf[block + lane] = r;
                lane += 1;
            }
            block += 4;
        }
    }
}

/// The Gaussian error linear unit in its tanh form,
/// `0.5 * x * (1 + tanh(sqrt(2/pi) * (x + 0.044715 * x³)))`.
#[derive(Clone, Debug)]
pub struct WasmGelu4Relaxed;

impl WasmGelu4Relaxed {
    /// The name that the kernel registers under.
    pub fn name() -> (r: &'static str)
        ensures
            r@ == "wasm_relaxed_simd"@,
    {
        "wasm_relaxed_simd"
    }

    /// The alignment, in bytes, of the buffers that the kernel takes.
    pub fn alignment_bytes() -> (r: usize)
        ensures
            r == 16,
    {
        16
    }

    /// The alignment, in items, of the buffers that the kernel takes.
    pub fn alignment_items() -> (r: usize)
        ensures
            r == 4,
    {
        4
    }

    /// The number of items in a block.
    pub fn nr() -> (r: usize)
        ensures
            r == 4,
    {
        4
    }

    /// The unit at `v`: `v/2 * tanh(v * (k1 + k3 * v²)) + v/2`.
    pub open spec fn value<L: Lane>(v: L) -> L {
        let v2 = v.lane_mul_spec(v);
        let u = v.lane_mul_spec(gelu_cubic::<L>().madd_spec(v2, gelu_linear()));
        let th = rational(
            clamp(tanh_low(), tanh_high(), u),
            tanh_numerator(),
            tanh_denominator(),
        );
        let hv = half::<L>().lane_mul_spec(v);
        hv.madd_spec(th, hv)
    }

    /// Replaces every item of `buf`, a whole number of blocks, by its value.
    pub fn run<L: Lane>(buf: &mut [L])
        requires
            lawful::<L>(),
            old(buf)@.len() % 4 == 0,
        ensures
            final(buf)@ == old(buf)@.map_values(|v: L| Self::value(v)),
    {
        let c: Pade<L> = tanh_pade();
        let h: L = of_decimal(5, -1);
        let k1: L = of_decimal(7978845608028654, -16);
        let k3: L = of_decimal(356774081363001264, -19);
        let n: usize = buf.len();
        let mut block: usize = 0;
        while block < n
            invariant
                lawful::<L>(),
                block <= n,
                n == buf@.len(),
                n == old(buf)@.len(),
                n % 4 == 0,
                block % 4 == 0,
                c.low == tanh_low::<L>(),
                c.high == tanh_high::<L>(),
                c.numerator@ == tanh_numerator::<L>(),
                c.denominator@ == tanh_denominator::<L>(),
                h == half::<L>(),
                k1 == gelu_linear::<L>(),
                k3 == gelu_cubic::<L>(),
                forall|j: int| 0 <= j < block ==> #[trigger] buf@[j] == Self::value(old(buf)@[j]),
                forall|j: int| block <= j < n ==> #[trigger] buf@[j] == old(buf)@[j],
            decreases n - block,
        {
            let mut lane: usize = 0;
            while lane < 4
                invariant
                    lawful::<L>(),
                    lane <= 4,
                    block + 4 <= n,
                    n == buf@.len(),
                    n == old(buf)@.len(),
                    c.low == tanh_low::<L>(),
                    c.high == tanh_high::<L>(),
                    c.numerator@ == tanh_numerator::<L>(),
                    c.denominator@ == tanh_denominator::<L>(),
                    h == half::<L>(),
                    k1 == gelu_linear::<L>(),
                    k3 == gelu_cubic::<L>(),
                    forall|j: int|
                        0 <= j < block + lane ==> #[trigger] buf@[j] == Self::value(old(buf)@[j]),
                    forall|j: int| block + lane <= j < n ==> #[trigger] buf@[j] == old(buf)@[j],
                decreases 4 - lane,
            {
                let v = buf[block + lane];
                let v2 = lane_mul(v, v);
                let u = lane_mul(v, madd(k3, v2, k1));
                let th = c.at(c.clamped(u));
                let hv = lane_mul(h, v);
                let r = madd(hv, th, hv);
                buf[block + lane] = r;
                lane += 1;
            }
            block += 4;
        }
    }
}

/// The error function, `copysign(1 - (1 + p(|x|))⁻¹⁶, x)`, with the sixteenth
/// power taken by four squarings.
#[derive(Clone, Debug)]
pub struct WasmErf4Relaxed;

impl WasmErf4Relaxed {
    /// The name that the kernel registers under.
    pub fn name() -> (r: &'static str)
        ensures
            r@ == "wasm_relaxed_simd"@,
    {
        "wasm_relaxed_simd"
    }

    /// The alignment, in bytes, of the buffers that the kernel takes.
    pub fn alignment_bytes() -> (r: usize)
        ensures
            r == 16,
    {
        16
    }

    /// The alignment, in items, of the buffers that the kernel takes.
    pub fn alignment_items() -> (r: usize)
        ensures
            r == 4,
    {
        4
    }

    /// The number of items in a block.
    pub fn nr() -> (r: usize)
        ensures
            r == 4,
    {
        4
    }

    /// The error function at `v`: its magnitude at `|v|`, with the sign bit of `v`.
    pub open spec fn value<L: Lane>(v: L) -> L {
        erf_magnitude(v.lane_abs_spec()).or_bits_spec(v.sign_of_spec())
    }

    /// Replaces every item of `buf`, a whole number of blocks, by its value.
    pub fn run<L: Lane>(buf: &mut [L])
        requires
            lawful::<L>(),
            old(buf)@.len() % 4 == 0,
        ensures
            final(buf)@ == old(buf)@.map_values(|v: L| Self::value(v)),
    {
        let c: Vec<L> = erf_coefficients();
        let one: L = of_decimal(1, 0);
        let n: usize = buf.len();
        let mut block: usize = 0;
        while block < n
            invariant
                lawful::<L>(),
                block <= n,
                n == buf@.len(),
                n == old(buf)@.len(),
                n % 4 == 0,
                block % 4 == 0,
                c@ == erf_polynomial::<L>(),
                one == unit::<L>(),
                forall|j: int| 0 <= j < block ==> #[trigger] buf@[j] == Self::value(old(buf)@[j]),
                forall|j: int| block <= j < n ==> #[trigger] buf@[j] == old(buf)@[j],
            decreases n - block,
        {
            let mut lane: usize = 0;
            while lane < 4
                invariant
                    lawful::<L>(),
                    lane <= 4,
                    block + 4 <= n,
                    n == buf@.len(),
                    n == old(buf)@.len(),
                    c@ == erf_polynomial::<L>(),
                    one == unit::<L>(),
                    forall|j: int|
                        0 <= j < block + lane ==> #[trigger] buf@[j] == Self::value(old(buf)@[j]),
                    forall|j: int| block + lane <= j < n ==> #[trigger] buf@[j] == old(buf)@[j],
                decreases 4 - lane,
            {
                let v = buf[block + lane];
                let sign = sign_of(v);
                let t = lane_abs(v);
                let y = lane_mul(run_horner(t, &c), t);
                let u = lane_add(y, one);
                let u2 = lane_mul(u, u);
                let u4 = lane_mul(u2, u2);
                let u8th = lane_mul(u4, u4);
                let u16th = lane_mul(u8th, u8th);
                let r = or_bits(lane_sub(one, lane_div(one, u16th)), sign);
                buf[block + lane] = r;
                lane += 1;
            }
            block += 4;
        }
    }
}

/// `1 - (1 + p(t))⁻¹⁶`.
pub open spec fn erf_magnitude<L: Lane>(t: L) -> L {
    let u = horner(t, erf_polynomial()).lane_mul_spec(t).lane_add_spec(unit());
    let u2 = u.lane_mul_spec(u);
    let u4 = u2.lane_mul_spec(u2);
    let u8th = u4.lane_mul_spec(u4);
    let u16th = u8th.lane_mul_spec(u8th);
    unit::<L>().lane_sub_spec(unit::<L>().lane_div_spec(u16th))
}

/// The linear unit is its held factor times the logistic curve at the same
/// argument: the two kernels share polynomial and clamp.
pub proof fn law_silu_is_factor_times_sigmoid<L: Lane>(v: L)
    ensures
        WasmSilu4Relaxed::value(v) == sigmoid_low::<L>().lane_max_spec(v).lane_mul_spec(
            WasmSigmoid4Relaxed::value(v),
        ),
{
}

/// The tail saturates: two arguments that the lower bound holds at one value
/// have one result.
pub proof fn law_silu_tail_saturates<L: Lane>(v: L, w: L)
    requires
        sigmoid_low::<L>().lane_max_spec(v) == sigmoid_low::<L>().lane_max_spec(w),
    ensures
        WasmSilu4Relaxed::value(v) == WasmSilu4Relaxed::value(w),
{
}

/// Two arguments that the clamp holds at one value have one logistic value.
pub proof fn law_sigmoid_saturates<L: Lane>(v: L, w: L)
    requires
        clamp(sigmoid_low::<L>(), sigmoid_high(), v) == clamp(sigmoid_low(), sigmoid_high(), w),
    ensures
        WasmSigmoid4Relaxed::value(v) == WasmSigmoid4Relaxed::value(w),
{
}

/// Two arguments that the clamp holds at one value have one tangent.
pub proof fn law_tanh_saturates<L: Lane>(v: L, w: L)
    requires
        clamp(tanh_low::<L>(), tanh_high(), v) == clamp(tanh_low(), tanh_high(), w),
    ensures
        WasmTanh4Relaxed::value(v) == WasmTanh4Relaxed::value(w),
{
}

/// Whether `neg` turns lanes around: among the lanes that are `sound`, signs
/// move out of products and quotients, and the smaller of two becomes the
/// larger.
pub open spec fn mirrors<L: Lane>(neg: spec_fn(L) -> L, sound: spec_fn(L) -> bool) -> bool {
    &&& forall|a: L| sound(a) ==> sound(#[trigger] neg(a))
    &&& forall|a: L, b: L|
        sound(a) && sound(b) ==> sound(#[trigger] a.lane_min_spec(b)) && neg(a).lane_max_spec(
            neg(b),
        ) == neg(a.lane_min_spec(b))
    &&& forall|a: L, b: L|
        sound(a) && sound(b) ==> sound(#[trigger] a.lane_max_spec(b)) && neg(a).lane_min_spec(
            neg(b),
        ) == neg(a.lane_max_spec(b))
    &&& forall|a: L, b: L|
        sound(a) && sound(b) && sound(#[trigger] a.lane_mul_spec(b)) ==> {
            &&& neg(a).lane_mul_spec(neg(b)) == a.lane_mul_spec(b)
            &&& a.lane_mul_spec(neg(b)) == neg(a.lane_mul_spec(b))
        }
    &&& forall|a: L, b: L|
        sound(a) && sound(b) && sound(#[trigger] a.lane_div_spec(b)) ==> neg(a).lane_div_spec(b)
            == neg(a.lane_div_spec(b))
}

/// Whether all that the tangent at `v` is computed from is sound, and its bounds
/// hold `v` alike in either order.
pub open spec fn tanh_is_sound<L: Lane>(sound: spec_fn(L) -> bool, v: L) -> bool {
    let (low, high) = (tanh_low::<L>(), tanh_high::<L>());
    let x = clamp(low, high, v);
    let x2 = x.lane_mul_spec(x);
    let p = horner(x2, tanh_numerator());
    &&& sound(low) && sound(high) && sound(v)
    &&& low.lane_max_spec(high.lane_min_spec(v)) == x
    &&& sound(x2)
    &&& sound(p) && sound(p.lane_mul_spec(x))
    &&& sound(horner(x2, tanh_denominator()))
    &&& sound(WasmTanh4Relaxed::value(v))
}

/// The tangent is odd: it turns around with its argument.
pub proof fn law_tanh_is_odd<L: Lane>(neg: spec_fn(L) -> L, sound: spec_fn(L) -> bool, v: L)
    requires
        mirrors(neg, sound),
        neg(tanh_low()) == tanh_high::<L>(),
        neg(tanh_high()) == tanh_low::<L>(),
        tanh_is_sound(sound, v),
    ensures
        WasmTanh4Relaxed::value(neg(v)) == neg(WasmTanh4Relaxed::value(v)),
{
    let (low, high) = (tanh_low::<L>(), tanh_high::<L>());
    let x = clamp(low, high, v);
    let x2 = x.lane_mul_spec(x);
    let p = horner(x2, tanh_numerator());
    assert(low.lane_max_spec(neg(v)) == neg(high.lane_min_spec(v)));
    assert(clamp(low, high, neg(v)) == neg(x));
    assert(neg(x).lane_mul_spec(neg(x)) == x2);
    assert(p.lane_mul_spec(neg(x)) == neg(p.lane_mul_spec(x)));
}

/// The Gaussian unit is `v/2 * tanh(u) + v/2`, with the tangent that the tanh
/// kernel computes at `u = v * (k1 + k3 * v²)`.
pub proof fn law_gelu_is_tanh_form<L: Lane>(v: L)
    ensures
        ({
            let v2 = v.lane_mul_spec(v);
            let u = v.lane_mul_spec(gelu_cubic::<L>().madd_spec(v2, gelu_linear()));
            let hv = half::<L>().lane_mul_spec(v);
            WasmGelu4Relaxed::value(v) == hv.madd_spec(WasmTanh4Relaxed::value(u), hv)
        }),
{
}

/// The error function of two arguments that differ in sign alone differs in
/// the sign bit alone: both have one magnitude.
pub proof fn law_erf_is_odd_in_magnitude<L: Lane>(v: L, w: L)
    requires
        v.lane_abs_spec() == w.lane_abs_spec(),
    ensures
        WasmErf4Relaxed::value(v) == erf_magnitude(v.lane_abs_spec()).or_bits_spec(v.sign_of_spec()),
        WasmErf4Relaxed::value(w) == erf_magnitude(v.lane_abs_spec()).or_bits_spec(w.sign_of_spec()),
{
}

} // verus!
