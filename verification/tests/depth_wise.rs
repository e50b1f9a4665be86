use std::collections::BTreeMap;

use infer_kernels::datum::DatumType;
use infer_kernels::depth_wise::{
    BinOp, BinaryNode, DataShape, DepthWise, DepthWiseError, DepthWisePostOp, Operand, Patch,
    Site, Uniform, Validation, Zone, ZoneRow,
};
use infer_kernels::dims::DimLike;
use infer_kernels::fact::TypedFact;
use infer_kernels::scalar::Scalar;
use infer_kernels::tensor::NdArray;

const VECTORIZED: bool = false;

/// Single precision, with the machine's operations.
#[derive(Clone, Copy, Debug, PartialEq)]
struct F(f32);

impl Scalar for F {
    fn zero() -> F {
        F(0.0)
    }
    fn one() -> F {
        F(1.0)
    }
    fn infinity() -> F {
        F(f32::INFINITY)
    }
    fn neg_infinity() -> F {
        F(f32::NEG_INFINITY)
    }
    fn of_count(n: usize) -> F {
        F(n as f32)
    }
    fn plus(self, other: F) -> F {
        F(self.0 + other.0)
    }
    fn minus(self, other: F) -> F {
        F(self.0 - other.0)
    }
    fn times(self, other: F) -> F {
        F(self.0 * other.0)
    }
    fn over(self, other: F) -> F {
        F(self.0 / other.0)
    }
    fn larger(self, other: F) -> F {
        F(self.0.max(other.0))
    }
    fn smaller(self, other: F) -> F {
        F(self.0.min(other.0))
    }
    fn clamped(self, low: F, high: F) -> F {
        F(self.0.clamp(low.0, high.0))
    }
    fn fused(self, by: F, onto: F) -> F {
        F(self.0.mul_add(by.0, onto.0))
    }
    fn negated(self) -> F {
        F(-self.0)
    }
    fn rounded(self) -> F {
        F(self.0.round())
    }
    fn exponential(self) -> F {
        F(self.0.exp())
    }
    fn reciprocal(self) -> F {
        F(self.0.recip())
    }
    fn square_root(self) -> F {
        F(self.0.sqrt())
    }
    fn below(self, other: F) -> bool {
        self.0 < other.0
    }
    fn equal(self, other: F) -> bool {
        self.0 == other.0
    }
    fn finite(self) -> bool {
        self.0.is_finite()
    }
    fn to_code(self) -> u8 {
        self.0 as u8
    }
    fn to_bits(self) -> u32 {
        self.0.to_bits()
    }
    fn vectorized() -> bool {
        VECTORIZED
    }
    fn dot(xs: &[F], ys: &[F]) -> F {
        F(xs.iter().zip(ys).map(|(x, y)| x.0 * y.0).sum())
    }
    fn total(xs: &[F]) -> F {
        F(xs.iter().map(|x| x.0).sum())
    }
}

/// What a linear expression is made of: symbols, and coordinates along axes.
#[derive(Clone, Copy, Debug, PartialEq, Eq, PartialOrd, Ord)]
enum Atom {
    Symbol(u64),
    Coordinate(usize),
}

/// A constant plus multiples of atoms, none of them zero.
#[derive(Clone, Debug, PartialEq, Eq)]
struct Dim {
    constant: i64,
    terms: BTreeMap<Atom, i64>,
}

impl Dim {
    fn constant(constant: i64) -> Dim {
        Dim { constant, terms: BTreeMap::new() }
    }
    fn atom(a: Atom) -> Dim {
        Dim { constant: 0, terms: BTreeMap::from([(a, 1)]) }
    }
    fn scaled(&self, by: i64) -> Dim {
        let terms = self.terms.iter().map(|(a, n)| (*a, n * by)).filter(|t| t.1 != 0).collect();
        Dim { constant: self.constant * by, terms }
    }
}

impl DimLike for Dim {
    fn zero() -> Dim {
        Dim::constant(0)
    }
    fn of_count(n: usize) -> Dim {
        Dim::constant(n as i64)
    }
    fn duplicate(&self) -> Dim {
        self.clone()
    }
    fn sum(&self, other: &Dim) -> Dim {
        let mut terms = self.terms.clone();
        for (a, n) in &other.terms {
            *terms.entry(*a).or_insert(0) += n;
        }
        terms.retain(|_, n| *n != 0);
        Dim { constant: self.constant + other.constant, terms }
    }
    fn difference(&self, other: &Dim) -> Dim {
        self.sum(&other.scaled(-1))
    }
    fn product(&self, other: &Dim) -> Dim {
        if other.terms.is_empty() {
            self.scaled(other.constant)
        } else {
            assert!(self.terms.is_empty(), "only linear expressions are built here");
            other.scaled(self.constant)
        }
    }
    fn same(&self, other: &Dim) -> bool {
        self == other
    }
    fn is_zero(&self) -> bool {
        *self == Dim::zero()
    }
    fn proves_nonneg(&self) -> bool {
        self.constant >= 0 && self.terms.values().all(|n| *n >= 0)
    }
    fn to_usize(&self) -> Option<usize> {
        if self.terms.is_empty() {
            usize::try_from(self.constant).ok()
        } else {
            None
        }
    }
    fn symbol(&self) -> Option<u64> {
        match (self.constant, self.terms.len(), self.terms.first_key_value()) {
            (0, 1, Some((Atom::Symbol(s), 1))) => Some(*s),
            _ => None,
        }
    }
    fn coordinate(axis: usize) -> Dim {
        Dim::atom(Atom::Coordinate(axis))
    }
    fn mentions(&self, axis: usize) -> bool {
        self.terms.contains_key(&Atom::Coordinate(axis))
    }
    fn substitute(&self, axis: usize, by: &Dim) -> Option<Dim> {
        let a = Atom::Coordinate(axis);
        let times = self.terms.get(&a).copied().unwrap_or(0);
        let rest = self.difference(&Dim::atom(a).scaled(times));
        Some(rest.sum(&by.scaled(times)))
    }
}

fn layout(n: usize, c: usize, h: usize, w: usize) -> DataShape {
    DataShape {
        shape: vec![n, c, h, w],
        n: Some(n),
        n_stride: Some(c * h * w),
        c,
        c_stride: h * w,
    }
}

/// A convolution without padding, of stride one: all points are in one zone.
fn plain(n: usize, c: usize, h: usize, w: usize, kh: usize, kw: usize) -> DepthWise<F> {
    let (oh, ow) = (h - kh + 1, w - kw + 1);
    let values_offsets = (0..kh)
        .flat_map(|y| (0..kw).map(move |x| (y * kw + x, (y * w + x) as isize)))
        .collect();
    let rows = (0..oh)
        .map(|y| ZoneRow {
            input_center_offset: (y * w) as isize,
            output_offset: (y * ow) as isize,
            len: ow,
        })
        .collect();
    let zone = Zone { values_offsets, input_stride: 1, output_stride: 1, rows };
    let patch = Patch { output_shape: vec![oh, ow], zones: vec![zone] };
    DepthWise::new(patch, layout(n, c, h, w), layout(n, c, oh, ow))
}

fn inputs(n: usize, c: usize, h: usize, w: usize, kh: usize, kw: usize) -> [NdArray<F>; 3] {
    let x = (0..n * c * h * w).map(|i| F(((i as f32) * 0.07).sin() * 1.5)).collect();
    let k = (0..c * kh * kw).map(|i| F(((i as f32) * 0.13 - 0.5).sin())).collect();
    let b = (0..c).map(|i| F((i as f32) * 0.05 - 0.1)).collect();
    [
        NdArray { shape: vec![n, c, h, w], data: x },
        NdArray { shape: vec![1, c, kh, kw], data: k },
        NdArray { shape: vec![c], data: b },
    ]
}

/// A convolution whose only consumer is `op` with the number `c`.
fn site(op: BinOp, flipped: bool, c: f32) -> Site<F> {
    let conv = Operand { is_convolution: true, uniform: None };
    let number = Operand {
        is_convolution: false,
        uniform: Some(Uniform { datum_type: DatumType::F32, len: 1, value: F(c) }),
    };
    let (first, second) = if flipped { (conv, number) } else { (number, conv) };
    Site {
        outputs: 1,
        consumers: 1,
        is_model_output: false,
        datum_type: DatumType::F32,
        successor: Some(BinaryNode { op: Some(op), first, second }),
    }
}

/// A maximum fused behind the convolution gives bit for bit what it gives when
/// it is applied to the convolution's output.
#[test]
fn depthwise_with_fused_max_matches_separate_max() {
    let (n, c, h, w, kh, kw) = (1, 8, 6, 6, 3, 3);
    let args = inputs(n, c, h, w, kh, kw);
    let raw = plain(n, c, h, w, kh, kw);
    let fused = raw
        .fuse(&site(BinOp::Max, true, 0.0))
        .expect("expected DepthWise with post_ops after fuse pass");
    assert_eq!(fused.post_ops.len(), 1);
    assert!(fused.post_ops[0].same(&DepthWisePostOp::ScalarMax(F(0.0))));
    let candidate = fused.eval(DatumType::F32, &args).unwrap();
    let baseline: Vec<f32> =
        raw.eval(DatumType::F32, &args).unwrap().data.iter().map(|v| v.0.max(0.0)).collect();
    assert_eq!(baseline.len(), candidate.data.len());
    for (i, (a, b)) in baseline.iter().zip(candidate.data.iter()).enumerate() {
        assert_eq!(a.to_bits(), b.0.to_bits(), "bit-identity mismatch at output index {i}");
    }
    // Some elements were below zero, and some not.
    assert!(baseline.iter().any(|v| *v == 0.0) && baseline.iter().any(|v| *v > 0.0));
}

#[test]
fn every_point_sums_its_products() {
    let (n, c, h, w, kh, kw) = (2, 3, 5, 4, 3, 2);
    let args = inputs(n, c, h, w, kh, kw);
    let out = plain(n, c, h, w, kh, kw).eval(DatumType::F32, &args).unwrap();
    assert_eq!(out.shape, vec![2, 3, 3, 3]);
    for b in 0..n {
        for ch in 0..c {
            for y in 0..3 {
                for x in 0..3 {
                    let mut sum = args[2].data[ch].0;
                    for ky in 0..kh {
                        for kx in 0..kw {
                            let at = ((b * c + ch) * h + y + ky) * w + x + kx;
                            sum += args[1].data[(ch * kh + ky) * kw + kx].0 * args[0].data[at].0;
                        }
                    }
                    assert_eq!(out.data[((b * c + ch) * 3 + y) * 3 + x], F(sum));
                }
            }
        }
    }
}

#[test]
fn four_elements_of_the_kernel_sum_alike() {
    let args = inputs(1, 1, 3, 3, 2, 2);
    let out = plain(1, 1, 3, 3, 2, 2).eval(DatumType::F32, &args).unwrap();
    let (x, k) = (&args[0].data, &args[1].data);
    let mut sum = args[2].data[0].0;
    for (xi, ki) in [(4, 0), (5, 1), (7, 2), (8, 3)] {
        sum += x[xi].0 * k[ki].0;
    }
    assert_eq!(out.data[3], F(sum));
}

#[test]
fn fused_operations_are_applied_in_order() {
    let mut dw = plain(1, 1, 2, 2, 1, 1);
    for op in [
        DepthWisePostOp::ScalarAdd(F(1.0)),
        DepthWisePostOp::ScalarMul(F(3.0)),
        DepthWisePostOp::ScalarSub(F(2.0)),
        DepthWisePostOp::ScalarSubF(F(20.0)),
        DepthWisePostOp::ScalarMin(F(18.0)),
        DepthWisePostOp::ScalarMax(F(-5.0)),
    ] {
        dw.post_ops.push(op);
    }
    assert_eq!(dw.apply_post_ops_f32(F(2.0)), F(13.0));
    assert_eq!(dw.apply_post_ops_f32(F(0.0)), F(18.0));
    assert_eq!(dw.apply_post_ops_f32(F(100.0)), F(-5.0));
    // Elements of another type are left as they are.
    let args = inputs(1, 1, 2, 2, 1, 1);
    let raw = plain(1, 1, 2, 2, 1, 1).eval(DatumType::F16, &args).unwrap();
    assert_eq!(dw.eval(DatumType::F16, &args).unwrap().data, raw.data);
    assert_ne!(dw.eval(DatumType::F32, &args).unwrap().data, raw.data);
}

#[test]
fn fused_operations_are_applied_to_the_plain_convolution() {
    let args = inputs(2, 3, 5, 4, 3, 2);
    let raw = plain(2, 3, 5, 4, 3, 2);
    let fused = raw
        .fuse(&site(BinOp::Mul, true, 3.0))
        .and_then(|dw| dw.fuse(&site(BinOp::Sub, false, 1.0)))
        .and_then(|dw| dw.fuse(&site(BinOp::Min, true, 0.5)))
        .unwrap();
    let y = raw.eval(DatumType::F32, &args).unwrap();
    let z = fused.eval(DatumType::F32, &args).unwrap();
    assert_eq!(z.shape, y.shape);
    for (a, b) in y.data.iter().zip(&z.data) {
        assert_eq!(fused.apply_post_ops_f32(*a), *b);
        assert_eq!((1.0 - a.0 * 3.0).min(0.5), b.0);
    }
}

#[test]
fn a_number_on_either_side_is_fused() {
    let dw = plain(1, 1, 2, 2, 1, 1);
    let key = |op: BinOp, flipped: bool| {
        dw.fuse(&site(op, flipped, 6.0)).unwrap().post_ops[0].hash_key()
    };
    let bits = 6.0f32.to_bits();
    assert_eq!(key(BinOp::Max, true), (0, bits));
    assert_eq!(key(BinOp::Min, false), (1, bits));
    assert_eq!(key(BinOp::Add, true), (2, bits));
    assert_eq!(key(BinOp::Mul, false), (3, bits));
    assert_eq!(key(BinOp::Sub, true), (4, bits));
    assert_eq!(key(BinOp::Sub, false), (5, bits));
    assert_eq!(key(BinOp::SubF, false), (4, bits));
    assert_eq!(key(BinOp::SubF, true), (5, bits));
}

#[test]
fn fusing_keeps_the_meaning() {
    let dw = plain(1, 1, 2, 2, 1, 1);
    let (x, c) = (1.0f32, 2.0f32);
    let apply = |op: BinOp, flipped: bool| {
        dw.fuse(&site(op, flipped, c)).unwrap().apply_post_ops_f32(F(x))
    };
    // The convolution minus the number, and the number minus the convolution.
    assert_eq!(apply(BinOp::Sub, true), F(x - c));
    assert_eq!(apply(BinOp::Sub, false), F(c - x));
    assert_eq!(apply(BinOp::SubF, true), F(c - x));
    assert_eq!(apply(BinOp::SubF, false), F(x - c));
    for flipped in [false, true] {
        assert_eq!(apply(BinOp::Add, flipped), F(3.0));
        assert_eq!(apply(BinOp::Mul, flipped), F(2.0));
        assert_eq!(apply(BinOp::Min, flipped), F(1.0));
        assert_eq!(apply(BinOp::Max, flipped), F(2.0));
    }
}

#[test]
fn what_cannot_be_fused_is_left() {
    let dw = plain(1, 1, 2, 2, 1, 1);
    let good = site(BinOp::Max, true, 0.0);
    assert!(dw.fuse(&good).is_some());
    assert!(dw.fuse(&Site { outputs: 2, ..good }).is_none());
    assert!(dw.fuse(&Site { consumers: 2, ..good }).is_none());
    assert!(dw.fuse(&Site { is_model_output: true, ..good }).is_none());
    assert!(dw.fuse(&Site { datum_type: DatumType::F16, ..good }).is_none());
    assert!(dw.fuse(&Site { successor: None, ..good }).is_none());
    let mut many = good;
    if let Some(node) = &mut many.successor {
        node.second.uniform =
            Some(Uniform { datum_type: DatumType::F32, len: 2, value: F(0.0) });
    }
    assert!(dw.fuse(&many).is_none());
    let mut unknown = good;
    if let Some(node) = &mut unknown.successor {
        node.op = None;
    }
    assert!(dw.fuse(&unknown).is_none());
}

#[test]
fn numbers_are_told_apart_by_their_bits() {
    let zero = DepthWisePostOp::ScalarAdd(F(0.0));
    assert!(zero.same(&DepthWisePostOp::ScalarAdd(F(0.0))));
    assert!(!zero.same(&DepthWisePostOp::ScalarAdd(F(-0.0))));
    assert!(!zero.same(&DepthWisePostOp::ScalarMul(F(0.0))));
    let nan = DepthWisePostOp::ScalarMul(F(f32::NAN));
    assert!(nan.same(&nan));
}

#[test]
fn facts_and_cost_follow_the_shapes() {
    let dw = plain(2, 3, 5, 4, 3, 2);
    let fact = |shape: &[usize]| TypedFact {
        datum_type: DatumType::F32,
        shape: shape.iter().map(|n| Dim::of_count(*n)).collect(),
    };
    let (x, k, b) = (fact(&[2, 3, 5, 4]), fact(&[1, 3, 3, 2]), fact(&[3]));
    let out = dw.output_facts(&[&x, &k, &b]).unwrap();
    assert_eq!(out[0].shape, fact(&[2, 3, 3, 3]).shape);
    let (dt, fma) = dw.cost(&[&x, &k, &b]).unwrap();
    assert_eq!((dt, fma), (DatumType::F32, Dim::of_count(18 * 2 * 9)));
    assert!(matches!(dw.output_facts(&[&x]), Err(DepthWiseError::InputCount)));
    assert!(matches!(dw.cost(&[&x]), Err(DepthWiseError::InputCount)));
    assert!(matches!(dw.output_facts(&[&x, &k, &fact(&[4])]), Err(DepthWiseError::Bias)));
    let mut odd = dw.clone();
    odd.output_shape.c = 4;
    assert!(matches!(odd.output_facts(&[&x, &k, &b]), Err(DepthWiseError::Channels)));
    assert!(matches!(dw.eval(DatumType::F32, &[]), Err(DepthWiseError::InputCount)));
    let args = inputs(2, 3, 5, 4, 3, 2);
    for dt in [DatumType::F16, DatumType::F32, DatumType::F64] {
        assert!(dw.eval(dt, &args).is_ok());
    }
    for dt in [DatumType::I32, DatumType::U8, DatumType::Bool] {
        assert!(matches!(dw.eval(dt, &args), Err(DepthWiseError::DatumType)));
    }
    assert_eq!(dw.name(), "DepthWiseConv");
    assert_eq!(dw.validation(), Validation::Rounding);
    assert!(dw.is_stateless());
    assert_eq!(DatumType::F16.size_of(), 2);
    assert!(DatumType::F64.is_float() && !DatumType::I32.is_float());
}
