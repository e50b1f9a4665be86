use std::collections::BTreeMap;

use infer_kernels::datum::DatumType;
use infer_kernels::dims::DimLike;
use infer_kernels::fact::TypedFact;
use infer_kernels::gpu::{
    natural_strides_of, Access, Argument, AttnParams, Constant, DeviceTensor, Launch, LibraryName,
    Plan, Role, RowStrides, Size,
};
use infer_kernels::gpu_ops::{
    dispatch_attend, metal_pow_const_dispatch, GpuPowConst, PowConst, PowError,
};
use infer_kernels::graph::SdpaScale;
use infer_kernels::mlx_sdpa::{
    dispatch_mlx_sdpa, ensure_natural, mlx_sdpa_supported, steel_tname, translate_sdpa,
    vector_tname, MetalMlxSdpa, MlxError, Translation,
};
use infer_kernels::scalar::Scalar;

const VECTORIZED: bool = false;

/// Single precision, with the machine's operations.
#[derive(Clone, Copy, Debug, PartialEq)]
struct F(f32);

impl Scalar for F {
    fn zero() -> F {
        F(0.0)
    }
    fn one() -> F {
        F(1.0)
    }
    fn infinity() -> F {
        F(f32::INFINITY)
    }
    fn neg_infinity() -> F {
        F(f32::NEG_INFINITY)
    }
    fn of_count(n: usize) -> F {
        F(n as f32)
    }
    fn plus(self, other: F) -> F {
        F(self.0 + other.0)
    }
    fn minus(self, other: F) -> F {
        F(self.0 - other.0)
    }
    fn times(self, other: F) -> F {
        F(self.0 * other.0)
    }
    fn over(self, other: F) -> F {
        F(self.0 / other.0)
    }
    fn larger(self, other: F) -> F {
        F(self.0.max(other.0))
    }
    fn smaller(self, other: F) -> F {
        F(self.0.min(other.0))
    }
    fn clamped(self, low: F, high: F) -> F {
        F(self.0.clamp(low.0, high.0))
    }
    fn fused(self, by: F, onto: F) -> F {
        F(self.0.mul_add(by.0, onto.0))
    }
    fn negated(self) -> F {
        F(-self.0)
    }
    fn rounded(self) -> F {
        F(self.0.round())
    }
    fn exponential(self) -> F {
        F(self.0.exp())
    }
    fn reciprocal(self) -> F {
        F(self.0.recip())
    }
    fn square_root(self) -> F {
        F(self.0.sqrt())
    }
    fn below(self, other: F) -> bool {
        self.0 < other.0
    }
    fn equal(self, other: F) -> bool {
        self.0 == other.0
    }
    fn finite(self) -> bool {
        self.0.is_finite()
    }
    fn to_code(self) -> u8 {
        self.0 as u8
    }
    fn to_bits(self) -> u32 {
        self.0.to_bits()
    }
    fn vectorized() -> bool {
        VECTORIZED
    }
    fn dot(xs: &[F], ys: &[F]) -> F {
        F(xs.iter().zip(ys).map(|(x, y)| x.0 * y.0).sum())
    }
    fn total(xs: &[F]) -> F {
        F(xs.iter().map(|x| x.0).sum())
    }
}

/// What a linear expression is made of: symbols, and coordinates along axes.
#[derive(Clone, Copy, Debug, PartialEq, Eq, PartialOrd, Ord)]
enum Atom {
    Symbol(u64),
    Coordinate(usize),
}

/// A constant plus multiples of atoms, none of them zero.
#[derive(Clone, Debug, PartialEq, Eq)]
struct Dim {
    constant: i64,
    terms: BTreeMap<Atom, i64>,
}

impl Dim {
    fn constant(constant: i64) -> Dim {
        Dim { constant, terms: BTreeMap::new() }
    }
    fn atom(a: Atom) -> Dim {
        Dim { constant: 0, terms: BTreeMap::from([(a, 1)]) }
    }
    fn scaled(&self, by: i64) -> Dim {
        let terms = self.terms.iter().map(|(a, n)| (*a, n * by)).filter(|t| t.1 != 0).collect();
        Dim { constant: self.constant * by, terms }
    }
}

impl DimLike for Dim {
    fn zero() -> Dim {
        Dim::constant(0)
    }
    fn of_count(n: usize) -> Dim {
        Dim::constant(n as i64)
    }
    fn duplicate(&self) -> Dim {
        self.clone()
    }
    fn sum(&self, other: &Dim) -> Dim {
        let mut terms = self.terms.clone();
        for (a, n) in &other.terms {
            *terms.entry(*a).or_insert(0) += n;
        }
        terms.retain(|_, n| *n != 0);
        Dim { constant: self.constant + other.constant, terms }
    }
    fn difference(&self, other: &Dim) -> Dim {
        self.sum(&other.scaled(-1))
    }
    fn product(&self, other: &Dim) -> Dim {
        if other.terms.is_empty() {
            self.scaled(other.constant)
        } else {
            assert!(self.terms.is_empty(), "only linear expressions are built here");
            other.scaled(self.constant)
        }
    }
    fn same(&self, other: &Dim) -> bool {
        self == other
    }
    fn is_zero(&self) -> bool {
        *self == Dim::zero()
    }
    fn proves_nonneg(&self) -> bool {
        self.constant >= 0 && self.terms.values().all(|n| *n >= 0)
    }
    fn to_usize(&self) -> Option<usize> {
        if self.terms.is_empty() {
            usize::try_from(self.constant).ok()
        } else {
            None
        }
    }
    fn symbol(&self) -> Option<u64> {
        match (self.constant, self.terms.len(), self.terms.first_key_value()) {
            (0, 1, Some((Atom::Symbol(s), 1))) => Some(*s),
            _ => None,
        }
    }
    fn coordinate(axis: usize) -> Dim {
        Dim::atom(Atom::Coordinate(axis))
    }
    fn mentions(&self, axis: usize) -> bool {
        self.terms.contains_key(&Atom::Coordinate(axis))
    }
    fn substitute(&self, axis: usize, by: &Dim) -> Option<Dim> {
        let a = Atom::Coordinate(axis);
        let times = self.terms.get(&a).copied().unwrap_or(0);
        let rest = self.difference(&Dim::atom(a).scaled(times));
        Some(rest.sum(&by.scaled(times)))
    }
}

fn device(datum_type: DatumType, shape: &[usize]) -> DeviceTensor {
    let shape = shape.to_vec();
    let strides = natural_strides_of(&shape);
    DeviceTensor { datum_type, shape, strides }
}

fn fact(datum_type: DatumType, shape: &[usize]) -> TypedFact<Dim> {
    TypedFact { datum_type, shape: shape.iter().map(|n| Dim::of_count(*n)).collect() }
}

fn size(width: u64, height: u64, depth: u64) -> Size {
    Size { width, height, depth }
}

/// One attention: its type, its extents and its mask.
struct Case {
    dt: DatumType,
    b: usize,
    hq: usize,
    hkv: usize,
    ql: usize,
    kl: usize,
    d: usize,
    is_causal: bool,
}

impl Case {
    fn plan(&self) -> Plan<F> {
        let q = device(self.dt, &[self.b, self.hq, self.ql, self.d]);
        let kv = device(self.dt, &[self.b, self.hkv, self.kl, self.d]);
        let scale = (self.d as f32).recip().sqrt();
        // What is launched is also found to be supported.
        let qf = fact(self.dt, &q.shape);
        let kvf = fact(self.dt, &kv.shape);
        assert!(mlx_sdpa_supported(DatumType::F32, &[&qf, &kvf, &kvf]));
        let op = MetalMlxSdpa { scale: F(scale), is_causal: self.is_causal };
        op.eval_with_session(&[q.clone(), kv.clone(), kv.clone()], &q).unwrap()
    }

    fn gqa(&self) -> i32 {
        (self.hq / self.hkv) as i32
    }
}

#[allow(clippy::too_many_arguments)]
fn case(
    dt: DatumType,
    b: usize,
    hq: usize,
    hkv: usize,
    ql: usize,
    kl: usize,
    d: usize,
    is_causal: bool,
) -> Case {
    Case { dt, b, hq, hkv, ql, kl, d, is_causal }
}

fn causal_of(launch: &Launch<F>, index: u32) -> bool {
    launch.constants.iter().any(|c| *c == (index, Constant::Bool(true)))
}

fn int_at(launch: &Launch<F>, index: u32) -> i32 {
    for (i, a) in &launch.arguments {
        if let (true, Argument::I32(n)) = (*i == index, a) {
            return *n;
        }
    }
    panic!("no integer at {index}")
}

fn tensor_at(launch: &Launch<F>, index: u32) -> (Role, Access) {
    for (i, a) in &launch.arguments {
        if let (true, Argument::Tensor(role, access)) = (*i == index, a) {
            return (*role, *access);
        }
    }
    panic!("no tensor at {index}")
}

fn u64_at(launch: &Launch<F>, index: u32) -> u64 {
    for (i, a) in &launch.arguments {
        if let (true, Argument::U64(n)) = (*i == index, a) {
            return *n;
        }
    }
    panic!("no count at {index}")
}

/// The vector kernel in one pass, one group of 1024 threads per query row.
fn vector_1pass(c: Case, kernel: &str, causal: bool) {
    let plan = c.plan();
    assert!(plan.scratch.is_empty());
    assert_eq!(plan.launches.len(), 1);
    let l = &plan.launches[0];
    assert_eq!((l.library, l.kernel.as_str()), (LibraryName::MlxSdpa, kernel));
    assert_eq!(causal_of(l, 22), causal);
    assert_eq!(l.constants.len(), 6);
    assert_eq!(tensor_at(l, 0), (Role::Q, Access::Read));
    assert_eq!(tensor_at(l, 3), (Role::Output, Access::Write));
    assert_eq!((int_at(l, 4), int_at(l, 5)), (c.gqa(), c.kl as i32));
    assert_eq!(u64_at(l, 6), (c.kl * c.d) as u64);
    assert_eq!(u64_at(l, 9), c.d as u64);
    assert_eq!(l.grid, size((c.b * c.hq) as u64, c.ql as u64, 1));
    assert_eq!(l.group, size(1024, 1, 1));
}

/// The vector kernels in two passes, over 32 blocks of keys.
fn vector_2pass(c: Case, kernels: [&str; 2], causal: bool) {
    let plan = c.plan();
    let shapes: Vec<(Role, DatumType, Vec<usize>)> =
        plan.scratch.iter().map(|s| (s.role, s.datum_type, s.shape.clone())).collect();
    assert_eq!(
        shapes,
        vec![
            (Role::Partials, c.dt, vec![c.b, c.hq, c.ql, 32, c.d]),
            (Role::Sums, DatumType::F32, vec![c.b, c.hq, c.ql, 32]),
            (Role::Maxs, DatumType::F32, vec![c.b, c.hq, c.ql, 32]),
        ]
    );
    assert_eq!(plan.launches.len(), 2);
    let (one, two) = (&plan.launches[0], &plan.launches[1]);
    assert_eq!([one.kernel.as_str(), two.kernel.as_str()], kernels);
    assert_eq!(causal_of(one, 22), causal);
    assert_eq!(one.constants[6], (26, Constant::I32(32)));
    assert!(two.constants.is_empty());
    assert_eq!(tensor_at(one, 3), (Role::Partials, Access::Write));
    assert_eq!(tensor_at(two, 0), (Role::Partials, Access::Read));
    assert_eq!(tensor_at(two, 3), (Role::Output, Access::Write));
    assert_eq!(int_at(one, 7), c.kl as i32);
    assert_eq!(u64_at(one, 10), (c.kl * c.d) as u64);
    assert_eq!(int_at(two, 4), 32);
    assert_eq!(one.grid, size(c.hkv as u64, c.b as u64, 32));
    assert_eq!(one.group, size(32, c.gqa() as u64, c.ql as u64));
    assert_eq!(two.grid, size((c.b * c.hq) as u64, c.ql as u64, 1));
    assert_eq!(two.group, size(1024, 1, 1));
}

/// The tiled kernel: 32 queries to a tile, `bk` keys.
fn steel(c: Case, kernel: &str, bk: usize) {
    let plan = c.plan();
    assert_eq!(plan.launches.len(), 1);
    let l = &plan.launches[0];
    assert_eq!((l.library, l.kernel.as_str()), (LibraryName::MlxSdpa, kernel));
    assert_eq!(
        l.constants,
        vec![
            (200, Constant::Bool(c.ql % 32 == 0)),
            (201, Constant::Bool(c.kl % bk == 0)),
            (300, Constant::Bool(false)),
            (301, Constant::Bool(c.is_causal)),
            (302, Constant::Bool(false)),
        ]
    );
    let p: AttnParams<F> = match l.arguments[4] {
        (4, Argument::Attn(p)) => p,
        _ => panic!("no parameters"),
    };
    assert_eq!([p.b, p.h, p.d, p.ql, p.kl, p.gqa_factor], [
        c.b as i32,
        c.hq as i32,
        c.d as i32,
        c.ql as i32,
        c.kl as i32,
        c.gqa(),
    ]);
    assert_eq!([p.nq, p.nq_aligned, p.ql_rem], [
        c.ql.div_ceil(32) as i32,
        (c.ql / 32) as i32,
        (c.ql % 32) as i32,
    ]);
    assert_eq!([p.nk, p.nk_aligned, p.kl_rem], [
        c.kl.div_ceil(bk) as i32,
        (c.kl / bk) as i32,
        (c.kl % bk) as i32,
    ]);
    // Queries stand at the end of the keys.
    assert_eq!(p.ql_off, (c.kl - c.ql) as i32);
    assert_eq!(p.scale, F((c.d as f32).recip().sqrt()));
    let rows = |h: usize, n: usize| RowStrides {
        batch: (h * n * c.d) as i64,
        head: (n * c.d) as i64,
        row: c.d as i64,
    };
    assert_eq!((p.q_strides, p.o_strides), (rows(c.hq, c.ql), rows(c.hq, c.ql)));
    assert_eq!((p.k_strides, p.v_strides), (rows(c.hkv, c.kl), rows(c.hkv, c.kl)));
    assert_eq!(l.grid, size(c.ql.div_ceil(32) as u64, c.hq as u64, c.b as u64));
    assert_eq!(l.group, size(32, 4, 1));
}

#[test]
fn vector_1pass_f32() {
    vector_1pass(case(DatumType::F32, 1, 8, 8, 1, 64, 64, false), "sdpa_vector_float_64_64", false);
}

#[test]
fn vector_1pass_f32_gqa() {
    let c = case(DatumType::F32, 1, 8, 2, 4, 128, 128, false);
    vector_1pass(c, "sdpa_vector_float_128_128", false);
}

#[test]
fn vector_1pass_f32_causal() {
    let c = case(DatumType::F32, 1, 4, 4, 4, 64, 64, true);
    vector_1pass(c, "sdpa_vector_float_64_64", true);
}

#[test]
fn vector_1pass_f16() {
    let c = case(DatumType::F16, 1, 8, 8, 1, 256, 96, false);
    vector_1pass(c, "sdpa_vector_float16_t_96_96", false);
    let c = case(DatumType::F16, 1, 8, 8, 1, 256, 256, false);
    vector_1pass(c, "sdpa_vector_float16_t_256_256", false);
}

#[test]
fn vector_1pass_batched() {
    let c = case(DatumType::F32, 3, 4, 2, 2, 65, 64, false);
    vector_1pass(c, "sdpa_vector_float_64_64", false);
}

#[test]
fn vector_2pass_f32() {
    let c = case(DatumType::F32, 1, 8, 8, 1, 2048, 64, false);
    vector_2pass(c, ["sdpa_vector_2pass_1_float_64_64", "sdpa_vector_2pass_2_float_64"], false);
}

#[test]
fn vector_2pass_f32_gqa_causal() {
    let c = case(DatumType::F32, 1, 8, 2, 4, 1536, 128, true);
    vector_2pass(c, ["sdpa_vector_2pass_1_float_128_128", "sdpa_vector_2pass_2_float_128"], true);
}

#[test]
fn vector_2pass_f16() {
    let c = case(DatumType::F16, 2, 4, 4, 2, 1024, 64, false);
    let kernels = ["sdpa_vector_2pass_1_float16_t_64_64", "sdpa_vector_2pass_2_float16_t_64"];
    vector_2pass(c, kernels, false);
}

#[test]
fn steel_f32_aligned() {
    let c = case(DatumType::F32, 1, 4, 4, 64, 64, 64, false);
    steel(c, "steel_attention_float32_bq32_bk32_bd64_wm4_wn1_maskfloat32", 32);
}

#[test]
fn steel_f32_unaligned() {
    let c = case(DatumType::F32, 1, 4, 4, 37, 53, 64, false);
    steel(c, "steel_attention_float32_bq32_bk32_bd64_wm4_wn1_maskfloat32", 32);
}

#[test]
fn steel_f32_gqa() {
    let c = case(DatumType::F32, 1, 8, 2, 128, 128, 128, false);
    steel(c, "steel_attention_float32_bq32_bk16_bd128_wm4_wn1_maskfloat32", 16);
}

#[test]
fn steel_f32_causal() {
    let c = case(DatumType::F32, 1, 4, 4, 96, 160, 64, true);
    steel(c, "steel_attention_float32_bq32_bk32_bd64_wm4_wn1_maskfloat32", 32);
}

#[test]
fn steel_f32_d80() {
    let c = case(DatumType::F32, 1, 4, 4, 64, 64, 80, false);
    steel(c, "steel_attention_float32_bq32_bk32_bd80_wm4_wn1_maskfloat32", 32);
}

#[test]
fn steel_f16() {
    let c = case(DatumType::F16, 1, 4, 4, 64, 96, 128, false);
    steel(c, "steel_attention_float16_bq32_bk16_bd128_wm4_wn1_maskfloat16", 16);
}

#[test]
fn steel_f16_gqa_causal_unaligned() {
    let c = case(DatumType::F16, 2, 8, 4, 33, 47, 64, true);
    steel(c, "steel_attention_float16_bq32_bk32_bd64_wm4_wn1_maskfloat16", 32);
}

// A single query of a width that only the tiled kernel serves goes there.
#[test]
fn steel_decode_d80() {
    let c = case(DatumType::F32, 1, 4, 4, 1, 100, 80, false);
    steel(c, "steel_attention_float32_bq32_bk32_bd80_wm4_wn1_maskfloat32", 32);
}

// What is launched for all tokens, and for the first half of them.
#[test]
fn kv_int4_dispatch_matches_cpu() {
    let (t, d) = (48usize, 64usize);
    let scale = 1.0f32 / (d as f32).sqrt();
    let k_scale = device(DatumType::F32, &[t]);
    for valid in [t, t / 2] {
        let l = dispatch_attend(&k_scale, d, valid, F(scale));
        assert_eq!((l.library, l.kernel.as_str()), (LibraryName::KvInt4, "kv_int4_attend_simd"));
        for (i, role) in [Role::Q, Role::KPacked, Role::KScale, Role::VPacked, Role::VScale]
            .into_iter()
            .enumerate()
        {
            assert_eq!(tensor_at(&l, i as u32), (role, Access::Read));
        }
        match l.arguments[5] {
            (5, Argument::U32x4(a, b, c, 0)) => {
                assert_eq!((a, b, c), (t as u32, d as u32, valid as u32));
            }
            _ => panic!("no extents"),
        }
        assert!(matches!(l.arguments[6], (6, Argument::Number(s)) if s == F(scale)));
        assert_eq!(tensor_at(&l, 7), (Role::Output, Access::Write));
        assert_eq!((l.grid, l.group), (size(1, 1, 1), size(64, 1, 1)));
    }
}

#[test]
fn attentions_that_do_not_fit_are_refused() {
    let run = |q: &DeviceTensor, k: &DeviceTensor, v: &DeviceTensor, causal: bool| {
        dispatch_mlx_sdpa(F(1.0), causal, q, k, v, q).map(|p| p.launches.len())
    };
    let dt = DatumType::F32;
    let q = device(dt, &[1, 4, 16, 64]);
    let k = device(dt, &[1, 2, 32, 64]);
    assert_eq!(run(&q, &k, &k, false), Ok(1));
    assert_eq!(run(&device(DatumType::I32, &[1, 4, 16, 64]), &k, &k, false), Err(MlxError::DatumType));
    assert_eq!(run(&q, &device(dt, &[2, 32, 64]), &k, false), Err(MlxError::Rank));
    assert_eq!(run(&q, &device(dt, &[1, 2, 32, 80]), &k, false), Err(MlxError::HeadDims));
    assert_eq!(run(&q, &k, &device(dt, &[1, 2, 31, 64]), false), Err(MlxError::Layout));
    let three = device(dt, &[1, 3, 32, 64]);
    assert_eq!(run(&q, &three, &three, false), Err(MlxError::Heads));
    let mut gaps = k.clone();
    gaps.strides[1] += 1;
    assert_eq!(run(&q, &gaps, &k, false), Err(MlxError::NotContiguous(Role::K)));
    assert_eq!(ensure_natural(&gaps, Role::V), Err(MlxError::NotContiguous(Role::V)));
    let wide = device(dt, &[1, 4, 16, 96]);
    assert_eq!(run(&wide, &wide, &wide, false), Err(MlxError::NoKernel));
    let short = device(dt, &[1, 2, 8, 64]);
    assert_eq!(run(&q, &short, &short, true), Err(MlxError::CausalLength));
    assert_eq!(run(&q, &short, &short, false), Ok(1));
    let op = MetalMlxSdpa { scale: F(1.0), is_causal: false };
    assert!(matches!(op.eval_with_session(&[], &q), Err(MlxError::InputCount)));
    // A mask says nothing to a single query.
    let one = device(dt, &[1, 4, 1, 64]);
    let plan = dispatch_mlx_sdpa(F(1.0), true, &one, &k, &k, &one).unwrap();
    assert!(!causal_of(&plan.launches[0], 22));
}

#[test]
fn support_goes_by_what_is_known() {
    let dt = DatumType::F16;
    let q = fact(dt, &[1, 4, 16, 64]);
    let k = fact(dt, &[1, 2, 32, 64]);
    let ok = |q: &TypedFact<Dim>, k: &TypedFact<Dim>| mlx_sdpa_supported(DatumType::F32, &[q, k, k]);
    assert!(ok(&q, &k));
    assert!(!mlx_sdpa_supported(DatumType::I32, &[&q, &k, &k]));
    assert!(!mlx_sdpa_supported(DatumType::F32, &[&q, &k, &k, &k]));
    assert!(!ok(&fact(dt, &[1, 5, 16, 64]), &k));
    assert!(!ok(&fact(DatumType::F64, &[1, 4, 16, 64]), &k));
    let mut open = k.duplicate();
    open.shape[2] = Dim::atom(Atom::Symbol(0));
    // The tiled kernel takes any length; the vector kernels have to know.
    assert!(ok(&q, &open));
    let (q96, mut k96) = (fact(dt, &[1, 4, 2, 96]), fact(dt, &[1, 2, 32, 96]));
    assert!(ok(&q96, &k96));
    assert!(!ok(&fact(dt, &[1, 4, 9, 96]), &k96));
    k96.shape[2] = Dim::atom(Atom::Symbol(0));
    assert!(!ok(&q96, &k96));
    assert!(!ok(&fact(dt, &[1, 4, 2, 72]), &fact(dt, &[1, 2, 32, 72])));
}

#[test]
fn the_first_set_of_kernels_is_preferred() {
    let pick = |mlx: bool, mfa: bool, d: Option<usize>, scale: SdpaScale<F>| {
        translate_sdpa(mlx, mfa, d, scale, true)
    };
    assert!(matches!(pick(false, false, None, SdpaScale::Usual), Ok(None)));
    assert!(matches!(pick(true, true, None, SdpaScale::Usual), Err(MlxError::UnknownWidth)));
    assert!(matches!(pick(true, true, Some(64), SdpaScale::NotScalar), Err(MlxError::Scale)));
    match pick(true, true, Some(64), SdpaScale::Usual) {
        Ok(Some(Translation::Mlx(op))) => {
            assert!(op.same(&MetalMlxSdpa { scale: F(0.125), is_causal: true }));
        }
        other => panic!("{other:?}"),
    }
    assert!(matches!(
        pick(false, true, Some(64), SdpaScale::Value(F(2.0))),
        Ok(Some(Translation::Mfa { scale: F(s), is_causal: true })) if s == 2.0
    ));
}

#[test]
fn types_have_their_words() {
    assert_eq!(vector_tname(DatumType::F16), Ok("float16_t"));
    assert_eq!(steel_tname(DatumType::F32), Ok("float32"));
    assert_eq!(vector_tname(DatumType::U8), Err(MlxError::DatumType));
    assert_eq!(steel_tname(DatumType::F64), Err(MlxError::DatumType));
    assert_eq!(natural_strides_of(&vec![2, 3, 4]), vec![12, 4, 1]);
    assert_eq!(natural_strides_of(&vec![]), Vec::<isize>::new());
}

#[test]
fn powers_are_launched_element_by_element() {
    let x = device(DatumType::F16, &[2, 3]);
    let l = metal_pow_const_dispatch(F(0.5), &x, &x, "f16").unwrap();
    assert_eq!((l.library, l.kernel.as_str()), (LibraryName::NNOps, "nn_ops::pow_const_f16"));
    assert_eq!((l.grid, l.group), (size(6, 1, 1), size(1, 1, 1)));
    assert_eq!(tensor_at(&l, 0), (Role::Input, Access::Read));
    assert_eq!(tensor_at(&l, 1), (Role::Output, Access::Write));
    assert!(matches!(l.arguments[2], (2, Argument::Number(F(e))) if e == 0.5));
    let run = |a: &DeviceTensor, b: &DeviceTensor| {
        PowConst.dispatch_eval(a, F(2.0), b, "t").map(|l| l.kernel)
    };
    assert_eq!(run(&x, &device(DatumType::F16, &[3, 2])), Err(PowError::Shape));
    assert_eq!(run(&x, &device(DatumType::F32, &[2, 3])), Err(PowError::DatumType));
    let i = device(DatumType::I32, &[2, 3]);
    assert_eq!(run(&i, &i), Err(PowError::Unsupported));
    assert!(PowConst::is_supported_dt(DatumType::F32));
    assert_eq!(PowConst.kernel_name(DatumType::I8, "i8"), Err(PowError::Unsupported));
}

#[test]
fn operators_on_the_device_say_what_they_are() {
    let op = GpuPowConst::new(F(0.5), "Metal");
    assert_eq!(op.name(), "MetalPowConst");
    assert_eq!(op.text("0.5"), "MetalPowConst(exponent: 0.5)");
    assert_eq!(op.hash_key(), ("Metal", 0.5f32.to_bits()));
    assert!(op.same(&GpuPowConst::new(F(0.5), "Metal")));
    assert!(!op.same(&GpuPowConst::new(F(0.5), "Cuda")));
    // Not by bit pattern: no number equals what is not one.
    let nan = GpuPowConst::new(F(f32::NAN), "Metal");
    assert!(!nan.same(&nan));
    assert!(op.is_stateless());
    let x = device(DatumType::F16, &[2, 3]);
    let (dt, shape) = op.eval_with_session(&[x]).unwrap();
    assert_eq!((dt, shape), (DatumType::F16, vec![2, 3]));
    assert!(matches!(op.eval_with_session(&[]), Err(PowError::InputCount)));
    let f = fact(DatumType::F32, &[4, 5]);
    assert_eq!(op.output_facts(&[&f]).shape, f.shape);
    let sdpa = MetalMlxSdpa { scale: F(0.25), is_causal: true };
    assert_eq!(sdpa.name(), "MetalMlxSdpa");
    assert_eq!(sdpa.info("0.25"), vec!["scale=0.25 causal=true".to_string()]);
    assert_eq!(sdpa.hash_key(), (0.25f32.to_bits(), true));
    assert!(sdpa.is_stateless());
    assert_eq!(sdpa.output_facts(&[&f, &f, &f]).shape, f.shape);
}
