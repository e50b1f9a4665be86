use std::collections::BTreeMap;

use infer_kernels::concat::TypedConcat;
use infer_kernels::datum::DatumType;
use infer_kernels::dims::DimLike;
use infer_kernels::dyn_kv_cache::{
    de_quant_dyn_kv_cache, ser_quant_dyn_kv_cache, Binding, CacheError, HeadCache,
    QuantizedDynKeyValueCache,
};
use infer_kernels::fact::TypedFact;
use infer_kernels::graph::{
    fuse_quantized_kv_sdpa_rule, quantize_kv_storage_rule, replace_with_quant_cache,
    walk_kv_to_cache, walk_to_cache_node, DynKeyValueCache, Graph, Node, NodeOp, OutletId, Pass,
    QuantizeKvStorageTransform, QuantizedKvSdpaTransform, RuleError, Sdpa, SdpaScale,
};
use infer_kernels::kv_sdpa::{de_quantized_kv_sdpa, ser_quantized_kv_sdpa, QuantizedKvSdpa};
use infer_kernels::nnef::{Attribute, Invocation, ReadError, TypeName};
use infer_kernels::scalar::Scalar;
use infer_kernels::tensor::NdArray;
use infer_kernels::{dyn_kv_cache, kv_sdpa};

/// Nibbles are read one at a time.
const VECTORIZED: bool = false;

/// Single precision, with the machine's operations.
#[derive(Clone, Copy, Debug, PartialEq)]
struct F(f32);

impl Scalar for F {
    fn zero() -> F {
        F(0.0)
    }
    fn one() -> F {
        F(1.0)
    }
    fn infinity() -> F {
        F(f32::INFINITY)
    }
    fn neg_infinity() -> F {
        F(f32::NEG_INFINITY)
    }
    fn of_count(n: usize) -> F {
        F(n as f32)
    }
    fn plus(self, other: F) -> F {
        F(self.0 + other.0)
    }
    fn minus(self, other: F) -> F {
        F(self.0 - other.0)
    }
    fn times(self, other: F) -> F {
        F(self.0 * other.0)
    }
    fn over(self, other: F) -> F {
        F(self.0 / other.0)
    }
    fn larger(self, other: F) -> F {
        F(self.0.max(other.0))
    }
    fn smaller(self, other: F) -> F {
        F(self.0.min(other.0))
    }
    fn clamped(self, low: F, high: F) -> F {
        F(self.0.clamp(low.0, high.0))
    }
    fn fused(self, by: F, onto: F) -> F {
        F(self.0.mul_add(by.0, onto.0))
    }
    fn negated(self) -> F {
        F(-self.0)
    }
    fn rounded(self) -> F {
        F(self.0.round())
    }
    fn exponential(self) -> F {
        F(self.0.exp())
    }
    fn reciprocal(self) -> F {
        F(self.0.recip())
    }
    fn square_root(self) -> F {
        F(self.0.sqrt())
    }
    fn below(self, other: F) -> bool {
        self.0 < other.0
    }
    fn equal(self, other: F) -> bool {
        self.0 == other.0
    }
    fn finite(self) -> bool {
        self.0.is_finite()
    }
    fn to_code(self) -> u8 {
        self.0 as u8
    }
    fn to_bits(self) -> u32 {
        self.0.to_bits()
    }
    fn vectorized() -> bool {
        VECTORIZED
    }
    fn dot(xs: &[F], ys: &[F]) -> F {
        F(xs.iter().zip(ys).map(|(x, y)| x.0 * y.0).sum())
    }
    fn total(xs: &[F]) -> F {
        F(xs.iter().map(|x| x.0).sum())
    }
}

/// What a linear expression is made of: symbols, and coordinates along axes.
#[derive(Clone, Copy, Debug, PartialEq, Eq, PartialOrd, Ord)]
enum Atom {
    Symbol(u64),
    Coordinate(usize),
}

/// A constant plus multiples of atoms, none of them zero.
#[derive(Clone, Debug, PartialEq, Eq)]
struct Dim {
    constant: i64,
    terms: BTreeMap<Atom, i64>,
}

impl Dim {
    fn constant(constant: i64) -> Dim {
        Dim { constant, terms: BTreeMap::new() }
    }
    fn atom(a: Atom) -> Dim {
        Dim { constant: 0, terms: BTreeMap::from([(a, 1)]) }
    }
    fn scaled(&self, by: i64) -> Dim {
        let terms = self.terms.iter().map(|(a, n)| (*a, n * by)).filter(|t| t.1 != 0).collect();
        Dim { constant: self.constant * by, terms }
    }
}

impl DimLike for Dim {
    fn zero() -> Dim {
        Dim::constant(0)
    }
    fn of_count(n: usize) -> Dim {
        Dim::constant(n as i64)
    }
    fn duplicate(&self) -> Dim {
        self.clone()
    }
    fn sum(&self, other: &Dim) -> Dim {
        let mut terms = self.terms.clone();
        for (a, n) in &other.terms {
            *terms.entry(*a).or_insert(0) += n;
        }
        terms.retain(|_, n| *n != 0);
        Dim { constant: self.constant + other.constant, terms }
    }
    fn difference(&self, other: &Dim) -> Dim {
        self.sum(&other.scaled(-1))
    }
    fn product(&self, other: &Dim) -> Dim {
        if other.terms.is_empty() {
            self.scaled(other.constant)
        } else {
            assert!(self.terms.is_empty(), "only linear expressions are built here");
            other.scaled(self.constant)
        }
    }
    fn same(&self, other: &Dim) -> bool {
        self == other
    }
    fn is_zero(&self) -> bool {
        *self == Dim::zero()
    }
    fn proves_nonneg(&self) -> bool {
        self.constant >= 0 && self.terms.values().all(|n| *n >= 0)
    }
    fn to_usize(&self) -> Option<usize> {
        if self.terms.is_empty() {
            usize::try_from(self.constant).ok()
        } else {
            None
        }
    }
    fn symbol(&self) -> Option<u64> {
        match (self.constant, self.terms.len(), self.terms.first_key_value()) {
            (0, 1, Some((Atom::Symbol(s), 1))) => Some(*s),
            _ => None,
        }
    }
    fn coordinate(axis: usize) -> Dim {
        Dim::atom(Atom::Coordinate(axis))
    }
    fn mentions(&self, axis: usize) -> bool {
        self.terms.contains_key(&Atom::Coordinate(axis))
    }
    fn substitute(&self, axis: usize, by: &Dim) -> Option<Dim> {
        let a = Atom::Coordinate(axis);
        let times = self.terms.get(&a).copied().unwrap_or(0);
        let rest = self.difference(&Dim::atom(a).scaled(times));
        Some(rest.sum(&by.scaled(times)))
    }
}

/// The length of the new tokens.
const S: u64 = 1;
/// The length of the past.
const P: u64 = 2;

fn fact(b: usize, h: usize, length: u64, d: usize) -> TypedFact<Dim> {
    TypedFact {
        datum_type: DatumType::F32,
        shape: vec![
            Dim::of_count(b),
            Dim::of_count(h),
            Dim::atom(Atom::Symbol(length)),
            Dim::of_count(d),
        ],
    }
}

fn cache_op(bits: u32, per_channel: bool) -> QuantizedDynKeyValueCache<Dim> {
    let (b, h, d) = (1usize, 2usize, 8usize);
    QuantizedDynKeyValueCache {
        name: "kv0".to_string(),
        axis: 2,
        bits,
        per_channel,
        past_sequence_fact: fact(b, h, P, d),
        input_sequence_fact: fact(b, h, S, d),
    }
}

fn outlet(node: usize) -> OutletId {
    OutletId { node, slot: 0 }
}

// The quantized cache accumulates like a plain concat and reads back
// near-losslessly at 8 bits.
#[test]
fn quant_cache_accumulates_near_lossless() {
    let mut state = cache_op(8, false).state::<F>();
    let (b, h, d) = (1usize, 2usize, 8usize);
    let mut st = 3u64;
    let mut nf = || {
        st = st.wrapping_mul(6364136223846793005).wrapping_add(1);
        F(((st >> 40) as f32 / (1u64 << 24) as f32) - 0.5)
    };
    let mut acc: Option<NdArray<F>> = None;
    for _ in 0..10 {
        let step =
            NdArray { shape: vec![b, h, 1, d], data: (0..b * h * d).map(|_| nf()).collect() };
        let out = state.eval(&[step.clone()]).unwrap();
        let all = match acc.take() {
            None => step,
            Some(a) => TypedConcat::new(2).eval(&[&a, &step]).unwrap(),
        };
        assert_eq!(out.shape, all.shape);
        for (x, y) in all.data.iter().zip(&out.data) {
            assert!((x.0 - y.0).abs() <= 0.1 + 0.05 * y.0.abs());
            // Two halves of a step of a range of one at most.
            assert!((x.0 - y.0).abs() <= 0.5 / 255.0 + 1e-6);
        }
        acc = Some(all);
    }
    // Ten tokens of eight bytes and two numbers, for each of two heads.
    assert_eq!(state.resident_bytes(), 2 * 10 * (8 + 8));
}

#[test]
fn quant_cache_nnef_round_trip() {
    let op = cache_op(4, true);
    let written = ser_quant_dyn_kv_cache::<F, Dim>(&[outlet(7)], &op);
    assert_eq!(written.id, dyn_kv_cache::register().id);
    let (n, input) = de_quant_dyn_kv_cache(&written).unwrap();
    assert_eq!(n.bits, 4);
    assert!(n.per_channel);
    assert_eq!(n.axis, 2);
    assert_eq!(n.name, "kv0");
    assert_eq!(n.past_sequence_fact.shape, op.past_sequence_fact.shape);
    assert_eq!(n.input_sequence_fact.shape, op.input_sequence_fact.shape);
    assert_eq!(n.past_sequence_fact.datum_type, DatumType::F32);
    assert_eq!(input, outlet(7));
}

// The operator survives being written and read.
#[test]
fn quantized_kv_sdpa_nnef_round_trip() {
    let op = QuantizedKvSdpa { axis: 2, scale: Some(F(0.125)), bits: 8, is_causal: false };
    let inputs = [outlet(0), outlet(1), outlet(2)];
    let written = ser_quantized_kv_sdpa::<F, Dim>(&inputs, &op);
    assert_eq!(written.id, kv_sdpa::register().id);
    let (read, wires) = de_quantized_kv_sdpa(&written).unwrap();
    assert_eq!(read.axis, 2);
    assert_eq!(read.scale, Some(F(0.125)));
    assert_eq!(read, op);
    assert_eq!(wires, inputs);
}

#[test]
fn registered_operators_have_their_parameters() {
    let p = kv_sdpa::register();
    assert_eq!(p.id, "tract_transformers_quantized_kv_sdpa");
    let names: Vec<&str> = p.parameters.iter().map(|p| p.name).collect();
    assert_eq!(names, ["q", "k", "v", "axis", "scale", "bits", "is_causal"]);
    assert_eq!(p.parameters[4].kind, TypeName::Scalar);
    assert_eq!(p.results[0].name, "output");
    let p = dyn_kv_cache::register();
    assert_eq!(p.id, "tract_transformers_quantized_dyn_kv_cache");
    assert_eq!(p.parameters.len(), 8);
    assert_eq!(p.parameters[6].kind, TypeName::IntegerArray);
}

#[test]
fn what_a_model_file_leaves_out_has_a_default() {
    let bare: Invocation<F, Dim> = Invocation {
        id: "x".to_string(),
        inputs: vec![outlet(0), outlet(1), outlet(2)],
        attributes: vec![("axis".to_string(), Attribute::Integer(2))],
    };
    let (op, _) = de_quantized_kv_sdpa(&bare).unwrap();
    assert_eq!(op, QuantizedKvSdpa { axis: 2, scale: None, bits: 8, is_causal: false });
    // A cache has no defaults.
    assert!(matches!(de_quant_dyn_kv_cache(&bare), Err(ReadError::Missing)));
}

#[test]
fn what_a_model_file_gets_wrong_is_refused() {
    let mut bad: Invocation<F, Dim> = Invocation {
        id: "x".to_string(),
        inputs: vec![outlet(0), outlet(1)],
        attributes: vec![("axis".to_string(), Attribute::Text("two".to_string()))],
    };
    assert!(matches!(de_quantized_kv_sdpa(&bad), Err(ReadError::Missing)));
    bad.inputs.push(outlet(2));
    assert!(matches!(de_quantized_kv_sdpa(&bad), Err(ReadError::Mistyped)));
    bad.attributes[0].1 = Attribute::Integer(-1);
    assert!(matches!(de_quantized_kv_sdpa(&bad), Err(ReadError::Mistyped)));
    bad.attributes.clear();
    assert!(matches!(de_quantized_kv_sdpa(&bad), Err(ReadError::Missing)));
}

/// Queries, new keys and new values, two caches and an attention that reads
/// them.
fn cached_attention() -> Graph<F, Dim> {
    let source = |name: &str| Node {
        name: name.to_string(),
        op: NodeOp::Other,
        inputs: vec![],
        consumers: vec![1],
    };
    let cache = |name: &str, input: usize| Node {
        name: name.to_string(),
        op: NodeOp::Cache(DynKeyValueCache {
            name: name.to_string(),
            axis: 2,
            past_sequence_fact: fact(1, 2, P, 16),
            input_sequence_fact: fact(1, 2, S, 16),
        }),
        inputs: vec![outlet(input)],
        consumers: vec![1],
    };
    let sdpa = Node {
        name: "sdpa".to_string(),
        op: NodeOp::Sdpa(Sdpa { scale: SdpaScale::Usual, is_causal: false }),
        inputs: vec![outlet(0), outlet(3), outlet(4)],
        consumers: vec![0],
    };
    Graph { nodes: vec![source("q"), source("k"), source("v"), cache("kc", 1), cache("vc", 2), sdpa] }
}

// The transform's rule takes caches and attention away for one operator with
// the width that was asked for.
#[test]
fn transform_fuses_cache_sdpa_to_quantized() {
    let model = cached_attention();
    let passes = QuantizedKvSdpaTransform { bits: 4 }.transform().unwrap();
    let bits = passes
        .iter()
        .find_map(|p| match p {
            Pass::FuseQuantKvSdpa { bits } => Some(*bits),
            _ => None,
        })
        .expect("the pass that fuses");
    let fused = fuse_quantized_kv_sdpa_rule(&bits, &model, 5, "sdpa")
        .unwrap()
        .expect("fused op present");
    assert_eq!(fused.op.bits, 4, "transform propagates the chosen bit-width");
    assert_eq!(fused.replaces, outlet(5), "sdpa removed");
    // Nothing reads the caches any more.
    assert_eq!(fused.inputs, vec![outlet(0), outlet(1), outlet(2)], "caches removed");
    assert_eq!(fused.name, "sdpa.quant_kv_sdpa");
    assert_eq!(fused.op.axis, 2);
    assert_eq!(fused.op.scale, None);
    assert!(!fused.op.is_causal);
    assert_eq!(
        passes,
        vec![
            Pass::ApplyRope,
            Pass::KeyValueCache,
            Pass::FuseQuantKvSdpa { bits: 4 },
            Pass::Compact
        ]
    );
}

#[test]
fn a_rotation_of_the_keys_is_read_along() {
    let mut model = cached_attention();
    // Cosines, sines, and a rotation between the keys' cache and the attention.
    for name in ["cos", "sin"] {
        let node = Node {
            name: name.to_string(),
            op: NodeOp::Other,
            inputs: vec![],
            consumers: vec![1],
        };
        model.nodes.push(node);
    }
    model.nodes.push(Node {
        name: "rope".to_string(),
        op: NodeOp::ApplyRope,
        inputs: vec![outlet(3), outlet(6), outlet(7)],
        consumers: vec![1],
    });
    model.nodes[5].inputs[1] = outlet(8);
    assert_eq!(
        walk_kv_to_cache(&model, outlet(8)),
        Some((outlet(1), 2, Some((outlet(6), outlet(7)))))
    );
    assert_eq!(walk_to_cache_node(&model, outlet(8)), Some(3));
    let fused = fuse_quantized_kv_sdpa_rule(&8, &model, 5, "sdpa").unwrap().unwrap();
    assert_eq!(fused.inputs, vec![outlet(0), outlet(1), outlet(2), outlet(6), outlet(7)]);
    // A second rotation is one too many for the fused operator, not for caches
    // that are replaced where they stand.
    model.nodes.push(Node {
        name: "rope2".to_string(),
        op: NodeOp::ApplyRope,
        inputs: vec![outlet(8), outlet(6), outlet(7)],
        consumers: vec![1],
    });
    model.nodes[5].inputs[1] = outlet(9);
    assert_eq!(walk_kv_to_cache(&model, outlet(9)), None);
    assert!(fuse_quantized_kv_sdpa_rule(&8, &model, 5, "sdpa").unwrap().is_none());
    assert!(quantize_kv_storage_rule(&8, &model, 5).is_some());
    // Rotated values are not fused.
    model.nodes[5].inputs = vec![outlet(0), outlet(4), outlet(8)];
    assert!(fuse_quantized_kv_sdpa_rule(&8, &model, 5, "sdpa").unwrap().is_none());
}

#[test]
fn a_mask_is_made_anew_and_a_shared_cache_stays() {
    let mut model = cached_attention();
    model.nodes[5].inputs.push(outlet(0));
    model.nodes[5].op = NodeOp::Sdpa(Sdpa { scale: SdpaScale::Value(F(0.25)), is_causal: false });
    let fused = fuse_quantized_kv_sdpa_rule(&8, &model, 5, "sdpa").unwrap().unwrap();
    assert!(fused.op.is_causal);
    assert_eq!(fused.op.scale, Some(F(0.25)));
    model.nodes[5].op = NodeOp::Sdpa(Sdpa { scale: SdpaScale::NotScalar, is_causal: false });
    assert!(matches!(
        fuse_quantized_kv_sdpa_rule(&8, &model, 5, "sdpa"),
        Err(RuleError::Scale)
    ));
    // Somebody else reads the keys' cache too.
    model.nodes[3].consumers[0] = 2;
    assert_eq!(walk_to_cache_node(&model, outlet(3)), None);
    assert!(fuse_quantized_kv_sdpa_rule(&8, &model, 5, "sdpa").unwrap().is_none());
    assert!(quantize_kv_storage_rule(&8, &model, 5).is_none());
}

#[test]
fn caches_are_replaced_where_they_stand() {
    let model = cached_attention();
    let (k, v) = quantize_kv_storage_rule(&4, &model, 5).unwrap();
    assert_eq!((k.replaces, v.replaces), (outlet(3), outlet(4)));
    assert_eq!((k.name.as_str(), v.name.as_str()), ("kc.quant", "vc.quant"));
    assert!(k.op.per_channel && !v.op.per_channel);
    assert_eq!((k.op.bits, k.op.axis), (4, 2));
    assert_eq!(k.inputs, vec![outlet(1)]);
    assert_eq!(k.op.past_sequence_fact.shape, fact(1, 2, P, 16).shape);
    assert!(replace_with_quant_cache(&model, 0, true, 8).is_none());
    let passes = QuantizeKvStorageTransform::default().transform().unwrap();
    assert_eq!(passes[2], Pass::QuantizeKvStorage { bits: 8 });
    assert_eq!(QuantizeKvStorageTransform { bits: 4 }.name(), "quantize_kv_storage");
}

#[test]
fn widths_other_than_4_and_8_are_refused() {
    assert_eq!(QuantizedKvSdpaTransform { bits: 5 }.transform(), Err(RuleError::Bits));
    assert_eq!(QuantizeKvStorageTransform { bits: 16 }.transform(), Err(RuleError::Bits));
    assert_eq!(QuantizedKvSdpaTransform::default().bits, 8);
    assert_eq!(QuantizedKvSdpaTransform::default().name(), "fuse_quantized_kv_sdpa");
}

fn token(base: f32) -> NdArray<F> {
    NdArray { shape: vec![1, 2, 1, 8], data: (0..16).map(|i| F(base + i as f32)).collect() }
}

#[test]
fn a_cache_refuses_what_does_not_fit() {
    let mut state = cache_op(8, true).state::<F>();
    assert!(matches!(state.eval(&[]), Err(CacheError::InputCount)));
    let flat = NdArray { shape: vec![16], data: token(0.0).data };
    assert!(matches!(state.eval(&[flat]), Err(CacheError::Rank)));
    assert!(state.eval(&[token(0.0)]).is_ok());
    let other = NdArray { shape: vec![2, 1, 1, 8], data: token(0.0).data };
    assert_eq!(state.ingest(&other), Err(CacheError::ShapeChanged));
    assert_eq!(state.len, 1);
    let mut op = cache_op(8, true);
    op.axis = 1;
    assert!(matches!(op.state::<F>().eval(&[token(0.0)]), Err(CacheError::Axis)));
}

#[test]
fn the_past_is_bound_to_the_number_of_tokens() {
    let mut state = cache_op(8, false).state::<F>();
    assert!(state.has_init_tensor_fact());
    assert_eq!(state.init_tensor_fact().unwrap().0, "kv0");
    let start =
        NdArray { shape: vec![1, 2, 3, 8], data: (0..48).map(|i| F(i as f32)).collect() };
    let loaded = state.load_from(&[], Some(&start));
    assert_eq!(loaded.bound, Some(Binding { symbol: P, value: 3 }));
    assert_eq!(loaded.taken, Ok(()));
    assert_eq!(state.resolve_symbols(&[]), Ok(Some(Binding { symbol: P, value: 3 })));
    assert_eq!(state.resolve_symbols(&[P]), Ok(None));
    let saved = state.save_to();
    assert_eq!(saved.shape, vec![1, 2, 3, 8]);
    for (x, y) in saved.data.iter().zip(&start.data) {
        assert!((x.0 - y.0).abs() < 0.03);
    }
    assert_eq!(state.load_from(&[], None).taken, Err(CacheError::NoInitializer));
    let mut op = cache_op(8, false);
    op.past_sequence_fact.shape[0] = Dim::atom(Atom::Symbol(9));
    let mut open = op.state::<F>();
    assert_eq!(open.load_from(&[], Some(&start)).taken, Err(CacheError::Symbols));
    assert_eq!(open.len, 0);
}

#[test]
fn what_was_saved_can_be_loaded() {
    for per_channel in [false, true] {
        let mut state = cache_op(8, per_channel).state::<F>();
        for t in 0..40 {
            state.eval(&[token(t as f32)]).unwrap();
        }
        let saved = state.save_to();
        let mut fresh = cache_op(8, per_channel).state::<F>();
        assert_eq!(fresh.load_from(&[], Some(&saved)).taken, Ok(()));
        assert_eq!(fresh.len, 40);
        assert_eq!(fresh.caches.len(), 2);
        assert_eq!(fresh.save_to().shape, saved.shape);
    }
}

#[test]
fn an_unfrozen_cache_goes_on() {
    let mut one = cache_op(8, true).state::<F>();
    one.eval(&[token(0.0)]).unwrap();
    let mut other = one.freeze().unfreeze();
    let (a, b) = (one.eval(&[token(5.0)]).unwrap(), other.eval(&[token(5.0)]).unwrap());
    assert_eq!(a.shape, vec![1, 2, 2, 8]);
    assert_eq!(a.data, b.data);
    assert_eq!(one.len, other.len);
}

#[test]
fn values_are_appended_and_full_blocks_stay() {
    let mut values: HeadCache<F> = HeadCache::new(false, 2, 8);
    values.push(&[F(0.0), F(255.0)]);
    values.push(&[F(-1.0), F(1.0)]);
    assert_eq!(values.len(), 2);
    assert_eq!(values.dequant_all().data[..2], [F(0.0), F(255.0)]);
    let mut keys: HeadCache<F> = HeadCache::new(true, 2, 8);
    for t in 0..32 {
        keys.push(&[F(t as f32), F(0.0)]);
    }
    let block = keys.dequant_all();
    keys.push(&[F(-1000.0), F(1000.0)]);
    assert_eq!(keys.dequant_all().data[..64], block.data[..]);
    assert_eq!(keys.dequant_all().data[64..], [F(-1000.0), F(1000.0)]);
    assert_eq!(keys.memory_bytes(), 64 + 16 + 8);
    assert_eq!(keys.duplicate().len(), 33);
}

// Twenty tokens, then twenty more: of the keys, a block of 32 is coded and eight
// wait as they came; every value is coded over its own range.
#[test]
fn what_is_read_back_is_near_the_concatenation() {
    let (h, d, n) = (2usize, 8usize, 20usize);
    let at = |i: usize, t: usize, c: usize| ((i * 31 + t * 17 + c * 5) % 23) as f32 / 4.0 - 2.0;
    for (bits, codes) in [(8u32, 255.0f32), (4, 15.0)] {
        for per_channel in [true, false] {
            let mut state = cache_op(bits, per_channel).state::<F>();
            let mut out = None;
            for call in 0..2 {
                let place = |j: usize| (j / d / n, call * n + j / d % n, j % d);
                let elements = (0..h * n * d).map(place).map(|(i, t, c)| F(at(i, t, c)));
                let step = NdArray { shape: vec![1, h, n, d], data: elements.collect() };
                out = Some(state.eval(&[step]).unwrap());
            }
            let out = out.unwrap();
            assert_eq!(out.shape, vec![1, h, 2 * n, d]);
            for j in 0..h * 2 * n * d {
                let (i, t, c) = (j / d / (2 * n), j / d % (2 * n), j % d);
                let (got, fed) = (out.data[j].0, at(i, t, c));
                if per_channel && t >= 32 {
                    assert_eq!(got, fed);
                    continue;
                }
                let range: Vec<f32> = if per_channel {
                    (0..32).map(|t| at(i, t, c)).collect()
                } else {
                    (0..d).map(|c| at(i, t, c)).collect()
                };
                let least = range.iter().copied().fold(f32::INFINITY, f32::min);
                let greatest = range.iter().copied().fold(f32::NEG_INFINITY, f32::max);
                let half = (greatest - least) / codes / 2.0;
                assert!((got - fed).abs() <= half + 1e-5, "{got} is too far from {fed}");
            }
        }
    }
}

#[test]
fn operators_say_what_they_are() {
    let op = cache_op(8, true);
    assert_eq!(op.name(), "QuantizedDynKeyValueCache");
    assert_eq!(op.info(), vec!["bits=8, per_channel=true, axis=2".to_string()]);
    assert!(!op.is_stateless());
    let out = op.output_facts(&[&fact(1, 2, S, 8)]).unwrap();
    let both = Dim::atom(Atom::Symbol(P)).sum(&Dim::atom(Atom::Symbol(S)));
    assert_eq!(out[0].shape[2], both);
    assert!(matches!(op.output_facts(&[]), Err(CacheError::InputCount)));
    let sdpa = QuantizedKvSdpa { axis: 2, scale: Some(F(0.5)), bits: 4, is_causal: true };
    assert_eq!(sdpa.name(), "QuantizedKvSdpa");
    assert_eq!(
        sdpa.info("Some(0.5)"),
        vec!["axis=2, scale=Some(0.5), bits=4, causal=true".to_string()]
    );
    assert!(!sdpa.is_stateless());
    let q = fact(1, 4, S, 8);
    let kv = fact(1, 2, S, 8);
    assert_eq!(sdpa.output_facts(&[&q, &kv, &kv]).unwrap()[0].shape, q.shape);
    assert!(sdpa.output_facts(&[&q, &kv]).is_err());
}
