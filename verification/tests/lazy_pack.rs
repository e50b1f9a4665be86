use std::collections::BTreeMap;

use infer_kernels::datum::DatumType;
use infer_kernels::dims::DimLike;
use infer_kernels::fact::TypedFact;
use infer_kernels::lazy_pack::{
    LazyMatMulPack, LazyPackError, LazyPackFormat, PackedFormat, PanelRequest,
};
use infer_kernels::mmm::WeightType;
use infer_kernels::tensor::NdArray;

/// What a linear expression is made of: symbols, and coordinates along axes.
#[derive(Clone, Copy, Debug, PartialEq, Eq, PartialOrd, Ord)]
enum Atom {
    Symbol(u64),
    Coordinate(usize),
}

/// A constant plus multiples of atoms, none of them zero.
#[derive(Clone, Debug, PartialEq, Eq)]
struct Dim {
    constant: i64,
    terms: BTreeMap<Atom, i64>,
}

impl Dim {
    fn constant(constant: i64) -> Dim {
        Dim { constant, terms: BTreeMap::new() }
    }
    fn atom(a: Atom) -> Dim {
        Dim { constant: 0, terms: BTreeMap::from([(a, 1)]) }
    }
    fn scaled(&self, by: i64) -> Dim {
        let terms = self.terms.iter().map(|(a, n)| (*a, n * by)).filter(|t| t.1 != 0).collect();
        Dim { constant: self.constant * by, terms }
    }
}

impl DimLike for Dim {
    fn zero() -> Dim {
        Dim::constant(0)
    }
    fn of_count(n: usize) -> Dim {
        Dim::constant(n as i64)
    }
    fn duplicate(&self) -> Dim {
        self.clone()
    }
    fn sum(&self, other: &Dim) -> Dim {
        let mut terms = self.terms.clone();
        for (a, n) in &other.terms {
            *terms.entry(*a).or_insert(0) += n;
        }
        terms.retain(|_, n| *n != 0);
        Dim { constant: self.constant + other.constant, terms }
    }
    fn difference(&self, other: &Dim) -> Dim {
        self.sum(&other.scaled(-1))
    }
    fn product(&self, other: &Dim) -> Dim {
        if other.terms.is_empty() {
            self.scaled(other.constant)
        } else {
            assert!(self.terms.is_empty(), "only linear expressions are built here");
            other.scaled(self.constant)
        }
    }
    fn same(&self, other: &Dim) -> bool {
        self == other
    }
    fn is_zero(&self) -> bool {
        *self == Dim::zero()
    }
    fn proves_nonneg(&self) -> bool {
        self.constant >= 0 && self.terms.values().all(|n| *n >= 0)
    }
    fn to_usize(&self) -> Option<usize> {
        if self.terms.is_empty() {
            usize::try_from(self.constant).ok()
        } else {
            None
        }
    }
    fn symbol(&self) -> Option<u64> {
        match (self.constant, self.terms.len(), self.terms.first_key_value()) {
            (0, 1, Some((Atom::Symbol(s), 1))) => Some(*s),
            _ => None,
        }
    }
    fn coordinate(axis: usize) -> Dim {
        Dim::atom(Atom::Coordinate(axis))
    }
    fn mentions(&self, axis: usize) -> bool {
        self.terms.contains_key(&Atom::Coordinate(axis))
    }
    fn substitute(&self, axis: usize, by: &Dim) -> Option<Dim> {
        let a = Atom::Coordinate(axis);
        let times = self.terms.get(&a).copied().unwrap_or(0);
        let rest = self.difference(&Dim::atom(a).scaled(times));
        Some(rest.sum(&by.scaled(times)))
    }
}

fn format() -> PackedFormat {
    PackedFormat {
        name: "Packed[8]".to_string(),
        dt: DatumType::F32,
        r: 8,
        precursor: WeightType::Plain(DatumType::F32),
        k_alignment: 1,
    }
}

fn pack() -> LazyMatMulPack {
    LazyMatMulPack { packer: format(), k_axis: 1, mn_axis: 2 }
}

#[test]
fn a_format_passes_the_packer_on() {
    let lazy = LazyPackFormat(format());
    assert_eq!(lazy.text(), "LazyPacked[8]");
    assert_eq!((lazy.r(), lazy.k_alignment()), (8, 1));
    assert_eq!(lazy.precursor(), WeightType::Plain(DatumType::F32));
    let s = Dim::atom(Atom::Symbol(0));
    assert_eq!(lazy.mem_size(&Dim::of_count(3), &s), s.scaled(12));
    assert_eq!(lazy.prepare_tensor(), Err(LazyPackError::Prepare));
    assert_eq!(lazy.prepare_one_view(), Err(LazyPackError::Prepare));
}

#[test]
fn the_axes_of_the_matrix_are_dropped() {
    let op = pack();
    assert_eq!(op.name(), "LazyMatMulPack");
    let dims: Vec<Dim> = [1usize, 5, 20, 7].iter().map(|n| Dim::of_count(*n)).collect();
    let left = vec![Dim::of_count(1), Dim::of_count(7)];
    assert_eq!(op.output_shape(&dims), left);
    let fact = op.output_facts(&TypedFact { datum_type: DatumType::F16, shape: dims });
    assert_eq!(fact.fact.shape, left);
    assert_eq!(fact.fact.datum_type, DatumType::F16);
    assert_eq!((fact.k, fact.mn), (Dim::of_count(5), Dim::of_count(20)));
    assert!(fact.format.0.same(&format()));
}

#[test]
fn panels_are_asked_for_one_at_a_time() {
    let input = NdArray { shape: vec![1, 5, 20], data: (0..100).collect() };
    let (value, shape) = pack().eval(input).unwrap();
    assert_eq!(shape, vec![1]);
    assert_eq!((value.k(), value.mn()), (5, 20));
    assert_eq!(value.text(), "LazyPacked(Packed[8])");
    let panel = |mn_start: usize, mn_end: usize| PanelRequest {
        mn: 20,
        k_stride: 20,
        mn_stride: 1,
        k_end: 5,
        mn_start,
        mn_end,
    };
    // Three panels; the last is cut short.
    assert_eq!(value.do_panel(0), panel(0, 8));
    assert_eq!(value.do_panel(1), panel(8, 16));
    assert_eq!(value.do_panel(2), panel(16, 20));
    assert_eq!(value.scratch_panel_buffer_layout(DatumType::F32), Some((5, 4)));
    assert!(value.format().0.same(&format()));
    assert_eq!(value.extract_at_mn(0), Err(LazyPackError::Extract));
}

#[test]
fn matrices_are_compared_by_format_and_extent() {
    let of = |k: usize| {
        let input = NdArray { shape: vec![1, k, 2], data: vec![0u8; 2 * k] };
        pack().eval(input).unwrap().0
    };
    assert!(of(3).same_fact(&of(3)));
    assert!(!of(3).same_fact(&of(4)));
    assert!(of(3).same(&of(3), true));
    assert!(!of(3).same(&of(3), false));
    let mut other = of(3);
    other.packer.r = 16;
    assert!(!of(3).same_fact(&other));
}

#[test]
fn more_than_one_matrix_is_refused() {
    let input = NdArray { shape: vec![2, 5, 20], data: vec![0u8; 200] };
    assert!(matches!(pack().eval(input), Err(LazyPackError::NotSingle)));
}
