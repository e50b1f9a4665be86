use std::collections::BTreeMap;

use infer_kernels::concat::{ConcatError, Declutter, SliceOutcome, TypedConcat};
use infer_kernels::datum::DatumType;
use infer_kernels::dims::{volume, DimLike};
use infer_kernels::extent::Extent;
use infer_kernels::fact::TypedFact;
use infer_kernels::tensor::{count_elements, NdArray};

/// What a linear expression is made of: symbols, and coordinates along axes.
#[derive(Clone, Copy, Debug, PartialEq, Eq, PartialOrd, Ord)]
enum Atom {
    Symbol(u64),
    Coordinate(usize),
}

/// A constant plus multiples of atoms, none of them zero.
#[derive(Clone, Debug, PartialEq, Eq)]
struct Dim {
    constant: i64,
    terms: BTreeMap<Atom, i64>,
}

impl Dim {
    fn constant(constant: i64) -> Dim {
        Dim { constant, terms: BTreeMap::new() }
    }
    fn atom(a: Atom) -> Dim {
        Dim { constant: 0, terms: BTreeMap::from([(a, 1)]) }
    }
    fn scaled(&self, by: i64) -> Dim {
        let terms = self.terms.iter().map(|(a, n)| (*a, n * by)).filter(|t| t.1 != 0).collect();
        Dim { constant: self.constant * by, terms }
    }
}

impl DimLike for Dim {
    fn zero() -> Dim {
        Dim::constant(0)
    }
    fn of_count(n: usize) -> Dim {
        Dim::constant(n as i64)
    }
    fn duplicate(&self) -> Dim {
        self.clone()
    }
    fn sum(&self, other: &Dim) -> Dim {
        let mut terms = self.terms.clone();
        for (a, n) in &other.terms {
            *terms.entry(*a).or_insert(0) += n;
        }
        terms.retain(|_, n| *n != 0);
        Dim { constant: self.constant + other.constant, terms }
    }
    fn difference(&self, other: &Dim) -> Dim {
        self.sum(&other.scaled(-1))
    }
    fn product(&self, other: &Dim) -> Dim {
        if other.terms.is_empty() {
            self.scaled(other.constant)
        } else {
            assert!(self.terms.is_empty(), "only linear expressions are built here");
            other.scaled(self.constant)
        }
    }
    fn same(&self, other: &Dim) -> bool {
        self == other
    }
    fn is_zero(&self) -> bool {
        *self == Dim::zero()
    }
    fn proves_nonneg(&self) -> bool {
        self.constant >= 0 && self.terms.values().all(|n| *n >= 0)
    }
    fn to_usize(&self) -> Option<usize> {
        if self.terms.is_empty() {
            usize::try_from(self.constant).ok()
        } else {
            None
        }
    }
    fn symbol(&self) -> Option<u64> {
        match (self.constant, self.terms.len(), self.terms.first_key_value()) {
            (0, 1, Some((Atom::Symbol(s), 1))) => Some(*s),
            _ => None,
        }
    }
    fn coordinate(axis: usize) -> Dim {
        Dim::atom(Atom::Coordinate(axis))
    }
    fn mentions(&self, axis: usize) -> bool {
        self.terms.contains_key(&Atom::Coordinate(axis))
    }
    fn substitute(&self, axis: usize, by: &Dim) -> Option<Dim> {
        let a = Atom::Coordinate(axis);
        let times = self.terms.get(&a).copied().unwrap_or(0);
        let rest = self.difference(&Dim::atom(a).scaled(times));
        Some(rest.sum(&by.scaled(times)))
    }
}

fn fact(shape: &[i64]) -> TypedFact<Dim> {
    TypedFact {
        datum_type: DatumType::F32,
        shape: shape.iter().map(|n| Dim::constant(*n)).collect(),
    }
}

/// Without a region of interest on the output there is none on the inputs.
#[test]
fn input_roi_with_no_output_roi_returns_none() {
    let a = fact(&[1, 4]);
    let op = TypedConcat::new(1);
    assert!(op.input_roi(None, &[&a, &a]).is_none());
}

/// A region that mentions the concatenated axis is moved by each input's offset.
#[test]
fn input_roi_translates_concat_axis_per_branch_offset() {
    let a = fact(&[1, 4]);
    let op = TypedConcat::new(1);
    let coordinate = Dim::coordinate(1);
    let result = op.input_roi(Some(&coordinate), &[&a, &a, &a]).expect("input_roi");
    assert_eq!(result.len(), 3);
    assert_eq!(result[0], Some(coordinate.clone()));
    assert_eq!(result[1], Some(coordinate.sum(&Dim::constant(4))));
    assert_eq!(result[2], Some(coordinate.sum(&Dim::constant(8))));
}

/// A region that does not is passed on as it is.
#[test]
fn input_roi_without_concat_axis_passes_through_unchanged() {
    let a = fact(&[1, 4]);
    let op = TypedConcat::new(1);
    let other = Dim::coordinate(0);
    let result = op.input_roi(Some(&other), &[&a, &a]).expect("input_roi");
    assert_eq!(result.len(), 2);
    assert_eq!(result[0], Some(other.clone()));
    assert_eq!(result[1], Some(other));
}

#[test]
fn offsets_are_running_sums() {
    let op = TypedConcat::new(0);
    let s = TypedFact { datum_type: DatumType::F32, shape: vec![Dim::atom(Atom::Symbol(3))] };
    let offsets = op.offsets(&[&fact(&[2]), &s, &fact(&[5])]).unwrap();
    let sym = Dim::atom(Atom::Symbol(3));
    assert_eq!(
        offsets,
        vec![
            Dim::zero(),
            Dim::constant(2),
            sym.sum(&Dim::constant(2)),
            sym.sum(&Dim::constant(7)),
        ]
    );
}

#[test]
fn offsets_of_joined_lists_follow_one_another() {
    let op = TypedConcat::new(1);
    let (a, b) = ([fact(&[9, 2]), fact(&[8, 3])], [fact(&[7, 4, 1]), fact(&[6, 0]), fact(&[5, 6])]);
    let of = |facts: &[TypedFact<Dim>]| op.offsets(&facts.iter().collect::<Vec<_>>()).unwrap();
    let joined: Vec<TypedFact<Dim>> = a.iter().chain(&b).map(|f| f.duplicate()).collect();
    let (oa, ob) = (of(&a), of(&b));
    let end = oa.last().unwrap();
    let mut want = oa.clone();
    want.extend(ob[1..].iter().map(|o| o.sum(end)));
    assert_eq!(of(&joined), want);
    assert_eq!(want[5], Dim::constant(15));
    // Other axes do not matter.
    assert_eq!(of(&[fact(&[0, 2]), fact(&[1, 3, 5])]), oa);
}

#[test]
fn output_fact_sums_the_axis() {
    let op = TypedConcat::new(1);
    let out = op.output_facts(&[&fact(&[2, 3, 4]), &fact(&[2, 5, 4])]).unwrap();
    assert_eq!(out.shape, vec![Dim::constant(2), Dim::constant(8), Dim::constant(4)]);
    assert_eq!(out.datum_type, DatumType::F32);
    assert!(matches!(op.output_facts::<Dim>(&[]), Err(ConcatError::NoInput)));
    assert!(matches!(
        op.output_facts(&[&fact(&[2, 3]), &fact(&[3, 3])]),
        Err(ConcatError::Inconsistent)
    ));
    assert!(matches!(
        op.output_facts(&[&fact(&[2, 3]), &fact(&[2, 3, 1])]),
        Err(ConcatError::Inconsistent)
    ));
}

#[test]
fn axes_but_the_concatenated_one_are_tied() {
    let op = TypedConcat::new(1);
    assert_eq!(op.axes_mapping(3, 2), vec![(0, 0), (0, 1), (2, 0), (2, 1)]);
    assert_eq!(op.change_axes(Some(2)), Some(TypedConcat::new(2)));
    assert_eq!(op.change_axes(None), None);
}

#[test]
fn empty_inputs_are_dropped() {
    let op = TypedConcat::new(1);
    let (full, none) = (fact(&[2, 3]), fact(&[2, 0]));
    assert_eq!(op.declutter(&[&none]), Declutter::Shunt);
    assert_eq!(op.declutter(&[&full, &none, &none]), Declutter::DropInput(1));
    assert_eq!(op.declutter(&[&full, &full]), Declutter::Keep);
    assert_eq!(volume(&full.shape), Dim::constant(6));
}

#[test]
fn a_slice_within_one_input_is_taken_there() {
    let op = TypedConcat::new(1);
    let (a, b) = (fact(&[2, 3]), fact(&[2, 5]));
    let d = |n: i64| Dim::constant(n);
    match op.slice(&[&a, &b], 1, &d(4), &d(7)) {
        SliceOutcome::OneInput { input, slice } => {
            assert_eq!((input, slice.axis), (1, 1));
            assert_eq!((slice.start, slice.end), (d(1), d(4)));
        }
        other => panic!("{other:?}"),
    }
    assert!(matches!(op.slice(&[&a, &b], 1, &d(2), &d(4)), SliceOutcome::Keep));
    assert!(matches!(op.slice(&[&a, &b], 0, &d(0), &d(1)), SliceOutcome::Rewire));
}

#[test]
fn tensors_are_stacked_band_by_band() {
    let a = NdArray { shape: vec![2, 1, 2], data: vec![1, 2, 3, 4] };
    let b = NdArray { shape: vec![2, 2, 2], data: vec![10, 11, 12, 13, 14, 15, 16, 17] };
    let out = TypedConcat::new(1).eval(&[&a, &b]).unwrap();
    assert_eq!(out.shape, vec![2, 3, 2]);
    assert_eq!(out.data, vec![1, 2, 10, 11, 12, 13, 3, 4, 14, 15, 16, 17]);
    let first = TypedConcat::new(0).eval(&[&a, &a]).unwrap();
    assert_eq!(first.shape, vec![4, 1, 2]);
    assert_eq!(first.data, vec![1, 2, 3, 4, 1, 2, 3, 4]);
    assert!(matches!(TypedConcat::new(0).eval(&[&a, &b]), Err(ConcatError::Inconsistent)));
    assert!(matches!(TypedConcat::new(0).eval::<u8>(&[]), Err(ConcatError::NoInput)));
    assert_eq!(count_elements(&out.shape, 1, 3), 6);
}

#[test]
fn simplifying_changes_nothing() {
    let op = TypedConcat::new(1);
    let a = NdArray { shape: vec![2, 1, 2], data: vec![1, 2, 3, 4] };
    let b = NdArray { shape: vec![2, 2, 2], data: vec![10, 11, 12, 13, 14, 15, 16, 17] };
    let none: NdArray<i32> = NdArray { shape: vec![2, 0, 2], data: vec![] };
    let alone = op.eval(&[&a]).unwrap();
    assert_eq!((alone.shape, alone.data), (a.shape.clone(), a.data.clone()));
    let both = op.eval(&[&a, &b]).unwrap();
    for inputs in [[&none, &a, &b], [&a, &none, &b], [&a, &b, &none]] {
        let out = op.eval(&inputs).unwrap();
        assert_eq!((out.shape, out.data), (both.shape.clone(), both.data.clone()));
    }
}

#[test]
fn the_promised_shape_comes_out() {
    let op = TypedConcat::new(1);
    let shapes = [vec![2usize, 3], vec![2, 0], vec![2, 5]];
    let facts: Vec<TypedFact<Extent>> = shapes
        .iter()
        .map(|s| TypedFact {
            datum_type: DatumType::U8,
            shape: s.iter().map(|n| Extent::of_count(*n)).collect(),
        })
        .collect();
    let tensors: Vec<NdArray<u8>> = shapes
        .iter()
        .map(|s| NdArray { shape: s.clone(), data: vec![7; s.iter().product()] })
        .collect();
    let promised = op.output_facts(&facts.iter().collect::<Vec<_>>()).unwrap();
    let out = op.eval(&tensors.iter().collect::<Vec<_>>()).unwrap();
    let known: Vec<Option<usize>> = promised.shape.iter().map(|d| d.to_usize()).collect();
    assert_eq!(known, vec![Some(2), Some(8)]);
    assert_eq!(out.shape, vec![2, 8]);
}

#[test]
fn known_extents_compute_as_integers_do() {
    let (a, b) = (Extent(7), Extent(-3));
    assert_eq!((a.sum(&b), a.difference(&b), a.product(&b)), (Extent(4), Extent(10), Extent(-21)));
    assert_eq!(Extent(i64::MAX).sum(&Extent(1)), Extent(i64::MIN));
    assert_eq!((a.to_usize(), b.to_usize()), (Some(7), None));
    assert!(a.proves_nonneg() && !b.proves_nonneg());
    assert!(Extent::zero().is_zero() && a.same(&Extent::of_count(7)) && !a.same(&b));
    assert_eq!((a.symbol(), a.mentions(0)), (None, false));
    assert_eq!(a.substitute(0, &b), Some(a));
    let fact = TypedFact { datum_type: DatumType::F32, shape: vec![Extent(1), Extent(4)] };
    let rois = TypedConcat::new(1).input_roi(Some(&a), &[&fact, &fact]).unwrap();
    assert_eq!(rois, vec![Some(a), Some(a)]);
    assert_eq!(Extent::coordinate(1), Extent(0));
}

#[test]
fn the_operator_says_what_it_is() {
    let op = TypedConcat::new(12);
    assert_eq!(op.name(), "Concat");
    assert_eq!(op.info(), vec!["axis: 12".to_string()]);
    assert!(op.is_stateless());
}
