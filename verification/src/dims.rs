//! Tensor dimensions: known counts, or expressions over symbols.
//!
//! The operators below only ever combine dimensions through the operations of
//! [`DimLike`], so they serve plain counts and symbolic dimensions alike.

use vstd::prelude::*;

verus! {

/// A dimension. Each operation stands beside the spec function that names its
/// result.
pub trait DimLike: Sized {
    /// The dimension 0.
    open spec fn zero_spec() -> Self {
        choose|r: Self| #[trigger] call_ensures(Self::zero, (), r)
    }

    /// The dimension 0.
    fn zero() -> Self;

    /// The dimension `n`.
    open spec fn of_count_spec(n: usize) -> Self {
        choose|r: Self| #[trigger] call_ensures(Self::of_count, (n,), r)
    }

    /// The dimension `n`.
    fn of_count(n: usize) -> Self;

    /// A copy.
    fn duplicate(&self) -> Self;

    /// `self + other`.
    open spec fn sum_spec(self, other: Self) -> Self {
        choose|r: Self| #[trigger] call_ensures(Self::sum, (&self, &other), r)
    }

    /// `self + other`.
    fn sum(&self, other: &Self) -> Self;

    /// `self - other`.
    open spec fn difference_spec(self, other: Self) -> Self {
        choose|r: Self| #[trigger] call_ensures(Self::difference, (&self, &other), r)
    }

    /// `self - other`.
    fn difference(&self, other: &Self) -> Self;

    /// `self * other`.
    open spec fn product_spec(self, other: Self) -> Self {
        choose|r: Self| #[trigger] call_ensures(Self::product, (&self, &other), r)
    }

    /// `self * other`.
    fn product(&self, other: &Self) -> Self;

    /// Whether the two are one expression.
    open spec fn same_spec(self, other: Self) -> bool {
        choose|r: bool| #[trigger] call_ensures(Self::same, (&self, &other), r)
    }

    /// Whether the two are one expression.
    fn same(&self, other: &Self) -> bool;

    /// Whether `self` is the dimension 0.
    open spec fn is_zero_spec(self) -> bool {
        choose|r: bool| #[trigger] call_ensures(Self::is_zero, (&self,), r)
    }

    /// Whether `self` is the dimension 0.
    fn is_zero(&self) -> bool;

    /// Whether `self` is known not to be negative.
    open spec fn proves_nonneg_spec(self) -> bool {
        choose|r: bool| #[trigger] call_ensures(Self::proves_nonneg, (&self,), r)
    }

    /// Whether `self` is known not to be negative.
    fn proves_nonneg(&self) -> bool;

    /// The value of `self`, where it is a known count.
    open spec fn to_usize_spec(self) -> Option<usize> {
        choose|r: Option<usize>| #[trigger] call_ensures(Self::to_usize, (&self,), r)
    }

    /// The value of `self`, where it is a known count.
    fn to_usize(&self) -> Option<usize>;

    /// The symbol that `self` consists of, where it is a single one.
    open spec fn symbol_spec(self) -> Option<u64> {
        choose|r: Option<u64>| #[trigger] call_ensures(Self::symbol, (&self,), r)
    }

    /// The symbol that `self` consists of, where it is a single one.
    fn symbol(&self) -> Option<u64>;

    /// The symbol that stands for the coordinate on `axis`.
    open spec fn coordinate_spec(axis: usize) -> Self {
        choose|r: Self| #[trigger] call_ensures(Self::coordinate, (axis,), r)
    }

    /// The symbol that stands for the coordinate on `axis`.
    fn coordinate(axis: usize) -> Self;

    /// Whether the coordinate on `axis` occurs in `self`.
    open spec fn mentions_spec(self, axis: usize) -> bool {
        choose|r: bool| #[trigger] call_ensures(Self::mentions, (&self, axis), r)
    }

    /// Whether the coordinate on `axis` occurs in `self`.
    fn mentions(&self, axis: usize) -> bool;

    /// `self` with `by` in place of the coordinate on `axis`.
    open spec fn substitute_spec(self, axis: usize, by: Self) -> Option<Self> {
        choose|r: Option<Self>| #[trigger] call_ensures(Self::substitute, (&self, axis, &by), r)
    }

    /// `self` with `by` in place of the coordinate on `axis`.
    fn substitute(&self, axis: usize, by: &Self) -> Option<Self>;
}

/// Whether every operation of `D` is a function of its operands: the one that
/// the spec function of the same name names.
#[verifier::opaque]
pub open spec fn lawful<D: DimLike>() -> bool {
    &&& forall|r: D| #[trigger]
        call_ensures(D::zero, (), r) ==> r == D::zero_spec()
    &&& forall|n: usize, r: D| #[trigger]
        call_ensures(D::of_count, (n,), r) ==> r == D::of_count_spec(n)
    &&& forall|a: &D, r: D| #[trigger]
        call_ensures(D::duplicate, (a,), r) ==> r == *a
    &&& forall|a: &D, b: &D, r: D| #[trigger]
        call_ensures(D::sum, (a, b), r) ==> r == (*a).sum_spec(*b)
    &&& forall|a: &D, b: &D, r: D| #[trigger]
        call_ensures(D::difference, (a, b), r) ==> r == (*a).difference_spec(*b)
    &&& forall|a: &D, b: &D, r: D| #[trigger]
        call_ensures(D::product, (a, b), r) ==> r == (*a).product_spec(*b)
    &&& forall|a: &D, b: &D, r: bool| #[trigger]
        call_ensures(D::same, (a, b), r) ==> r == (*a).same_spec(*b)
    &&& forall|a: &D, r: bool| #[trigger]
        call_ensures(D::is_zero, (a,), r) ==> r == (*a).is_zero_spec()
    &&& forall|a: &D, r: bool| #[trigger]
        call_ensures(D::proves_nonneg, (a,), r) ==> r == (*a).proves_nonneg_spec()
    &&& forall|a: &D, r: Option<usize>| #[trigger]
        call_ensures(D::to_usize, (a,), r) ==> r == (*a).to_usize_spec()
    &&& forall|a: &D, r: Option<u64>| #[trigger]
        call_ensures(D::symbol, (a,), r) ==> r == (*a).symbol_spec()
    &&& forall|axis: usize, r: D| #[trigger]
        call_ensures(D::coordinate, (axis,), r) ==> r == D::coordinate_spec(axis)
    &&& forall|a: &D, axis: usize, r: bool| #[trigger]
        call_ensures(D::mentions, (a, axis), r) ==> r == (*a).mentions_spec(axis)
    &&& forall|a: &D, axis: usize, b: &D, r: Option<D>| #[trigger]
        call_ensures(D::substitute, (a, axis, b), r) ==> r == (*a).substitute_spec(axis, *b)
}

/// Whether sums of counts are the counts of sums, and no count differs from
/// itself.
pub open spec fn adds_counts<D: DimLike>() -> bool {
    &&& D::zero_spec() == D::of_count_spec(0)
    &&& forall|a: usize, b: usize|
        a + b <= usize::MAX ==> #[trigger] D::of_count_spec(a).sum_spec(D::of_count_spec(b))
            == D::of_count_spec((a + b) as usize)
    &&& forall|a: usize| #[trigger] D::of_count_spec(a).same_spec(D::of_count_spec(a))
}

/// Whether sums can be regrouped, and nothing is added by the dimension 0.
pub open spec fn sums_regroup<D: DimLike>() -> bool {
    &&& forall|a: D, b: D, c: D| #[trigger]
        a.sum_spec(b).sum_spec(c) == a.sum_spec(b.sum_spec(c))
    &&& forall|a: D| #[trigger] D::zero_spec().sum_spec(a) == a
}

/// [`DimLike::zero`], under the law of `D`.
pub(crate) fn zero<D: DimLike>() -> (r: D)
    requires
        lawful::<D>(),
    ensures
        r == D::zero_spec(),
{
    proof {
        reveal(lawful);
    }
    D::zero()
}

/// [`DimLike::of_count`], under the law of `D`.
pub(crate) fn of_count<D: DimLike>(n: usize) -> (r: D)
    requires
        lawful::<D>(),
    ensures
        r == D::of_count_spec(n),
{
    proof {
        reveal(lawful);
    }
    D::of_count(n)
}

/// [`DimLike::duplicate`], under the law of `D`.
pub(crate) fn duplicate<D: DimLike>(a: &D) -> (r: D)
    requires
        lawful::<D>(),
    ensures
        r == *a,
{
    proof {
        reveal(lawful);
    }
    a.duplicate()
}

/// [`DimLike::sum`], under the law of `D`.
pub(crate) fn sum<D: DimLike>(a: &D, b: &D) -> (r: D)
    requires
        lawful::<D>(),
    ensures
        r == (*a).sum_spec(*b),
{
    proof {
        reveal(lawful);
    }
    a.sum(b)
}

/// [`DimLike::difference`], under the law of `D`.
pub(crate) fn difference<D: DimLike>(a: &D, b: &D) -> (r: D)
    requires
        lawful::<D>(),
    ensures
        r == (*a).difference_spec(*b),
{
    proof {
        reveal(lawful);
    }
    a.difference(b)
}

/// [`DimLike::product`], under the law of `D`.
pub(crate) fn product<D: DimLike>(a: &D, b: &D) -> (r: D)
    requires
        lawful::<D>(),
    ensures
        r == (*a).product_spec(*b),
{
    proof {
        reveal(lawful);
    }
    a.product(b)
}

/// [`DimLike::same`], under the law of `D`.
pub(crate) fn same<D: DimLike>(a: &D, b: &D) -> (r: bool)
    requires
        lawful::<D>(),
    ensures
        r == (*a).same_spec(*b),
{
    proof {
        reveal(lawful);
    }
    a.same(b)
}

/// [`DimLike::is_zero`], under the law of `D`.
pub(crate) fn is_zero<D: DimLike>(a: &D) -> (r: bool)
    requires
        lawful::<D>(),
    ensures
        r == (*a).is_zero_spec(),
{
    proof {
        reveal(lawful);
    }
    a.is_zero()
}

/// [`DimLike::proves_nonneg`], under the law of `D`.
pub(crate) fn proves_nonneg<D: DimLike>(a: &D) -> (r: bool)
    requires
        lawful::<D>(),
    ensures
        r == (*a).proves_nonneg_spec(),
{
    proof {
        reveal(lawful);
    }
    a.proves_nonneg()
}

/// [`DimLike::to_usize`], under the law of `D`.
pub(crate) fn to_usize<D: DimLike>(a: &D) -> (r: Option<usize>)
    requires
        lawful::<D>(),
    ensures
        r == (*a).to_usize_spec(),
{
    proof {
        reveal(lawful);
    }
    a.to_usize()
}

/// [`DimLike::symbol`], under the law of `D`.
pub(crate) fn symbol<D: DimLike>(a: &D) -> (r: Option<u64>)
    requires
        lawful::<D>(),
    ensures
        r == (*a).symbol_spec(),
{
    proof {
        reveal(lawful);
    }
    a.symbol()
}

/// [`DimLike::coordinate`], under the law of `D`.
pub(crate) fn coordinate<D: DimLike>(axis: usize) -> (r: D)
    requires
        lawful::<D>(),
    ensures
        r == D::coordinate_spec(axis),
{
    proof {
        reveal(lawful);
    }
    D::coordinate(axis)
}

/// [`DimLike::mentions`], under the law of `D`.
pub(crate) fn mentions<D: DimLike>(a: &D, axis: usize) -> (r: bool)
    requires
        lawful::<D>(),
    ensures
        r == (*a).mentions_spec(axis),
{
    proof {
        reveal(lawful);
    }
    a.mentions(axis)
}

/// [`DimLike::substitute`], under the law of `D`.
pub(crate) fn substitute<D: DimLike>(a: &D, axis: usize, b: &D) -> (r: Option<D>)
    requires
        lawful::<D>(),
    ensures
        r == (*a).substitute_spec(axis, *b),
{
    proof {
        reveal(lawful);
    }
    a.substitute(axis, b)
}

/// The product of the dimensions, from the left.
pub open spec fn volume_spec<D: DimLike>(shape: Seq<D>) -> D
    decreases shape.len(),
{
    if shape.len() == 0 {
        D::of_count_spec(1)
    } else {
        volume_spec(shape.drop_last()).product_spec(shape.last())
    }
}

/// The product of the dimensions.
pub fn volume<D: DimLike>(shape: &Vec<D>) -> (r: D)
    requires
        lawful::<D>(),
    ensures
        r == volume_spec(shape@),
{
    let mut acc: D = of_count(1);
    let mut i: usize = 0;
    assert(shape@.take(0) =~= Seq::<D>::empty());
    while i < shape.len()
        invariant
            lawful::<D>(),
            i <= shape@.len(),
            acc == volume_spec(shape@.take(i as int)),
        decreases shape@.len() - i,
    {
        acc = product(&acc, &shape[i]);
        proof {
            assert(shape@.take(i + 1).drop_last() =~= shape@.take(i as int));
        }
        i += 1;
    }
    proof {
        assert(shape@.take(i as int) =~= shape@);
    }
    acc
}

/// A copy of a shape.
pub(crate) fn duplicate_all<D: DimLike>(shape: &Vec<D>) -> (r: Vec<D>)
    requires
        lawful::<D>(),
    ensures
        r@ == shape@,
{
    let mut r: Vec<D> = Vec::new();
    let mut i: usize = 0;
    while i < shape.len()
        invariant
            lawful::<D>(),
            i <= shape@.len(),
            r@ == shape@.take(i as int),
        decreases shape@.len() - i,
    {
        r.push(duplicate(&shape[i]));
        proof {
            assert(r@ =~= shape@.take(i + 1));
        }
        i += 1;
    }
    proof {
        assert(shape@.take(i as int) =~= shape@);
    }
    r
}

} // verus!
