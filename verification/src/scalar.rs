//! The arithmetic that the numeric kernels are written over.
//!
//! A kernel is generic over its element type. It performs a fixed sequence of
//! operations, and its contract names that sequence through the `*_spec`
//! functions of [`Scalar`]. What the operations compute is the element type's
//! own business; all that a kernel asks is that each be a function of its
//! operands ([`lawful`]).

use vstd::prelude::*;

verus! {

/// An element type: each operation stands beside the spec function that names
/// its result. Machine floating point is the intended implementor.
pub trait Scalar: Copy + Send + Sync {
    /// The additive identity.
    open spec fn zero_spec() -> Self {
        choose|r: Self| #[trigger] call_ensures(Self::zero, (), r)
    }

    /// The additive identity.
    fn zero() -> Self;

    /// The multiplicative identity.
    open spec fn one_spec() -> Self {
        choose|r: Self| #[trigger] call_ensures(Self::one, (), r)
    }

    /// The multiplicative identity.
    fn one() -> Self;

    /// A value above every finite one.
    open spec fn infinity_spec() -> Self {
        choose|r: Self| #[trigger] call_ensures(Self::infinity, (), r)
    }

    /// A value above every finite one.
    fn infinity() -> Self;

    /// A value below every finite one.
    open spec fn neg_infinity_spec() -> Self {
        choose|r: Self| #[trigger] call_ensures(Self::neg_infinity, (), r)
    }

    /// A value below every finite one.
    fn neg_infinity() -> Self;

    /// The number `n`.
    open spec fn of_count_spec(n: usize) -> Self {
        choose|r: Self| #[trigger] call_ensures(Self::of_count, (n,), r)
    }

    /// The number `n`.
    fn of_count(n: usize) -> Self;

    /// `self + other`.
    open spec fn plus_spec(self, other: Self) -> Self {
        choose|r: Self| #[trigger] call_ensures(Self::plus, (self, other), r)
    }

    /// `self + other`.
    fn plus(self, other: Self) -> Self;

    /// `self - other`.
    open spec fn minus_spec(self, other: Self) -> Self {
        choose|r: Self| #[trigger] call_ensures(Self::minus, (self, other), r)
    }

    /// `self - other`.
    fn minus(self, other: Self) -> Self;

    /// `self * other`.
    open spec fn times_spec(self, other: Self) -> Self {
        choose|r: Self| #[trigger] call_ensures(Self::times, (self, other), r)
    }

    /// `self * other`.
    fn times(self, other: Self) -> Self;

    /// `self / other`.
    open spec fn over_spec(self, other: Self) -> Self {
        choose|r: Self| #[trigger] call_ensures(Self::over, (self, other), r)
    }

    /// `self / other`.
    fn over(self, other: Self) -> Self;

    /// The larger of the two.
    open spec fn larger_spec(self, other: Self) -> Self {
        choose|r: Self| #[trigger] call_ensures(Self::larger, (self, other), r)
    }

    /// The larger of the two.
    fn larger(self, other: Self) -> Self;

    /// The smaller of the two.
    open spec fn smaller_spec(self, other: Self) -> Self {
        choose|r: Self| #[trigger] call_ensures(Self::smaller, (self, other), r)
    }

    /// The smaller of the two.
    fn smaller(self, other: Self) -> Self;

    /// `self`, held between `low` and `high`.
    open spec fn clamped_spec(self, low: Self, high: Self) -> Self {
        choose|r: Self| #[trigger] call_ensures(Self::clamped, (self, low, high), r)
    }

    /// `self`, held between `low` and `high`.
    fn clamped(self, low: Self, high: Self) -> Self;

    /// `self * by + onto`, rounded once.
    open spec fn fused_spec(self, by: Self, onto: Self) -> Self {
        choose|r: Self| #[trigger] call_ensures(Self::fused, (self, by, onto), r)
    }

    /// `self * by + onto`, rounded once.
    fn fused(self, by: Self, onto: Self) -> Self;

    /// `-self`.
    open spec fn negated_spec(self) -> Self {
        choose|r: Self| #[trigger] call_ensures(Self::negated, (self,), r)
    }

    /// `-self`.
    fn negated(self) -> Self;

    /// `self`, rounded to the nearest integral value.
    open spec fn rounded_spec(self) -> Self {
        choose|r: Self| #[trigger] call_ensures(Self::rounded, (self,), r)
    }

    /// `self`, rounded to the nearest integral value.
    fn rounded(self) -> Self;

    /// The natural exponential of `self`.
    open spec fn exponential_spec(self) -> Self {
        choose|r: Self| #[trigger] call_ensures(Self::exponential, (self,), r)
    }

    /// The natural exponential of `self`.
    fn exponential(self) -> Self;

    /// `1 / self`.
    open spec fn reciprocal_spec(self) -> Self {
        choose|r: Self| #[trigger] call_ensures(Self::reciprocal, (self,), r)
    }

    /// `1 / self`.
    fn reciprocal(self) -> Self;

    /// The square root of `self`.
    open spec fn square_root_spec(self) -> Self {
        choose|r: Self| #[trigger] call_ensures(Self::square_root, (self,), r)
    }

    /// The square root of `self`.
    fn square_root(self) -> Self;

    /// Whether `self < other`.
    open spec fn below_spec(self, other: Self) -> bool {
        choose|r: bool| #[trigger] call_ensures(Self::below, (self, other), r)
    }

    /// Whether `self < other`.
    fn below(self, other: Self) -> bool;

    /// Whether `self == other`.
    open spec fn equal_spec(self, other: Self) -> bool {
        choose|r: bool| #[trigger] call_ensures(Self::equal, (self, other), r)
    }

    /// Whether `self == other`.
    fn equal(self, other: Self) -> bool;

    /// Whether `self` is neither infinite nor undefined.
    open spec fn finite_spec(self) -> bool {
        choose|r: bool| #[trigger] call_ensures(Self::finite, (self,), r)
    }

    /// Whether `self` is neither infinite nor undefined.
    fn finite(self) -> bool;

    /// `self`, cast to an unsigned byte.
    open spec fn to_code_spec(self) -> u8 {
        choose|r: u8| #[trigger] call_ensures(Self::to_code, (self,), r)
    }

    /// `self`, cast to an unsigned byte.
    fn to_code(self) -> u8;

    /// The bit pattern of `self`.
    open spec fn to_bits_spec(self) -> u32 {
        choose|r: u32| #[trigger] call_ensures(Self::to_bits, (self,), r)
    }

    /// The bit pattern of `self`.
    fn to_bits(self) -> u32;

    /// Whether the target unpacks nibbles sixteen at a time, with fused arithmetic.
    open spec fn vectorized_spec() -> bool {
        choose|r: bool| #[trigger] call_ensures(Self::vectorized, (), r)
    }

    /// Whether the target unpacks nibbles sixteen at a time, with fused arithmetic.
    fn vectorized() -> bool;

    /// The inner product of two vectors of one length.
    open spec fn dot_spec(xs: Seq<Self>, ys: Seq<Self>) -> Self {
        (choose|p: (Self, &[Self], &[Self])|
            p.1@ == xs && p.2@ == ys && #[trigger] call_ensures(Self::dot, (p.1, p.2), p.0)).0
    }

    /// The inner product of two vectors of one length.
    fn dot(xs: &[Self], ys: &[Self]) -> Self;

    /// The sum of the elements.
    open spec fn total_spec(xs: Seq<Self>) -> Self {
        (choose|p: (Self, &[Self])| p.1@ == xs && #[trigger] call_ensures(Self::total, (p.1,), p.0)).0
    }

    /// The sum of the elements.
    fn total(xs: &[Self]) -> Self;
}

/// Whether every operation of `T` is a function of its operands: the one that
/// the spec function of the same name names.
#[verifier::opaque]
pub open spec fn lawful<T: Scalar>() -> bool {
    &&& forall|r: T| #[trigger]
        call_ensures(T::zero, (), r) ==> r == T::zero_spec()
    &&& forall|r: T| #[trigger]
        call_ensures(T::one, (), r) ==> r == T::one_spec()
    &&& forall|r: T| #[trigger]
        call_ensures(T::infinity, (), r) ==> r == T::infinity_spec()
    &&& forall|r: T| #[trigger]
        call_ensures(T::neg_infinity, (), r) ==> r == T::neg_infinity_spec()
    &&& forall|n: usize, r: T| #[trigger]
        call_ensures(T::of_count, (n,), r) ==> r == T::of_count_spec(n)
    &&& forall|a: T, b: T, r: T| #[trigger]
        call_ensures(T::plus, (a, b), r) ==> r == a.plus_spec(b)
    &&& forall|a: T, b: T, r: T| #[trigger]
        call_ensures(T::minus, (a, b), r) ==> r == a.minus_spec(b)
    &&& forall|a: T, b: T, r: T| #[trigger]
        call_ensures(T::times, (a, b), r) ==> r == a.times_spec(b)
    &&& forall|a: T, b: T, r: T| #[trigger]
        call_ensures(T::over, (a, b), r) ==> r == a.over_spec(b)
    &&& forall|a: T, b: T, r: T| #[trigger]
        call_ensures(T::larger, (a, b), r) ==> r == a.larger_spec(b)
    &&& forall|a: T, b: T, r: T| #[trigger]
        call_ensures(T::smaller, (a, b), r) ==> r == a.smaller_spec(b)
    &&& forall|a: T, b: T, c: T, r: T| #[trigger]
        call_ensures(T::clamped, (a, b, c), r) ==> r == a.clamped_spec(b, c)
    &&& forall|a: T, b: T, c: T, r: T| #[trigger]
        call_ensures(T::fused, (a, b, c), r) ==> r == a.fused_spec(b, c)
    &&& forall|a: T, r: T| #[trigger]
        call_ensures(T::negated, (a,), r) ==> r == a.negated_spec()
    &&& forall|a: T, r: T| #[trigger]
        call_ensures(T::rounded, (a,), r) ==> r == a.rounded_spec()
    &&& forall|a: T, r: T| #[trigger]
        call_ensures(T::exponential, (a,), r) ==> r == a.exponential_spec()
    &&& forall|a: T, r: T| #[trigger]
        call_ensures(T::reciprocal, (a,), r) ==> r == a.reciprocal_spec()
    &&& forall|a: T, r: T| #[trigger]
        call_ensures(T::square_root, (a,), r) ==> r == a.square_root_spec()
    &&& forall|a: T, b: T, r: bool| #[trigger]
        call_ensures(T::below, (a, b), r) ==> r == a.below_spec(b)
    &&& forall|a: T, b: T, r: bool| #[trigger]
        call_ensures(T::equal, (a, b), r) ==> r == a.equal_spec(b)
    &&& forall|a: T, r: bool| #[trigger]
        call_ensures(T::finite, (a,), r) ==> r == a.finite_spec()
    &&& forall|a: T, r: u8| #[trigger]
        call_ensures(T::to_code, (a,), r) ==> r == a.to_code_spec()
    &&& forall|a: T, r: u32| #[trigger]
        call_ensures(T::to_bits, (a,), r) ==> r == a.to_bits_spec()
    &&& forall|r: bool| #[trigger]
        call_ensures(T::vectorized, (), r) ==> r == T::vectorized_spec()
    &&& forall|xs: &[T], ys: &[T], r: T| #[trigger]
        call_ensures(T::dot, (xs, ys), r) ==> r == T::dot_spec(xs@, ys@)
    &&& forall|xs: &[T], r: T| #[trigger]
        call_ensures(T::total, (xs,), r) ==> r == T::total_spec(xs@)
}

/// [`Scalar::zero`], under the law of `T`.
pub(crate) fn zero<T: Scalar>() -> (r: T)
    requires
        lawful::<T>(),
    ensures
        r == T::zero_spec(),
{
    proof {
        reveal(lawful);
    }
    T::zero()
}

/// [`Scalar::one`], under the law of `T`.
pub(crate) fn one<T: Scalar>() -> (r: T)
    requires
        lawful::<T>(),
    ensures
        r == T::one_spec(),
{
    proof {
        reveal(lawful);
    }
    T::one()
}

/// [`Scalar::infinity`], under the law of `T`.
pub(crate) fn infinity<T: Scalar>() -> (r: T)
    requires
        lawful::<T>(),
    ensures
        r == T::infinity_spec(),
{
    proof {
        reveal(lawful);
    }
    T::infinity()
}

/// [`Scalar::neg_infinity`], under the law of `T`.
pub(crate) fn neg_infinity<T: Scalar>() -> (r: T)
    requires
        lawful::<T>(),
    ensures
        r == T::neg_infinity_spec(),
{
    proof {
        reveal(lawful);
    }
    T::neg_infinity()
}

/// [`Scalar::of_count`], under the law of `T`.
pub(crate) fn of_count<T: Scalar>(n: usize) -> (r: T)
    requires
        lawful::<T>(),
    ensures
        r == T::of_count_spec(n),
{
    proof {
        reveal(lawful);
    }
    T::of_count(n)
}

/// [`Scalar::plus`], under the law of `T`.
pub(crate) fn plus<T: Scalar>(a: T, b: T) -> (r: T)
    requires
        lawful::<T>(),
    ensures
        r == a.plus_spec(b),
{
    proof {
        reveal(lawful);
    }
    a.plus(b)
}

/// [`Scalar::minus`], under the law of `T`.
pub(crate) fn minus<T: Scalar>(a: T, b: T) -> (r: T)
    requires
        lawful::<T>(),
    ensures
        r == a.minus_spec(b),
{
    proof {
        reveal(lawful);
    }
    a.minus(b)
}

/// [`Scalar::times`], under the law of `T`.
pub(crate) fn times<T: Scalar>(a: T, b: T) -> (r: T)
    requires
        lawful::<T>(),
    ensures
        r == a.times_spec(b),
{
    proof {
        reveal(lawful);
    }
    a.times(b)
}

/// [`Scalar::over`], under the law of `T`.
pub(crate) fn over<T: Scalar>(a: T, b: T) -> (r: T)
    requires
        lawful::<T>(),
    ensures
        r == a.over_spec(b),
{
    proof {
        reveal(lawful);
    }
    a.over(b)
}

/// [`Scalar::larger`], under the law of `T`.
pub(crate) fn larger<T: Scalar>(a: T, b: T) -> (r: T)
    requires
        lawful::<T>(),
    ensures
        r == a.larger_spec(b),
{
    proof {
        reveal(lawful);
    }
    a.larger(b)
}

/// [`Scalar::smaller`], under the law of `T`.
pub(crate) fn smaller<T: Scalar>(a: T, b: T) -> (r: T)
    requires
        lawful::<T>(),
    ensures
        r == a.smaller_spec(b),
{
    proof {
        reveal(lawful);
    }
    a.smaller(b)
}

/// [`Scalar::clamped`], under the law of `T`.
pub(crate) fn clamped<T: Scalar>(a: T, b: T, c: T) -> (r: T)
    requires
        lawful::<T>(),
    ensures
        r == a.clamped_spec(b, c),
{
    proof {
        reveal(lawful);
    }
    a.clamped(b, c)
}

/// [`Scalar::fused`], under the law of `T`.
pub(crate) fn fused<T: Scalar>(a: T, b: T, c: T) -> (r: T)
    requires
        lawful::<T>(),
    ensures
        r == a.fused_spec(b, c),
{
    proof {
        reveal(lawful);
    }
    a.fused(b, c)
}

/// [`Scalar::negated`], under the law of `T`.
pub(crate) fn negated<T: Scalar>(a: T) -> (r: T)
    requires
        lawful::<T>(),
    ensures
        r == a.negated_spec(),
{
    proof {
        reveal(lawful);
    }
    a.negated()
}

/// [`Scalar::rounded`], under the law of `T`.
pub(crate) fn rounded<T: Scalar>(a: T) -> (r: T)
    requires
        lawful::<T>(),
    ensures
        r == a.rounded_spec(),
{
    proof {
        reveal(lawful);
    }
    a.rounded()
}

/// [`Scalar::exponential`], under the law of `T`.
pub(crate) fn exponential<T: Scalar>(a: T) -> (r: T)
    requires
        lawful::<T>(),
    ensures
        r == a.exponential_spec(),
{
    proof {
        reveal(lawful);
    }
    a.exponential()
}

/// [`Scalar::reciprocal`], under the law of `T`.
pub(crate) fn reciprocal<T: Scalar>(a: T) -> (r: T)
    requires
        lawful::<T>(),
    ensures
        r == a.reciprocal_spec(),
{
    proof {
        reveal(lawful);
    }
    a.reciprocal()
}

/// [`Scalar::square_root`], under the law of `T`.
pub(crate) fn square_root<T: Scalar>(a: T) -> (r: T)
    requires
        lawful::<T>(),
    ensures
        r == a.square_root_spec(),
{
    proof {
        reveal(lawful);
    }
    a.square_root()
}

/// [`Scalar::below`], under the law of `T`.
pub(crate) fn below<T: Scalar>(a: T, b: T) -> (r: bool)
    requires
        lawful::<T>(),
    ensures
        r == a.below_spec(b),
{
    proof {
        reveal(lawful);
    }
    a.below(b)
}

/// [`Scalar::equal`], under the law of `T`.
pub(crate) fn equal<T: Scalar>(a: T, b: T) -> (r: bool)
    requires
        lawful::<T>(),
    ensures
        r == a.equal_spec(b),
{
    proof {
        reveal(lawful);
    }
    a.equal(b)
}

/// [`Scalar::finite`], under the law of `T`.
pub(crate) fn finite<T: Scalar>(a: T) -> (r: bool)
    requires
        lawful::<T>(),
    ensures
        r == a.finite_spec(),
{
    proof {
        reveal(lawful);
    }
    a.finite()
}

/// [`Scalar::to_code`], under the law of `T`.
pub(crate) fn to_code<T: Scalar>(a: T) -> (r: u8)
    requires
        lawful::<T>(),
    ensures
        r == a.to_code_spec(),
{
    proof {
        reveal(lawful);
    }
    a.to_code()
}

/// [`Scalar::to_bits`], under the law of `T`.
pub(crate) fn to_bits<T: Scalar>(a: T) -> (r: u32)
    requires
        lawful::<T>(),
    ensures
        r == a.to_bits_spec(),
{
    proof {
        reveal(lawful);
    }
    a.to_bits()
}

/// [`Scalar::vectorized`], under the law of `T`.
pub(crate) fn vectorized<T: Scalar>() -> (r: bool)
    requires
        lawful::<T>(),
    ensures
        r == T::vectorized_spec(),
{
    proof {
        reveal(lawful);
    }
    T::vectorized()
}

/// [`Scalar::dot`], under the law of `T`.
pub(crate) fn dot<T: Scalar>(xs: &[T], ys: &[T]) -> (r: T)
    requires
        lawful::<T>(),
    ensures
        r == T::dot_spec(xs@, ys@),
{
    proof {
        reveal(lawful);
    }
    T::dot(xs, ys)
}

/// [`Scalar::total`], under the law of `T`.
pub(crate) fn total<T: Scalar>(xs: &[T]) -> (r: T)
    requires
        lawful::<T>(),
    ensures
        r == T::total_spec(xs@),
{
    proof {
        reveal(lawful);
    }
    T::total(xs)
}

} // verus!
