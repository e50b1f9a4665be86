//! Dimensions that are all known ahead.

use vstd::prelude::*;

use crate::dims;
use crate::dims::DimLike;

verus! {

/// A known extent. Sums, differences and products wrap around as machine
/// integers do; there are no symbols, so no coordinate is ever mentioned.
#[derive(Clone, Copy, Debug, PartialEq, Eq, Structural)]
pub struct Extent(pub i64);

impl Extent {
    /// The count that the extent is, where it is one.
    pub open spec fn count(self) -> Option<usize> {
        if 0 <= self.0 <= usize::MAX {
            Some(self.0 as usize)
        } else {
            None
        }
    }
}

impl DimLike for Extent {
    open spec fn zero_spec() -> Self {
        Extent(0)
    }

    fn zero() -> (r: Self)
        ensures
            r == Extent(0),
    {
        Extent(0)
    }

    open spec fn of_count_spec(n: usize) -> Self {
        Extent(n as i64)
    }

    fn of_count(n: usize) -> (r: Self)
        ensures
            r == Extent(n as i64),
    {
        Extent(n as i64)
    }

    fn duplicate(&self) -> (r: Self)
        ensures
            r == *self,
    {
        *self
    }

    open spec fn sum_spec(self, other: Self) -> Self {
        Extent(vstd::wrapping::i64_specs::wrapping_add(self.0, other.0))
    }

    fn sum(&self, other: &Self) -> (r: Self)
        ensures
            r == Extent(vstd::wrapping::i64_specs::wrapping_add(self.0, other.0)),
    {
        Extent(self.0.wrapping_add(other.0))
    }

    open spec fn difference_spec(self, other: Self) -> Self {
        Extent(vstd::wrapping::i64_specs::wrapping_sub(self.0, other.0))
    }

    fn difference(&self, other: &Self) -> (r: Self)
        ensures
            r == Extent(vstd::wrapping::i64_specs::wrapping_sub(self.0, other.0)),
    {
        Extent(self.0.wrapping_sub(other.0))
    }

    open spec fn product_spec(self, other: Self) -> Self {
        Extent(vstd::wrapping::i64_specs::wrapping_mul(self.0, other.0))
    }

    fn product(&self, other: &Self) -> (r: Self)
        ensures
            r == Extent(vstd::wrapping::i64_specs::wrapping_mul(self.0, other.0)),
    {
        Extent(self.0.wrapping_mul(other.0))
    }

    open spec fn same_spec(self, other: Self) -> bool {
        self == other
    }

    fn same(&self, other: &Self) -> (r: bool)
        ensures
            r == (*self == *other),
    {
        self.0 == other.0
    }

    open spec fn is_zero_spec(self) -> bool {
        self.0 == 0
    }

    fn is_zero(&self) -> (r: bool)
        ensures
            r == (self.0 == 0),
    {
        self.0 == 0
    }

    open spec fn proves_nonneg_spec(self) -> bool {
        self.0 >= 0
    }

    fn proves_nonneg(&self) -> (r: bool)
        ensures
            r == (self.0 >= 0),
    {
        self.0 >= 0
    }

    open spec fn to_usize_spec(self) -> Option<usize> {
        self.count()
    }

    fn to_usize(&self) -> (r: Option<usize>)
        ensures
            r == self.count(),
    {
        if self.0 >= 0 && self.0 as u64 <= usize::MAX as u64 {
            Some(self.0 as usize)
        } else {
            None
        }
    }

    open spec fn symbol_spec(self) -> Option<u64> {
        None
    }

    fn symbol(&self) -> (r: Option<u64>)
        ensures
            r is None,
    {
        None
    }

    open spec fn coordinate_spec(axis: usize) -> Self {
        Extent(0)
    }

    fn coordinate(axis: usize) -> (r: Self)
        ensures
            r == Extent(0),
    {
        Extent(0)
    }

    open spec fn mentions_spec(self, axis: usize) -> bool {
        false
    }

    fn mentions(&self, axis: usize) -> (r: bool)
        ensures
            !r,
    {
        false
    }

    open spec fn substitute_spec(self, axis: usize, by: Self) -> Option<Self> {
        Some(self)
    }

    fn substitute(&self, axis: usize, by: &Self) -> (r: Option<Self>)
        ensures
            r == Some(*self),
    {
        Some(*self)
    }
}

/// Every operation on known extents is a function of its operands, sums of
/// counts are the counts of sums, and sums can be regrouped.
pub proof fn law_extents_are_lawful()
    ensures
        dims::lawful::<Extent>(),
        dims::adds_counts::<Extent>(),
        dims::sums_regroup::<Extent>(),
{
    reveal(dims::lawful);
    assert forall|a: usize, b: usize| a + b <= usize::MAX implies #[trigger] Extent::of_count_spec(
        a,
    ).sum_spec(Extent::of_count_spec(b)) == Extent::of_count_spec((a + b) as usize) by {
        lemma_count_wraps(a);
        lemma_count_wraps(b);
        lemma_count_wraps((a + b) as usize);
    }
}

/// A count that is too large for an extent wraps around.
proof fn lemma_count_wraps(n: usize)
    by (bit_vector)
    ensures
        n <= 0x7fff_ffff_ffff_ffff ==> n as i64 == n,
        n > 0x7fff_ffff_ffff_ffff ==> n as i64 == n - 0x1_0000_0000_0000_0000,
{
}

} // verus!
