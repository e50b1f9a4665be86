//! What is known of tensors before they are computed.

use vstd::prelude::*;

use crate::datum::DatumType;
use crate::dims;
use crate::dims::DimLike;

verus! {

/// What is known of a tensor before it is computed.
#[derive(Debug)]
pub struct TypedFact<D> {
    pub datum_type: DatumType,
    pub shape: Vec<D>,
}

impl<D> View for TypedFact<D> {
    type V = (DatumType, Seq<D>);

    open spec fn view(&self) -> (DatumType, Seq<D>) {
        (self.datum_type, self.shape@)
    }
}

impl<D: DimLike> TypedFact<D> {
    /// A copy.
    pub fn duplicate(&self) -> (r: Self)
        requires
            dims::lawful::<D>(),
        ensures
            r@ == self@,
    {
        TypedFact { datum_type: self.datum_type, shape: dims::duplicate_all(&self.shape) }
    }
}

} // verus!
