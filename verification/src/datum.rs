//! Element types of tensors.

use vstd::prelude::*;

verus! {

/// The element type of a tensor.
#[derive(Clone, Copy, Debug, PartialEq, Eq, Structural, Hash)]
pub enum DatumType {
    Bool,
    U8,
    U16,
    U32,
    U64,
    I8,
    I16,
    I32,
    I64,
    F16,
    F32,
    F64,
}

impl DatumType {
    /// The number of bytes of one element.
    pub open spec fn size(self) -> nat {
        match self {
            DatumType::Bool | DatumType::U8 | DatumType::I8 => 1,
            DatumType::U16 | DatumType::I16 | DatumType::F16 => 2,
            DatumType::U32 | DatumType::I32 | DatumType::F32 => 4,
            DatumType::U64 | DatumType::I64 | DatumType::F64 => 8,
        }
    }

    /// The number of bytes of one element.
    pub fn size_of(&self) -> (r: usize)
        ensures
            r == self.size(),
    {
        match self {
            DatumType::Bool | DatumType::U8 | DatumType::I8 => 1,
            DatumType::U16 | DatumType::I16 | DatumType::F16 => 2,
            DatumType::U32 | DatumType::I32 | DatumType::F32 => 4,
            DatumType::U64 | DatumType::I64 | DatumType::F64 => 8,
        }
    }

    /// Whether the elements are floating point numbers.
    pub open spec fn float(self) -> bool {
        self is F16 || self is F32 || self is F64
    }

    /// Whether the elements are floating point numbers.
    pub fn is_float(&self) -> (r: bool)
        ensures
            r == self.float(),
    {
        match self {
            DatumType::F16 | DatumType::F32 | DatumType::F64 => true,
            _ => false,
        }
    }
}

/// An element takes as many bytes as its type has bits, by eights.
pub proof fn law_sizes_go_by_the_type()
    ensures
        DatumType::Bool.size() == 1 && DatumType::U8.size() == 1 && DatumType::I8.size() == 1,
        DatumType::U16.size() == 2 && DatumType::I16.size() == 2 && DatumType::F16.size() == 2,
        DatumType::U32.size() == 4 && DatumType::I32.size() == 4 && DatumType::F32.size() == 4,
        DatumType::U64.size() == 8 && DatumType::I64.size() == 8 && DatumType::F64.size() == 8,
        forall|t: DatumType| #[trigger] t.float() <==> t is F16 || t is F32 || t is F64,
{
}

} // verus!
