//! Matrices that are packed panel by panel, as a product asks for them.

use vstd::prelude::*;

use crate::datum::DatumType;
use crate::dims;
use crate::dims::DimLike;
use crate::fact::TypedFact;
use crate::math;
use crate::mmm::WeightType;
use crate::tensor;
use crate::tensor::NdArray;
use crate::text;

verus! {

/// How a matrix is packed: in panels of `r` rows or columns.
#[derive(Debug, Clone)]
pub struct PackedFormat {
    pub name: String,
    pub dt: DatumType,
    pub r: usize,
    pub precursor: WeightType,
    pub k_alignment: usize,
}

impl PackedFormat {
    /// Whether two formats are the same.
    pub open spec fn alike(&self, other: &Self) -> bool {
        &&& self.name@ == other.name@
        &&& self.dt == other.dt
        &&& self.r == other.r
        &&& self.precursor == other.precursor
        &&& self.k_alignment == other.k_alignment
    }

    /// Whether two formats are the same.
    pub fn same(&self, other: &Self) -> (r: bool)
        ensures
            r == self.alike(other),
    {
        self.name == other.name && self.dt == other.dt && self.r == other.r && self.precursor
            == other.precursor && self.k_alignment == other.k_alignment
    }

    /// A copy.
    pub fn duplicate(&self) -> (r: Self)
        ensures
            r.alike(self),
    {
        PackedFormat {
            name: self.name.clone(),
            dt: self.dt,
            r: self.r,
            precursor: self.precursor,
            k_alignment: self.k_alignment,
        }
    }
}

/// Why a lazily packed matrix does not serve a request.
#[derive(Clone, Copy, Debug, PartialEq, Eq, Structural)]
pub enum LazyPackError {
    /// The matrix is not packed ahead of time.
    Prepare,
    /// Single rows are not unpacked.
    Extract,
    /// There is more than one matrix.
    NotSingle,
}

/// A packed format whose panels are made on demand.
#[derive(Debug, Clone)]
pub struct LazyPackFormat(pub PackedFormat);

impl LazyPackFormat {
    /// The format in words.
    pub fn text(&self) -> (r: String)
        ensures
            r@ == "Lazy"@ + self.0.name@,
    {
        text::joined("Lazy", self.0.name.as_str())
    }

    /// The number of rows or columns of a panel.
    pub fn r(&self) -> (r: usize)
        ensures
            r == self.0.r,
    {
        self.0.r
    }

    /// What the elements are before they are packed.
    pub fn precursor(&self) -> (r: WeightType)
        ensures
            r == self.0.precursor,
    {
        self.0.precursor
    }

    /// What the inner dimension is rounded up to a multiple of.
    pub fn k_alignment(&self) -> (r: usize)
        ensures
            r == self.0.k_alignment,
    {
        self.0.k_alignment
    }

    /// The bytes that all panels together would take. Only one is ever there;
    /// what is counted is the matrix as if it had been packed.
    pub fn mem_size<D: DimLike>(&self, k: &D, mn: &D) -> (r: D)
        requires
            dims::lawful::<D>(),
        ensures
            r == k.product_spec(*mn).product_spec(D::of_count_spec(self.0.dt.size() as usize)),
    {
        dims::product(&dims::product(k, mn), &dims::of_count(self.0.dt.size_of()))
    }

    /// Nothing is packed ahead of time.
    pub fn prepare_tensor(&self) -> (r: Result<(), LazyPackError>)
        ensures
            r == Err::<(), LazyPackError>(LazyPackError::Prepare),
    {
        Err(LazyPackError::Prepare)
    }

    /// Nothing is packed ahead of time.
    pub fn prepare_one_view(&self) -> (r: Result<(), LazyPackError>)
        ensures
            r == Err::<(), LazyPackError>(LazyPackError::Prepare),
    {
        Err(LazyPackError::Prepare)
    }
}

/// Turns a tensor into a matrix that is packed on demand.
#[derive(Debug, Clone)]
pub struct LazyMatMulPack {
    pub packer: PackedFormat,
    pub k_axis: usize,
    pub mn_axis: usize,
}

/// What is known of a packed matrix before it is computed.
#[derive(Debug)]
pub struct PackedFact<D> {
    pub fact: TypedFact<D>,
    pub k: D,
    pub mn: D,
    pub format: LazyPackFormat,
}

/// The larger of two axes.
pub open spec fn later_axis(a: usize, b: usize) -> usize {
    if a < b {
        b
    } else {
        a
    }
}

/// The smaller of two axes.
pub open spec fn earlier_axis(a: usize, b: usize) -> usize {
    if a < b {
        a
    } else {
        b
    }
}

impl LazyMatMulPack {
    /// Whether a shape has both axes.
    pub open spec fn has_axes(&self, rank: nat) -> bool {
        &&& later_axis(self.k_axis, self.mn_axis) < rank
        &&& earlier_axis(self.k_axis, self.mn_axis) < rank - 1
    }

    /// A shape without the two axes of the matrix.
    pub open spec fn without_axes<A>(&self, shape: Seq<A>) -> Seq<A> {
        shape.remove(later_axis(self.mn_axis, self.k_axis) as int).remove(
            earlier_axis(self.mn_axis, self.k_axis) as int,
        )
    }

    fn drop_axes<A>(&self, shape: Vec<A>) -> (r: Vec<A>)
        requires
            self.has_axes(shape@.len()),
        ensures
            r@ == self.without_axes(shape@),
    {
        let mut r = shape;
        let (early, late): (usize, usize) = if self.mn_axis < self.k_axis {
            (self.mn_axis, self.k_axis)
        } else {
            (self.k_axis, self.mn_axis)
        };
        r.remove(late);
        r.remove(early);
        r
    }

    /// The operator's name.
    pub fn name(&self) -> (r: &'static str)
        ensures
            r@ == "LazyMatMulPack"@,
    {
        "LazyMatMulPack"
    }

    /// The shape without the two axes of the matrix.
    pub fn output_shape<D: DimLike>(&self, input: &Vec<D>) -> (r: Vec<D>)
        requires
            dims::lawful::<D>(),
            self.has_axes(input@.len()),
        ensures
            r@ == self.without_axes(input@),
    {
        self.drop_axes(dims::duplicate_all(input))
    }

    /// The output: one packed matrix, known by its inner and outer dimension.
    pub fn output_facts<D: DimLike>(&self, input: &TypedFact<D>) -> (r: PackedFact<D>)
        requires
            dims::lawful::<D>(),
            self.has_axes(input.shape@.len()),
        ensures
            r.fact.datum_type == input.datum_type,
            r.fact.shape@ == self.without_axes(input.shape@),
            r.k == input.shape@[self.k_axis as int],
            r.mn == input.shape@[self.mn_axis as int],
            r.format.0.alike(&self.packer),
    {
        PackedFact {
            fact: TypedFact {
                datum_type: input.datum_type,
                shape: self.output_shape(&input.shape),
            },
            k: dims::duplicate(&input.shape[self.k_axis]),
            mn: dims::duplicate(&input.shape[self.mn_axis]),
            format: LazyPackFormat(self.packer.duplicate()),
        }
    }

    /// Whether a shape is that of a single matrix: every other axis has extent 1.
    pub open spec fn single(&self, shape: Seq<usize>) -> bool {
        forall|i: int|
            0 <= i < self.without_axes(shape).len() ==> #[trigger] self.without_axes(shape)[i] == 1
    }

    /// The matrix that is packed on demand, with the shape that the output has.
    pub fn eval<T>(&self, input: NdArray<T>) -> (r: Result<
        (LazyPackedInput<T>, Vec<usize>),
        LazyPackError,
    >)
        requires
            input.wf(),
            self.has_axes(input.shape@.len()),
            tensor::volume(input.shape@.skip(self.k_axis + 1)) <= usize::MAX,
            tensor::volume(input.shape@.skip(self.mn_axis + 1)) <= usize::MAX,
        ensures
            !self.single(input.shape@) ==> r == Err::<
                (LazyPackedInput<T>, Vec<usize>),
                LazyPackError,
            >(LazyPackError::NotSingle),
            self.single(input.shape@) ==> match r {
                Ok((value, shape)) => {
                    &&& value.tensor == input
                    &&& value.wf()
                    &&& value.k_axis == self.k_axis
                    &&& value.mn_axis == self.mn_axis
                    &&& value.k == input.shape@[self.k_axis as int]
                    &&& value.mn == input.shape@[self.mn_axis as int]
                    &&& value.packer.alike(&self.packer)
                    &&& shape@ == self.without_axes(input.shape@)
                },
                Err(_) => false,
            },
    {
        let shape = self.drop_axes(vstd::slice::slice_to_vec(input.shape.as_slice()));
        let mut i: usize = 0;
        while i < shape.len()
            invariant
                i <= shape@.len(),
                shape@ == self.without_axes(input.shape@),
                forall|j: int| 0 <= j < i ==> #[trigger] shape@[j] == 1,
            decreases shape@.len() - i,
        {
            if shape[i] != 1 {
                assert(self.without_axes(input.shape@)[i as int] != 1);
                return Err(LazyPackError::NotSingle);
            }
            i += 1;
        }
        let (k, mn): (usize, usize) = (input.shape[self.k_axis], input.shape[self.mn_axis]);
        let value = LazyPackedInput {
            tensor: input,
            packer: self.packer.duplicate(),
            k_axis: self.k_axis,
            mn_axis: self.mn_axis,
            k,
            mn,
        };
        Ok((value, shape))
    }
}

/// A matrix that is packed on demand.
#[derive(Debug, Clone)]
pub struct LazyPackedInput<T> {
    pub tensor: NdArray<T>,
    pub packer: PackedFormat,
    pub k_axis: usize,
    pub mn_axis: usize,
    pub k: usize,
    pub mn: usize,
}

/// What is to be packed into one panel: from where to where along the outer
/// dimension, all along the inner one, and how far apart elements lie.
#[derive(Debug, Clone, Copy, PartialEq, Eq, Structural)]
pub struct PanelRequest {
    pub mn: usize,
    pub k_stride: usize,
    pub mn_stride: usize,
    pub k_end: usize,
    pub mn_start: usize,
    pub mn_end: usize,
}

/// Where a panel starts.
pub open spec fn panel_start(i: nat, r: nat) -> nat {
    i * r
}

/// Where a panel ends.
pub open spec fn panel_end(i: nat, r: nat, mn: nat) -> nat {
    math::min((i * r + r) as int, mn as int) as nat
}

/// Every row or column `j` belongs to exactly one panel.
pub proof fn law_panels_partition_the_matrix(r: nat, mn: nat, j: nat, i: nat)
    requires
        r > 0,
        j < mn,
    ensures
        j / r < math::ceil_div(mn, r),
        panel_start(j / r, r) <= j < panel_end(j / r, r, mn),
        panel_start(i, r) <= j < panel_end(i, r, mn) ==> i == j / r,
{
    math::lemma_div_below_ceil(j, mn, r);
    if panel_start(i, r) <= j < panel_end(i, r, mn) {
        assert(i * r == r * i) by (nonlinear_arith);
        vstd::arithmetic::div_mod::lemma_fundamental_div_mod_converse(
            j as int,
            r as int,
            i as int,
            j - i * r,
        );
    }
}

/// Panels follow one another without gaps, from the first row or column to the
/// last.
pub proof fn law_panels_are_adjacent(r: nat, mn: nat, i: nat)
    requires
        r > 0,
        i < math::ceil_div(mn, r),
    ensures
        panel_start(0, r) == 0,
        panel_end(i, r, mn) == if i + 1 == math::ceil_div(mn, r) {
            mn
        } else {
            panel_start(i + 1, r)
        },
{
    math::lemma_ceil_div(mn, r);
    let c = math::ceil_div(mn, r) as int;
    assert(0 * r == 0);
    assert((i + 1) * r == i * r + r) by (nonlinear_arith);
    if i + 1 < c {
        assert((i + 1) * r <= (c - 1) * r) by (nonlinear_arith)
            requires
                i + 1 <= c - 1,
        ;
    } else {
        assert((i + 1) * r == c * r) by (nonlinear_arith)
            requires
                i + 1 == c,
        ;
    }
}

impl<T> LazyPackedInput<T> {
    /// Whether the matrix lies in its tensor along the two axes.
    pub open spec fn wf(&self) -> bool {
        let shape = self.tensor.shape@;
        &&& self.tensor.wf()
        &&& self.k_axis < shape.len()
        &&& self.mn_axis < shape.len()
        &&& self.k == shape[self.k_axis as int]
        &&& self.mn == shape[self.mn_axis as int]
        &&& tensor::volume(shape.skip(self.k_axis + 1)) <= usize::MAX
        &&& tensor::volume(shape.skip(self.mn_axis + 1)) <= usize::MAX
    }

    /// The matrix in words.
    pub fn text(&self) -> (r: String)
        ensures
            r@ == "LazyPacked("@ + self.packer.name@ + ")"@,
    {
        let mut s = text::joined("LazyPacked(", self.packer.name.as_str());
        s.append(")");
        s
    }

    /// What is to be packed for panel `i`.
    pub fn do_panel(&self, i: usize) -> (r: PanelRequest)
        requires
            self.wf(),
            i * self.packer.r + self.packer.r <= usize::MAX,
        ensures
            r.mn == self.mn,
            r.k_stride == tensor::volume(self.tensor.shape@.skip(self.k_axis + 1)),
            r.mn_stride == tensor::volume(self.tensor.shape@.skip(self.mn_axis + 1)),
            r.k_end == self.k,
            r.mn_start == panel_start(i as nat, self.packer.r as nat),
            r.mn_end == panel_end(i as nat, self.packer.r as nat, self.mn as nat),
    {
        let width: usize = self.packer.r;
        proof {
            let shape = self.tensor.shape@;
            let n = shape.len() as int;
            assert(shape.subrange(self.k_axis + 1, n) =~= shape.skip(self.k_axis + 1));
            assert(shape.subrange(self.mn_axis + 1, n) =~= shape.skip(self.mn_axis + 1));
            assert(0 <= i * width) by (nonlinear_arith);
        }
        let rank: usize = self.tensor.shape.len();
        let mn_start: usize = i * width;
        PanelRequest {
            mn: self.mn,
            k_stride: tensor::count_elements(&self.tensor.shape, self.k_axis + 1, rank),
            mn_stride: tensor::count_elements(&self.tensor.shape, self.mn_axis + 1, rank),
            k_end: self.k,
            mn_start,
            mn_end: math::at_most(mn_start + width, self.mn),
        }
    }

    /// What a buffer for one panel has to hold: the inner dimension, and the
    /// bytes of one element.
    pub fn scratch_panel_buffer_layout(&self, dt: DatumType) -> (r: Option<(usize, usize)>)
        ensures
            r == Some((self.k, dt.size() as usize)),
    {
        Some((self.k, dt.size_of()))
    }

    /// The inner dimension.
    pub fn k(&self) -> (r: usize)
        ensures
            r == self.k,
    {
        self.k
    }

    /// The outer dimension.
    pub fn mn(&self) -> (r: usize)
        ensures
            r == self.mn,
    {
        self.mn
    }

    /// The format: packed, on demand.
    pub fn format(&self) -> (r: LazyPackFormat)
        ensures
            r.0.alike(&self.packer),
    {
        LazyPackFormat(self.packer.duplicate())
    }

    /// Whether two matrices are of one format and extent.
    pub fn same_fact(&self, other: &Self) -> (r: bool)
        ensures
            r == (self.packer.alike(&other.packer) && self.k == other.k && self.mn == other.mn),
    {
        self.packer.same(&other.packer) && self.k == other.k && self.mn == other.mn
    }

    /// Whether two matrices are the same, given whether their tensors are.
    pub fn same(&self, other: &Self, same_tensor: bool) -> (r: bool)
        ensures
            r == (self.packer.alike(&other.packer) && self.k == other.k && self.mn == other.mn
                && same_tensor),
    {
        self.same_fact(other) && same_tensor
    }

    /// Single rows are not unpacked.
    pub fn extract_at_mn(&self, mn: usize) -> (r: Result<(), LazyPackError>)
        ensures
            r == Err::<(), LazyPackError>(LazyPackError::Extract),
    {
        Err(LazyPackError::Extract)
    }
}

/// What is left of a shape without the two axes of the matrix: the other extents, in
/// their order. A shape is that of a single matrix where all of them are 1.
pub proof fn law_other_axes_are_kept_in_order<A>(op: &LazyMatMulPack, shape: Seq<A>, i: int)
    requires
        op.k_axis < shape.len(),
        op.mn_axis < shape.len(),
        op.k_axis != op.mn_axis,
        0 <= i < shape.len(),
        i != op.k_axis,
        i != op.mn_axis,
    ensures
        op.has_axes(shape.len()),
        op.without_axes(shape).len() == shape.len() - 2,
        ({
            let before: int = (if op.k_axis < i {
                1int
            } else {
                0
            }) + (if op.mn_axis < i {
                1int
            } else {
                0
            });
            0 <= i - before < shape.len() - 2 && op.without_axes(shape)[i - before] == shape[i]
        }),
{
}

/// A tensor is a single matrix exactly where every axis but the two has extent 1.
pub proof fn law_single_matrix_has_no_other_extent(op: &LazyMatMulPack, shape: Seq<usize>)
    requires
        op.k_axis < shape.len(),
        op.mn_axis < shape.len(),
        op.k_axis != op.mn_axis,
    ensures
        op.single(shape) <==> forall|i: int|
            0 <= i < shape.len() && i != op.k_axis && i != op.mn_axis ==> #[trigger] shape[i] == 1,
{
    let left = op.without_axes(shape);
    if op.single(shape) {
        assert forall|i: int|
            0 <= i < shape.len() && i != op.k_axis && i != op.mn_axis implies #[trigger] shape[i]
            == 1 by {
            law_other_axes_are_kept_in_order(op, shape, i);
            let before: int = (if op.k_axis < i {
                1int
            } else {
                0
            }) + (if op.mn_axis < i {
                1int
            } else {
                0
            });
            assert(left[i - before] == 1);
        }
    }
    if forall|i: int|
        0 <= i < shape.len() && i != op.k_axis && i != op.mn_axis ==> #[trigger] shape[i] == 1 {
        let (a, b) = (
            earlier_axis(op.mn_axis, op.k_axis) as int,
            later_axis(op.mn_axis, op.k_axis) as int,
        );
        assert forall|j: int| 0 <= j < left.len() implies #[trigger] left[j] == 1 by {
            let i = if j < a {
                j
            } else if j + 1 < b {
                j + 1
            } else {
                j + 2
            };
            assert(left[j] == shape[i]);
        }
    }
}

/// Panel `i` holds `r` rows or columns from the one at `i r` on, as far as there are.
pub proof fn law_panel_starts_where_others_end(i: nat, r: nat, mn: nat)
    ensures
        panel_start(i, r) == i * r,
        i * r + r <= mn ==> panel_end(i, r, mn) == i * r + r,
        i * r + r > mn ==> panel_end(i, r, mn) == mn,
{
    assert(i * r >= 0) by (nonlinear_arith);
}

/// Formats are alike where nothing tells them apart.
pub proof fn law_formats_are_told_apart(a: &PackedFormat, b: &PackedFormat)
    ensures
        a.alike(b) <==> a.name@ == b.name@ && a.dt == b.dt && a.r == b.r && a.precursor
            == b.precursor && a.k_alignment == b.k_alignment,
{
}

} // verus!
