//! Concatenation of tensors along an axis.

use vstd::prelude::*;

use crate::dims;
use crate::dims::DimLike;
use crate::fact::TypedFact;
use crate::math;
use crate::tensor;
use crate::tensor::NdArray;
use crate::text;

verus! {

/// Why a concatenation is refused.
#[derive(Clone, Copy, Debug, PartialEq, Eq, Structural)]
pub enum ConcatError {
    /// There is nothing to concatenate.
    NoInput,
    /// The inputs differ in rank, or on an axis other than the concatenated one.
    Inconsistent,
}

/// A slice of one tensor along one axis.
#[derive(Debug)]
pub struct Slice<D> {
    pub axis: usize,
    pub start: D,
    pub end: D,
}

/// What a slice of a concatenation turns into.
#[derive(Debug)]
pub enum SliceOutcome<D> {
    /// The slice is on another axis: concatenate the sliced inputs.
    Rewire,
    /// The slice lies within one input: slice that input alone.
    OneInput { input: usize, slice: Slice<D> },
    /// Nothing is known to be simpler.
    Keep,
}

/// What a concatenation simplifies to.
#[derive(Clone, Copy, Debug, PartialEq, Eq, Structural)]
pub enum Declutter {
    /// A single input: the node passes it on.
    Shunt,
    /// An input without elements: concatenate the others.
    DropInput(usize),
    /// Nothing to simplify.
    Keep,
}

/// Concatenation along `axis`.
#[derive(Clone, Debug, PartialEq, Eq, Structural, Hash)]
pub struct TypedConcat {
    pub axis: usize,
}

impl TypedConcat {
    /// Concatenation along `axis`.
    pub fn new(axis: usize) -> (r: Self)
        ensures
            r.axis == axis,
    {
        TypedConcat { axis }
    }

    /// The operator's name.
    pub fn name(&self) -> (r: &'static str)
        ensures
            r@ == "Concat"@,
    {
        "Concat"
    }

    /// One line about the operator.
    pub fn info(&self) -> (r: Vec<String>)
        ensures
            r@.len() == 1,
            r@[0]@ == "axis: "@ + text::decimal(self.axis as nat),
    {
        let mut s = "axis: ".to_owned();
        text::push_decimal(&mut s, self.axis);
        let mut r: Vec<String> = Vec::new();
        r.push(s);
        r
    }

    /// The result depends on the inputs alone.
    pub fn is_stateless(&self) -> (r: bool)
        ensures
            r,
    {
        true
    }

    /// Where each input starts on the concatenated axis, and where the last ends.
    pub open spec fn offsets_spec<D: DimLike>(&self, inputs: Seq<&TypedFact<D>>) -> Seq<D>
        decreases inputs.len(),
    {
        if inputs.len() == 0 {
            seq![D::zero_spec()]
        } else {
            let before = self.offsets_spec(inputs.drop_last());
            before.push(inputs.last().shape@[self.axis as int].sum_spec(before.last()))
        }
    }

    /// Whether every input has the concatenated axis.
    pub open spec fn has_axis<D>(&self, inputs: Seq<&TypedFact<D>>) -> bool {
        forall|i: int| 0 <= i < inputs.len() ==> self.axis < (#[trigger] inputs[i]).shape@.len()
    }

    /// Whether two shapes agree on every axis but the concatenated one.
    pub open spec fn agrees<D: DimLike>(&self, shape: Seq<D>, reference: Seq<D>) -> bool {
        &&& shape.len() == reference.len()
        &&& forall|ax: int|
            0 <= ax < shape.len() && ax != self.axis ==> (#[trigger] shape[ax]).same_spec(
                reference[ax],
            )
    }

    /// Whether every input agrees with the first.
    pub open spec fn consistent<D: DimLike>(&self, inputs: Seq<&TypedFact<D>>) -> bool {
        forall|i: int|
            0 <= i < inputs.len() ==> self.agrees(
                (#[trigger] inputs[i]).shape@,
                inputs[0].shape@,
            )
    }

    /// There is one more offset than there are inputs.
    pub proof fn lemma_offsets_len<D: DimLike>(&self, inputs: Seq<&TypedFact<D>>)
        ensures
            self.offsets_spec(inputs).len() == inputs.len() + 1,
        decreases inputs.len(),
    {
        if inputs.len() > 0 {
            self.lemma_offsets_len(inputs.drop_last());
        }
    }

    /// Where each input starts on the concatenated axis, and where the last ends.
    pub fn offsets<D: DimLike>(&self, inputs: &[&TypedFact<D>]) -> (r: Result<Vec<D>, ConcatError>)
        requires
            dims::lawful::<D>(),
            self.has_axis(inputs@),
        ensures
            r is Ok,
            r->Ok_0@ == self.offsets_spec(inputs@),
            r->Ok_0@.len() == inputs@.len() + 1,
    {
        let mut offsets: Vec<D> = Vec::new();
        offsets.push(dims::zero());
        let mut i: usize = 0;
        proof {
            assert(inputs@.take(0) =~= Seq::<&TypedFact<D>>::empty());
            assert(offsets@ =~= self.offsets_spec(inputs@.take(0)));
        }
        while i < inputs.len()
            invariant
                dims::lawful::<D>(),
                self.has_axis(inputs@),
                i <= inputs@.len(),
                offsets@ == self.offsets_spec(inputs@.take(i as int)),
                offsets@.len() == i + 1,
            decreases inputs@.len() - i,
        {
            let fact: &TypedFact<D> = inputs[i];
            let offset = dims::sum(&fact.shape[self.axis], &offsets[offsets.len() - 1]);
            offsets.push(offset);
            proof {
                assert(inputs@.take(i + 1).drop_last() =~= inputs@.take(i as int));
            }
            i += 1;
        }
        proof {
            assert(inputs@.take(i as int) =~= inputs@);
        }
        Ok(offsets)
    }

    /// Whether `shape` agrees with `reference` on every axis but the
    /// concatenated one.
    fn check_agrees<D: DimLike>(&self, shape: &Vec<D>, reference: &Vec<D>) -> (r: bool)
        requires
            dims::lawful::<D>(),
        ensures
            r == self.agrees(shape@, reference@),
    {
        if shape.len() != reference.len() {
            return false;
        }
        let mut ax: usize = 0;
        while ax < shape.len()
            invariant
                dims::lawful::<D>(),
                ax <= shape@.len(),
                shape@.len() == reference@.len(),
                forall|k: int|
                    0 <= k < ax && k != self.axis ==> (#[trigger] shape@[k]).same_spec(
                        reference@[k],
                    ),
            decreases shape@.len() - ax,
        {
            if ax != self.axis && !dims::same(&shape[ax], &reference[ax]) {
                assert(!shape@[ax as int].same_spec(reference@[ax as int]));
                return false;
            }
            ax += 1;
        }
        true
    }

    /// The fact of the output: the first input's, with the extents on the
    /// concatenated axis summed.
    pub fn output_facts<D: DimLike>(&self, inputs: &[&TypedFact<D>]) -> (r: Result<
        TypedFact<D>,
        ConcatError,
    >)
        requires
            dims::lawful::<D>(),
            inputs@.len() > 0 && self.consistent(inputs@) ==> self.axis < inputs@[0].shape@.len(),
        ensures
            inputs@.len() == 0 <==> r == Err::<TypedFact<D>, ConcatError>(ConcatError::NoInput),
            inputs@.len() > 0 && !self.consistent(inputs@) <==> r == Err::<
                TypedFact<D>,
                ConcatError,
            >(ConcatError::Inconsistent),
            inputs@.len() > 0 && self.consistent(inputs@) <==> r is Ok,
            r matches Ok(fact) ==> {
                &&& fact.datum_type == inputs@[0].datum_type
                &&& fact.shape@ == inputs@[0].shape@.update(
                    self.axis as int,
                    self.offsets_spec(inputs@).last(),
                )
            },
    {
        if inputs.len() == 0 {
            return Err(ConcatError::NoInput);
        }
        let first: &TypedFact<D> = inputs[0];
        let mut i: usize = 0;
        while i < inputs.len()
            invariant
                dims::lawful::<D>(),
                i <= inputs@.len(),
                inputs@.len() > 0,
                first == inputs@[0],
                forall|k: int|
                    0 <= k < i ==> self.agrees((#[trigger] inputs@[k]).shape@, first.shape@),
            decreases inputs@.len() - i,
        {
            let fact: &TypedFact<D> = inputs[i];
            if !self.check_agrees(&fact.shape, &first.shape) {
                assert(!self.agrees(inputs@[i as int].shape@, inputs@[0].shape@));
                return Err(ConcatError::Inconsistent);
            }
            i += 1;
        }
        assert(self.consistent(inputs@));
        assert(self.has_axis(inputs@));
        let mut shape = dims::duplicate_all(&first.shape);
        match self.offsets(inputs) {
            Ok(mut offsets) => {
                let ghost all = offsets@;
                if let Some(end) = offsets.pop() {
                    assert(end == all.last());
                    shape.set(self.axis, end);
                }
                assert(shape@ =~= inputs@[0].shape@.update(self.axis as int, all.last()));
                Ok(TypedFact { datum_type: first.datum_type, shape })
            },
            Err(e) => Err(e),
        }
    }

    /// The region that input `ix` has to provide for the output region `roi`:
    /// the coordinate on the concatenated axis moves by the input's offset.
    pub open spec fn branch_roi<D: DimLike>(&self, roi: D, offset: D) -> D {
        if !roi.mentions_spec(self.axis) || offset.is_zero_spec() {
            roi
        } else {
            match roi.substitute_spec(
                self.axis,
                D::coordinate_spec(self.axis).sum_spec(offset),
            ) {
                Some(moved) => moved,
                None => roi,
            }
        }
    }

    /// The region of interest of each input, for that of the output.
    pub fn input_roi<D: DimLike>(&self, roi: Option<&D>, inputs: &[&TypedFact<D>]) -> (r: Option<
        Vec<Option<D>>,
    >)
        requires
            dims::lawful::<D>(),
            roi is Some ==> self.has_axis(inputs@),
        ensures
            r is None <==> roi is None,
            r matches Some(rois) ==> {
                &&& rois@.len() == inputs@.len()
                &&& forall|i: int|
                    0 <= i < inputs@.len() ==> #[trigger] rois@[i] == Some(
                        self.branch_roi(*roi->Some_0, self.offsets_spec(inputs@)[i]),
                    )
            },
    {
        let roi = match roi {
            Some(roi) => roi,
            None => {
                return None;
            },
        };
        let offsets = match self.offsets(inputs) {
            Ok(offsets) => offsets,
            Err(_) => {
                return None;
            },
        };
        let mentioned: bool = dims::mentions(roi, self.axis);
        let mut rois: Vec<Option<D>> = Vec::new();
        let mut i: usize = 0;
        while i < inputs.len()
            invariant
                dims::lawful::<D>(),
                i <= inputs@.len(),
                offsets@ == self.offsets_spec(inputs@),
                offsets@.len() == inputs@.len() + 1,
                mentioned == roi.mentions_spec(self.axis),
                rois@.len() == i,
                forall|k: int|
                    0 <= k < i ==> #[trigger] rois@[k] == Some(
                        self.branch_roi(*roi, self.offsets_spec(inputs@)[k]),
                    ),
            decreases inputs@.len() - i,
        {
            let shift: &D = &offsets[i];
            if !mentioned || dims::is_zero(shift) {
                rois.push(Some(dims::duplicate(roi)));
            } else {
                let coordinate: D = dims::coordinate(self.axis);
                let shifted = dims::sum(&coordinate, shift);
                match dims::substitute(roi, self.axis, &shifted) {
                    Some(moved) => {
                        rois.push(Some(moved));
                    },
                    None => {
                        rois.push(Some(dims::duplicate(roi)));
                    },
                }
            }
            i += 1;
        }
        Some(rois)
    }

    /// The pairs (axis, input) that tie an axis of the output to the same axis
    /// of an input, for `n` inputs and the first `rank` axes.
    pub open spec fn links(&self, rank: nat, n: nat) -> Seq<(usize, usize)>
        decreases rank,
    {
        if rank == 0 {
            Seq::empty()
        } else {
            let before = self.links((rank - 1) as nat, n);
            if rank - 1 == self.axis {
                before
            } else {
                before + Seq::new(n, |i: int| ((rank - 1) as usize, i as usize))
            }
        }
    }

    /// Ties every axis but the concatenated one across output and inputs.
    pub fn axes_mapping(&self, rank: usize, inputs: usize) -> (r: Vec<(usize, usize)>)
        ensures
            r@ == self.links(rank as nat, inputs as nat),
    {
        let mut links: Vec<(usize, usize)> = Vec::new();
        let mut ax: usize = 0;
        while ax < rank
            invariant
                ax <= rank,
                links@ == self.links(ax as nat, inputs as nat),
            decreases rank - ax,
        {
            let ghost before = links@;
            if ax != self.axis {
                let mut i: usize = 0;
                while i < inputs
                    invariant
                        i <= inputs,
                        links@ == before + Seq::new(i as nat, |k: int| (ax, k as usize)),
                    decreases inputs - i,
                {
                    links.push((ax, i));
                    i += 1;
                    assert(links@ =~= before + Seq::new(i as nat, |k: int| (ax, k as usize)));
                }
                assert(links@ =~= self.links((ax + 1) as nat, inputs as nat));
            }
            ax += 1;
        }
        links
    }

    /// The operator after a change of axes that takes its axis to
    /// `transformed`, or nothing where the change removes the axis.
    pub fn change_axes(&self, transformed: Option<usize>) -> (r: Option<TypedConcat>)
        ensures
            transformed is None <==> r is None,
            r matches Some(op) ==> op.axis == transformed->Some_0,
    {
        match transformed {
            Some(axis) => Some(TypedConcat { axis }),
            None => None,
        }
    }

    /// Whether the input of this fact has no element.
    pub open spec fn is_empty_input<D: DimLike>(fact: &TypedFact<D>) -> bool {
        dims::volume_spec(fact.shape@).is_zero_spec()
    }

    /// What the concatenation simplifies to: a single input is passed on, else
    /// the first input without elements goes.
    pub fn declutter<D: DimLike>(&self, inputs: &[&TypedFact<D>]) -> (r: Declutter)
        requires
            dims::lawful::<D>(),
        ensures
            r is Shunt <==> inputs@.len() == 1,
            r matches Declutter::DropInput(pos) ==> {
                &&& pos < inputs@.len()
                &&& Self::is_empty_input(inputs@[pos as int])
                &&& forall|i: int| 0 <= i < pos ==> !Self::is_empty_input(#[trigger] inputs@[i])
            },
            r is Keep <==> inputs@.len() != 1 && forall|i: int|
                0 <= i < inputs@.len() ==> !Self::is_empty_input(#[trigger] inputs@[i]),
    {
        if inputs.len() == 1 {
            return Declutter::Shunt;
        }
        let mut i: usize = 0;
        while i < inputs.len()
            invariant
                dims::lawful::<D>(),
                i <= inputs@.len(),
                inputs@.len() != 1,
                forall|k: int| 0 <= k < i ==> !Self::is_empty_input(#[trigger] inputs@[k]),
            decreases inputs@.len() - i,
        {
            let fact: &TypedFact<D> = inputs[i];
            let volume = dims::volume(&fact.shape);
            if dims::is_zero(&volume) {
                assert(Self::is_empty_input(inputs@[i as int]));
                return Declutter::DropInput(i);
            }
            assert(!Self::is_empty_input(inputs@[i as int]));
            i += 1;
        }
        Declutter::Keep
    }

    /// Whether `start..end` is known to lie within input `ix`.
    pub open spec fn covers<D: DimLike>(
        &self,
        inputs: Seq<&TypedFact<D>>,
        ix: int,
        start: D,
        end: D,
    ) -> bool {
        let offsets = self.offsets_spec(inputs);
        &&& start.difference_spec(offsets[ix]).proves_nonneg_spec()
        &&& offsets[ix + 1].difference_spec(end).proves_nonneg_spec()
    }

    /// What the slice `start..end` of the output on `output_axis` turns into.
    pub fn slice<D: DimLike>(
        &self,
        inputs: &[&TypedFact<D>],
        output_axis: usize,
        start: &D,
        end: &D,
    ) -> (r: SliceOutcome<D>)
        requires
            dims::lawful::<D>(),
            output_axis == self.axis ==> self.has_axis(inputs@),
        ensures
            r is Rewire <==> output_axis != self.axis,
            r matches SliceOutcome::OneInput { input, slice } ==> {
                let from = self.offsets_spec(inputs@)[input as int];
                &&& input < inputs@.len()
                &&& self.covers(inputs@, input as int, *start, *end)
                &&& forall|i: int|
                    0 <= i < input ==> !#[trigger] self.covers(inputs@, i, *start, *end)
                &&& slice.axis == self.axis
                &&& slice.start == start.difference_spec(from)
                &&& slice.end == end.difference_spec(from)
            },
            r is Keep <==> output_axis == self.axis && forall|i: int|
                0 <= i < inputs@.len() ==> !#[trigger] self.covers(inputs@, i, *start, *end),
    {
        if output_axis != self.axis {
            return SliceOutcome::Rewire;
        }
        let offsets = match self.offsets(inputs) {
            Ok(offsets) => offsets,
            Err(_) => {
                return SliceOutcome::Keep;
            },
        };
        let mut ix: usize = 0;
        while ix < inputs.len()
            invariant
                dims::lawful::<D>(),
                ix <= inputs@.len(),
                output_axis == self.axis,
                offsets@ == self.offsets_spec(inputs@),
                offsets@.len() == inputs@.len() + 1,
                forall|i: int| 0 <= i < ix ==> !#[trigger] self.covers(inputs@, i, *start, *end),
            decreases inputs@.len() - ix,
        {
            let inside = dims::difference(start, &offsets[ix]);
            let left = dims::difference(&offsets[ix + 1], end);
            if dims::proves_nonneg(&inside) && dims::proves_nonneg(&left) {
                assert(self.covers(inputs@, ix as int, *start, *end));
                return SliceOutcome::OneInput {
                    input: ix,
                    slice: Slice {
                        axis: output_axis,
                        start: inside,
                        end: dims::difference(end, &offsets[ix]),
                    },
                };
            }
            assert(!self.covers(inputs@, ix as int, *start, *end));
            ix += 1;
        }
        SliceOutcome::Keep
    }
}

/// The part of `data` that belongs to position `o` of the axes before the
/// concatenated one, where each position holds `width` elements.
pub open spec fn band<T>(data: Seq<T>, width: nat, o: int) -> Seq<T> {
    data.subrange(o * width, o * width + width)
}

/// The bands of all inputs at position `o`, one behind the other.
pub open spec fn bands<T>(parts: Seq<Seq<T>>, widths: Seq<nat>, o: int) -> Seq<T>
    decreases parts.len(),
{
    if parts.len() == 0 {
        Seq::empty()
    } else {
        bands(parts.drop_last(), widths.drop_last(), o) + band(parts.last(), widths.last(), o)
    }
}

/// The bands of all inputs at the first `outer` positions.
pub open spec fn stacked<T>(parts: Seq<Seq<T>>, widths: Seq<nat>, outer: nat) -> Seq<T>
    decreases outer,
{
    if outer == 0 {
        Seq::empty()
    } else {
        stacked(parts, widths, (outer - 1) as nat) + bands(parts, widths, outer - 1)
    }
}

/// The sum of the extents on `axis`.
pub open spec fn extent_sum<T>(inputs: Seq<&NdArray<T>>, axis: int) -> nat
    decreases inputs.len(),
{
    if inputs.len() == 0 {
        0
    } else {
        extent_sum(inputs.drop_last(), axis) + inputs.last().shape@[axis] as nat
    }
}

/// Whether two shapes are equal on every axis but `axis`.
pub open spec fn shapes_agree(shape: Seq<usize>, reference: Seq<usize>, axis: int) -> bool {
    &&& shape.len() == reference.len()
    &&& forall|ax: int| 0 <= ax < shape.len() && ax != axis ==> #[trigger] shape[ax] == reference[ax]
}

impl TypedConcat {
    /// The number of elements of input `i` at each position of the axes before
    /// the concatenated one.
    pub open spec fn widths<T>(&self, inputs: Seq<&NdArray<T>>) -> Seq<nat> {
        Seq::new(
            inputs.len(),
            |i: int|
                inputs[i].shape@[self.axis as int] as nat * tensor::volume(
                    inputs[0].shape@.skip(self.axis + 1),
                ),
        )
    }

    /// Whether the tensors can be concatenated.
    pub open spec fn stackable<T>(&self, inputs: Seq<&NdArray<T>>) -> bool {
        &&& inputs.len() > 0
        &&& self.axis < inputs[0].shape@.len()
        &&& forall|i: int|
            0 <= i < inputs.len() ==> shapes_agree(
                (#[trigger] inputs[i]).shape@,
                inputs[0].shape@,
                self.axis as int,
            )
    }

    /// The elements of the concatenation.
    pub open spec fn stack<T>(&self, inputs: Seq<&NdArray<T>>) -> Seq<T> {
        stacked(
            Seq::new(inputs.len(), |i: int| inputs[i].data@),
            self.widths(inputs),
            tensor::volume(inputs[0].shape@.take(self.axis as int)),
        )
    }
}

/// Inputs without elements stack to nothing.
proof fn lemma_stacked_nothing<T>(parts: Seq<Seq<T>>, widths: Seq<nat>, outer: nat)
    requires
        parts.len() == widths.len(),
        outer == 0 || forall|i: int| 0 <= i < widths.len() ==> #[trigger] widths[i] == 0,
        forall|i: int| 0 <= i < parts.len() ==> (#[trigger] parts[i]).len() == 0,
    ensures
        stacked(parts, widths, outer) == Seq::<T>::empty(),
    decreases outer,
{
    if outer > 0 {
        lemma_stacked_nothing(parts, widths, (outer - 1) as nat);
        lemma_bands_nothing(parts, widths, outer - 1);
        assert(stacked(parts, widths, outer) =~= Seq::<T>::empty());
    }
}

/// Bands of width zero are empty.
proof fn lemma_bands_nothing<T>(parts: Seq<Seq<T>>, widths: Seq<nat>, o: int)
    requires
        parts.len() == widths.len(),
        forall|i: int| 0 <= i < widths.len() ==> #[trigger] widths[i] == 0,
        forall|i: int| 0 <= i < parts.len() ==> (#[trigger] parts[i]).len() == 0,
    ensures
        bands(parts, widths, o) == Seq::<T>::empty(),
    decreases parts.len(),
{
    if parts.len() > 0 {
        lemma_bands_nothing(parts.drop_last(), widths.drop_last(), o);
        assert(o * 0 == 0) by (nonlinear_arith);
        assert(widths.last() == 0);
        assert(parts.last().len() == 0);
        assert(bands(parts, widths, o) =~= Seq::<T>::empty());
    }
}

/// Copies one band of one input behind what is there.
fn copy_band<T: Copy>(data: &Vec<T>, width: usize, o: usize, out: &mut Vec<T>)
    requires
        o * width + width <= data@.len(),
    ensures
        final(out)@ == old(out)@ + band(data@, width as nat, o as int),
{
    proof {
        assert(data.len() == data@.len());
        assert(0 <= o * width) by (nonlinear_arith);
    }
    let start: usize = o * width;
    let mut j: usize = 0;
    while j < width
        invariant
            j <= width,
            start == o * width,
            0 <= o * width,
            o * width + width <= data.len(),
            data.len() == data@.len(),
            out@ == old(out)@ + data@.subrange(start as int, start + j),
        decreases width - j,
    {
        out.push(data[start + j]);
        j += 1;
        assert(out@ =~= old(out)@ + data@.subrange(start as int, start + j));
    }
    assert(out@ =~= old(out)@ + band(data@, width as nat, o as int));
}

/// Whether two shapes are equal on every axis but `axis`.
fn check_shapes_agree(shape: &Vec<usize>, reference: &Vec<usize>, axis: usize) -> (r: bool)
    ensures
        r == shapes_agree(shape@, reference@, axis as int),
{
    if shape.len() != reference.len() {
        return false;
    }
    let mut ax: usize = 0;
    while ax < shape.len()
        invariant
            ax <= shape@.len(),
            shape@.len() == reference@.len(),
            forall|k: int| 0 <= k < ax && k != axis ==> #[trigger] shape@[k] == reference@[k],
        decreases shape@.len() - ax,
    {
        if ax != axis && shape[ax] != reference[ax] {
            return false;
        }
        ax += 1;
    }
    true
}

impl TypedConcat {
    /// Whether the tensors can be concatenated.
    fn check_stackable<T>(&self, inputs: &[&NdArray<T>]) -> (r: bool)
        ensures
            r == self.stackable(inputs@),
    {
        if inputs.len() == 0 {
            return false;
        }
        let first: &NdArray<T> = inputs[0];
        if self.axis >= first.shape.len() {
            return false;
        }
        let mut i: usize = 0;
        while i < inputs.len()
            invariant
                i <= inputs@.len(),
                inputs@.len() > 0,
                first == inputs@[0],
                self.axis < first.shape@.len(),
                forall|k: int|
                    0 <= k < i ==> shapes_agree(
                        (#[trigger] inputs@[k]).shape@,
                        first.shape@,
                        self.axis as int,
                    ),
            decreases inputs@.len() - i,
        {
            let t: &NdArray<T> = inputs[i];
            if !check_shapes_agree(&t.shape, &first.shape, self.axis) {
                assert(!shapes_agree(
                    inputs@[i as int].shape@,
                    inputs@[0].shape@,
                    self.axis as int,
                ));
                return false;
            }
            i += 1;
        }
        true
    }

    /// Every input holds its width at every position of the axes before the
    /// concatenated one.
    proof fn lemma_input_len<T>(&self, inputs: Seq<&NdArray<T>>, i: int)
        requires
            self.stackable(inputs),
            0 <= i < inputs.len(),
            inputs[i].wf(),
        ensures
            inputs[i].data@.len() == tensor::volume(inputs[0].shape@.take(self.axis as int))
                * self.widths(inputs)[i],
            inputs[i].shape@.take(self.axis as int) == inputs[0].shape@.take(self.axis as int),
            inputs[i].shape@.skip(self.axis + 1) == inputs[0].shape@.skip(self.axis + 1),
    {
        let shape = inputs[i].shape@;
        let first = inputs[0].shape@;
        assert(shapes_agree(shape, first, self.axis as int));
        tensor::lemma_volume_around(shape, self.axis as int);
        assert(shape.take(self.axis as int) =~= first.take(self.axis as int));
        assert(shape.skip(self.axis + 1) =~= first.skip(self.axis + 1));
    }

    /// Concatenates the tensors.
    pub fn eval<T: Copy>(&self, inputs: &[&NdArray<T>]) -> (r: Result<NdArray<T>, ConcatError>)
        requires
            forall|i: int| 0 <= i < inputs@.len() ==> (#[trigger] inputs@[i]).wf(),
            self.stackable(inputs@) ==> extent_sum(inputs@, self.axis as int) <= usize::MAX,
        ensures
            inputs@.len() == 0 <==> r == Err::<NdArray<T>, ConcatError>(ConcatError::NoInput),
            inputs@.len() > 0 && !self.stackable(inputs@) <==> r == Err::<NdArray<T>, ConcatError>(
                ConcatError::Inconsistent,
            ),
            self.stackable(inputs@) <==> r is Ok,
            r matches Ok(out) ==> {
                &&& out.wf()
                &&& out.shape@ == inputs@[0].shape@.update(
                    self.axis as int,
                    extent_sum(inputs@, self.axis as int) as usize,
                )
                &&& out.data@ == self.stack(inputs@)
            },
    {
        if inputs.len() == 0 {
            return Err(ConcatError::NoInput);
        }
        if !self.check_stackable(inputs) {
            return Err(ConcatError::Inconsistent);
        }
        let axis: usize = self.axis;
        let first: &NdArray<T> = inputs[0];
        let mut shape: Vec<usize> = Vec::new();
        let mut ax: usize = 0;
        while ax < first.shape.len()
            invariant
                ax <= first.shape@.len(),
                shape@ == first.shape@.take(ax as int),
            decreases first.shape@.len() - ax,
        {
            shape.push(first.shape[ax]);
            ax += 1;
            assert(shape@ =~= first.shape@.take(ax as int));
        }
        let mut extent: usize = 0;
        let mut filled: Option<usize> = None;
        let mut i: usize = 0;
        assert(inputs@.take(0) =~= Seq::<&NdArray<T>>::empty());
        while i < inputs.len()
            invariant
                i <= inputs@.len(),
                axis == self.axis,
                self.stackable(inputs@),
                extent_sum(inputs@, axis as int) <= usize::MAX,
                extent == extent_sum(inputs@.take(i as int), axis as int),
                filled is None ==> forall|k: int|
                    0 <= k < i ==> (#[trigger] inputs@[k]).data@.len() == 0,
                filled matches Some(k) ==> k < inputs@.len() && inputs@[k as int].data@.len() > 0,
            decreases inputs@.len() - i,
        {
            let t: &NdArray<T> = inputs[i];
            proof {
                assert(inputs@.take(i + 1).drop_last() =~= inputs@.take(i as int));
                lemma_extent_sum_grows(inputs@, i + 1, axis as int);
            }
            extent = extent + t.shape[axis];
            if t.data.len() > 0 {
                filled = Some(i);
            }
            i += 1;
        }
        proof {
            assert(inputs@.take(i as int) =~= inputs@);
        }
        shape.set(axis, extent);
        let ghost parts = Seq::new(inputs@.len(), |i: int| inputs@[i].data@);
        let ghost widths = self.widths(inputs@);
        let ghost outer_len = tensor::volume(first.shape@.take(axis as int));
        let mut data: Vec<T> = Vec::new();
        if let Some(k) = filled {
            let t: &NdArray<T> = inputs[k];
            proof {
                assert(t.data.len() == t.data@.len());
                self.lemma_input_len(inputs@, k as int);
                assert forall|x: int| 0 <= x < t.shape@.len() implies #[trigger] t.shape@[x] > 0 by {
                    if t.shape@[x] == 0 {
                        tensor::lemma_volume_zero(t.shape@, x);
                    }
                }
                tensor::lemma_volume_around(t.shape@, axis as int);
                tensor::lemma_volume_positive(t.shape@.take(axis as int));
                tensor::lemma_volume_positive(t.shape@.skip(axis + 1));
                let a = outer_len;
                let e = t.shape@[axis as int] as nat;
                let b = tensor::volume(t.shape@.skip(axis + 1));
                assert(a <= a * (e * b) && b <= a * (e * b)) by (nonlinear_arith)
                    requires
                        a > 0,
                        e > 0,
                        b > 0,
                ;
                assert(t.shape@.subrange(0, axis as int) =~= t.shape@.take(axis as int));
                assert(t.shape@.subrange(axis + 1, t.shape@.len() as int) =~= t.shape@.skip(
                    axis + 1,
                ));
            }
            let outer: usize = tensor::count_elements(&t.shape, 0, axis);
            let inner: usize = tensor::count_elements(&t.shape, axis + 1, t.shape.len());
            let mut o: usize = 0;
            while o < outer
                invariant
                    o <= outer,
                    axis == self.axis,
                    outer == outer_len,
                    outer_len == tensor::volume(inputs@[0].shape@.take(axis as int)),
                    inner == tensor::volume(inputs@[0].shape@.skip(axis + 1)),
                    self.stackable(inputs@),
                    forall|i: int| 0 <= i < inputs@.len() ==> (#[trigger] inputs@[i]).wf(),
                    parts == Seq::new(inputs@.len(), |i: int| inputs@[i].data@),
                    widths == self.widths(inputs@),
                    data@ == stacked(parts, widths, o as nat),
                decreases outer - o,
            {
                let ghost before = data@;
                let mut j: usize = 0;
                assert(parts.take(0) =~= Seq::<Seq<T>>::empty());
                assert(before + Seq::<T>::empty() =~= before);
                while j < inputs.len()
                    invariant
                        j <= inputs@.len(),
                        o < outer,
                        axis == self.axis,
                        outer == outer_len,
                        outer_len == tensor::volume(inputs@[0].shape@.take(axis as int)),
                        inner == tensor::volume(inputs@[0].shape@.skip(axis + 1)),
                        self.stackable(inputs@),
                        forall|i: int| 0 <= i < inputs@.len() ==> (#[trigger] inputs@[i]).wf(),
                        parts == Seq::new(inputs@.len(), |i: int| inputs@[i].data@),
                        widths == self.widths(inputs@),
                        data@ == before + bands(
                            parts.take(j as int),
                            widths.take(j as int),
                            o as int,
                        ),
                    decreases inputs@.len() - j,
                {
                    let t: &NdArray<T> = inputs[j];
                    proof {
                        assert(t.data.len() == t.data@.len());
                        self.lemma_input_len(inputs@, j as int);
                        let w = widths[j as int];
                        assert(shapes_agree(
                            inputs@[j as int].shape@,
                            inputs@[0].shape@,
                            axis as int,
                        ));
                        assert(w <= outer_len * w && o * w + w <= outer_len * w)
                            by (nonlinear_arith)
                            requires
                                0 <= o < outer_len,
                                w >= 0,
                        ;
                    }
                    let width: usize = t.shape[axis] * inner;
                    copy_band(&t.data, width, o, &mut data);
                    proof {
                        assert(parts.take(j + 1).drop_last() =~= parts.take(j as int));
                        assert(widths.take(j + 1).drop_last() =~= widths.take(j as int));
                        assert(data@ =~= before + bands(
                            parts.take(j + 1),
                            widths.take(j + 1),
                            o as int,
                        ));
                    }
                    j += 1;
                }
                proof {
                    assert(parts.take(j as int) =~= parts);
                    assert(widths.take(j as int) =~= widths);
                }
                o += 1;
            }
        } else {
            proof {
                assert forall|i: int| 0 <= i < widths.len() implies outer_len == 0
                    || #[trigger] widths[i] == 0 by {
                    self.lemma_input_len(inputs@, i);
                    assert(inputs@[i].data@.len() == 0);
                    assert(outer_len == 0 || widths[i] == 0) by (nonlinear_arith)
                        requires
                            outer_len * widths[i] == 0,
                    ;
                }
                lemma_stacked_nothing(parts, widths, outer_len);
            }
        }
        proof {
            self.lemma_stack_volume(inputs@);
            assert(shape@ =~= first.shape@.update(axis as int, extent));
        }
        Ok(NdArray { shape, data })
    }

    /// A concatenation has as many elements as its shape says.
    proof fn lemma_stack_volume<T>(&self, inputs: Seq<&NdArray<T>>)
        requires
            self.stackable(inputs),
            forall|i: int| 0 <= i < inputs.len() ==> (#[trigger] inputs[i]).wf(),
            extent_sum(inputs, self.axis as int) <= usize::MAX,
        ensures
            self.stack(inputs).len() == tensor::volume(
                inputs[0].shape@.update(
                    self.axis as int,
                    extent_sum(inputs, self.axis as int) as usize,
                ),
            ),
    {
        let axis = self.axis as int;
        let first = inputs[0].shape@;
        let extent = extent_sum(inputs, axis);
        let shape = first.update(axis, extent as usize);
        let parts = Seq::new(inputs.len(), |i: int| inputs[i].data@);
        let widths = self.widths(inputs);
        let outer = tensor::volume(first.take(axis));
        let inner = tensor::volume(first.skip(axis + 1));
        tensor::lemma_volume_around(shape, axis);
        assert(shape.take(axis) =~= first.take(axis));
        assert(shape.skip(axis + 1) =~= first.skip(axis + 1));
        assert forall|j: int| 0 <= j < parts.len() implies (#[trigger] parts[j]).len() == outer
            * widths[j] by {
            self.lemma_input_len(inputs, j);
        }
        lemma_stacked_len(parts, widths, outer, outer);
        lemma_width_sum(widths, inputs, axis, inner);
    }
}

/// Extents only add up.
proof fn lemma_extent_sum_grows<T>(inputs: Seq<&NdArray<T>>, k: int, axis: int)
    requires
        0 <= k <= inputs.len(),
    ensures
        extent_sum(inputs.take(k), axis) <= extent_sum(inputs, axis),
    decreases inputs.len() - k,
{
    if k == inputs.len() {
        assert(inputs.take(k) =~= inputs);
    } else {
        lemma_extent_sum_grows(inputs, k + 1, axis);
        assert(inputs.take(k + 1).drop_last() =~= inputs.take(k));
    }
}

/// The sum of some widths.
pub open spec fn width_sum(widths: Seq<nat>) -> nat
    decreases widths.len(),
{
    if widths.len() == 0 {
        0
    } else {
        width_sum(widths.drop_last()) + widths.last()
    }
}

/// Where the elements of an input are found in a concatenation: at every
/// position of the axes before the concatenated one, behind those of the inputs
/// before it.
pub proof fn law_inputs_are_found_in_the_stack<T>(
    parts: Seq<Seq<T>>,
    widths: Seq<nat>,
    outer: nat,
    o: int,
    i: int,
    p: int,
)
    requires
        parts.len() == widths.len(),
        forall|j: int| 0 <= j < parts.len() ==> (#[trigger] parts[j]).len() == outer * widths[j],
        0 <= o < outer,
        0 <= i < parts.len(),
        0 <= p < widths[i],
    ensures
        stacked(parts, widths, outer).len() == outer * width_sum(widths),
        stacked(parts, widths, outer)[o * width_sum(widths) + width_sum(widths.take(i)) + p]
            == parts[i][o * widths[i] + p],
{
    lemma_stacked_at(parts, widths, outer, outer, o, i, p);
}

/// A stack has the elements of its inputs.
proof fn lemma_stacked_len<T>(parts: Seq<Seq<T>>, widths: Seq<nat>, outer: nat, n: nat)
    requires
        parts.len() == widths.len(),
        forall|j: int| 0 <= j < parts.len() ==> (#[trigger] parts[j]).len() == outer * widths[j],
        n <= outer,
    ensures
        stacked(parts, widths, n).len() == n * width_sum(widths),
    decreases n,
{
    let w = width_sum(widths) as int;
    if n == 0 {
        assert(0 * w == 0);
    } else {
        let m = (n - 1) as nat;
        lemma_stacked_len(parts, widths, outer, m);
        lemma_bands_at(parts, widths, outer, m as int, -1, 0);
        assert(n * w == m * w + w) by (nonlinear_arith)
            requires
                n == m + 1,
        ;
    }
}

/// Widths add up as extents do.
proof fn lemma_width_sum<T>(widths: Seq<nat>, inputs: Seq<&NdArray<T>>, axis: int, inner: nat)
    requires
        widths.len() == inputs.len(),
        forall|i: int|
            0 <= i < widths.len() ==> #[trigger] widths[i] == inputs[i].shape@[axis] as nat * inner,
    ensures
        width_sum(widths) == extent_sum(inputs, axis) * inner,
    decreases widths.len(),
{
    if widths.len() == 0 {
        assert(0 * inner == 0);
    } else {
        let (ws, xs) = (widths.drop_last(), inputs.drop_last());
        assert forall|i: int| 0 <= i < ws.len() implies #[trigger] ws[i] == xs[i].shape@[axis] as nat
            * inner by {
            assert(widths[i] == inputs[i].shape@[axis] as nat * inner);
        }
        lemma_width_sum(ws, xs, axis, inner);
        let a = extent_sum(xs, axis);
        let b = inputs.last().shape@[axis] as nat;
        assert((a + b) * inner == a * inner + b * inner) by (nonlinear_arith);
    }
}

/// Where an element is found in the first `n` rounds of bands.
proof fn lemma_stacked_at<T>(
    parts: Seq<Seq<T>>,
    widths: Seq<nat>,
    outer: nat,
    n: nat,
    o: int,
    i: int,
    p: int,
)
    requires
        parts.len() == widths.len(),
        forall|j: int| 0 <= j < parts.len() ==> (#[trigger] parts[j]).len() == outer * widths[j],
        n <= outer,
        0 <= o,
        0 <= i < parts.len(),
        0 <= p < widths[i],
    ensures
        stacked(parts, widths, n).len() == n * width_sum(widths),
        o < n ==> stacked(parts, widths, n)[o * width_sum(widths) + width_sum(widths.take(i)) + p]
            == parts[i][o * widths[i] + p],
    decreases n,
{
    let w = width_sum(widths) as int;
    if n == 0 {
        assert(0 * w == 0);
    } else {
        let m = (n - 1) as nat;
        lemma_stacked_at(parts, widths, outer, m, o, i, p);
        lemma_bands_at(parts, widths, outer, m as int, i, p);
        assert(n * w == m * w + w) by (nonlinear_arith)
            requires
                n == m + 1,
        ;
        if o < m {
            assert((o + 1) * w <= m * w) by (nonlinear_arith)
                requires
                    o + 1 <= m,
                    w >= 0,
            ;
            assert((o + 1) * w == o * w + w) by (nonlinear_arith);
            assert(0 <= o * w) by (nonlinear_arith)
                requires
                    0 <= o,
                    0 <= w,
            ;
        }
    }
}

/// Where an element is found in one round of bands.
proof fn lemma_bands_at<T>(
    parts: Seq<Seq<T>>,
    widths: Seq<nat>,
    outer: nat,
    o: int,
    i: int,
    p: int,
)
    requires
        parts.len() == widths.len(),
        forall|j: int| 0 <= j < parts.len() ==> (#[trigger] parts[j]).len() == outer * widths[j],
        0 <= o < outer,
        0 <= i < parts.len() ==> 0 <= p < widths[i],
    ensures
        bands(parts, widths, o).len() == width_sum(widths),
        0 <= i < parts.len() ==> width_sum(widths.take(i)) + p < width_sum(widths),
        0 <= i < parts.len() ==> bands(parts, widths, o)[width_sum(widths.take(i)) + p]
            == parts[i][o * widths[i] + p],
    decreases parts.len(),
{
    if parts.len() > 0 {
        let last = parts.len() - 1;
        let (ps, ws) = (parts.drop_last(), widths.drop_last());
        assert forall|j: int| 0 <= j < ps.len() implies (#[trigger] ps[j]).len() == outer
            * ws[j] by {
            assert(parts[j].len() == outer * widths[j]);
        }
        lemma_bands_at(ps, ws, outer, o, i, p);
        let wl = widths.last() as int;
        assert(parts[last].len() == outer * widths[last]);
        assert((o + 1) * wl <= outer * wl) by (nonlinear_arith)
            requires
                o + 1 <= outer,
                wl >= 0,
        ;
        assert((o + 1) * wl == o * wl + wl) by (nonlinear_arith);
        assert(0 <= o * wl) by (nonlinear_arith)
            requires
                0 <= o,
                0 <= wl,
        ;
        if 0 <= i < last {
            assert(ws.take(i) =~= widths.take(i));
        } else if i == last {
            assert(widths.take(i) =~= ws);
        }
    }
}

/// A single input is its own concatenation: passing it on changes nothing.
pub proof fn law_single_input_is_passed_on<T>(op: &TypedConcat, x: &NdArray<T>)
    requires
        x.wf(),
        op.axis < x.shape@.len(),
    ensures
        op.stackable(seq![x]),
        op.stack(seq![x]) == x.data@,
        extent_sum(seq![x], op.axis as int) == x.shape@[op.axis as int],
{
    let inputs = seq![x];
    let axis = op.axis as int;
    let parts = Seq::new(1, |i: int| inputs[i].data@);
    let widths = op.widths(inputs);
    let outer = tensor::volume(x.shape@.take(axis));
    reveal_with_fuel(extent_sum, 2);
    assert(op.stackable(inputs));
    op.lemma_input_len(inputs, 0);
    lemma_stacked_alone(parts, widths, outer, outer);
    assert(parts[0].subrange(0, (outer * widths[0]) as int) =~= x.data@);
}

/// The bands of one input, one behind the other, are its elements.
proof fn lemma_stacked_alone<T>(parts: Seq<Seq<T>>, widths: Seq<nat>, outer: nat, n: nat)
    requires
        parts.len() == 1,
        widths.len() == 1,
        parts[0].len() == outer * widths[0],
        n <= outer,
    ensures
        n * widths[0] <= parts[0].len(),
        stacked(parts, widths, n) == parts[0].subrange(0, (n * widths[0]) as int),
    decreases n,
{
    let w = widths[0] as int;
    assert(n * w <= outer * w) by (nonlinear_arith)
        requires
            n <= outer,
            w >= 0,
    ;
    if n == 0 {
        assert(0 * w == 0);
        assert(parts[0].subrange(0, 0) =~= Seq::<T>::empty());
    } else {
        let m = (n - 1) as nat;
        lemma_stacked_alone(parts, widths, outer, m);
        assert(n * w == m * w + w) by (nonlinear_arith)
            requires
                n == m + 1,
        ;
        assert(0 <= m * w) by (nonlinear_arith)
            requires
                w >= 0,
        ;
        reveal_with_fuel(bands, 2);
        assert(bands(parts, widths, m as int) =~= band(parts[0], widths[0], m as int));
        assert(stacked(parts, widths, n) =~= parts[0].subrange(0, n * w));
    }
}

/// An input without extent on the concatenated axis adds nothing: the others
/// alone have the same concatenation.
pub proof fn law_dropped_input_adds_nothing<T>(
    op: &TypedConcat,
    inputs: Seq<&NdArray<T>>,
    pos: int,
)
    requires
        op.stackable(inputs),
        inputs.len() > 1,
        0 <= pos < inputs.len(),
        inputs[pos].shape@[op.axis as int] == 0,
    ensures
        op.stackable(inputs.remove(pos)),
        op.stack(inputs.remove(pos)) == op.stack(inputs),
        extent_sum(inputs.remove(pos), op.axis as int) == extent_sum(inputs, op.axis as int),
{
    let axis = op.axis as int;
    let rest = inputs.remove(pos);
    let parts = Seq::new(inputs.len(), |i: int| inputs[i].data@);
    let others = Seq::new(rest.len(), |i: int| rest[i].data@);
    let (first, next) = (inputs[0].shape@, rest[0].shape@);
    let inner = tensor::volume(first.skip(axis + 1));
    let outer = tensor::volume(first.take(axis));
    assert(shapes_agree(next, first, axis)) by {
        assert(rest[0] == inputs[if pos == 0 {
            1int
        } else {
            0int
        }]);
    }
    assert(next.take(axis) =~= first.take(axis));
    assert(next.skip(axis + 1) =~= first.skip(axis + 1));
    assert forall|i: int| 0 <= i < rest.len() implies shapes_agree(
        (#[trigger] rest[i]).shape@,
        next,
        axis,
    ) by {
        let j = if i < pos {
            i
        } else {
            i + 1
        };
        assert(rest[i] == inputs[j]);
        assert(shapes_agree(inputs[j].shape@, first, axis));
    }
    assert(others =~= parts.remove(pos));
    assert(op.widths(rest) =~= op.widths(inputs).remove(pos));
    assert(0 * inner == 0);
    lemma_stacked_without(parts, op.widths(inputs), pos, outer);
    lemma_extent_sum_without(inputs, pos, axis);
}

/// Bands of width zero can be left out.
proof fn lemma_stacked_without<T>(parts: Seq<Seq<T>>, widths: Seq<nat>, pos: int, outer: nat)
    requires
        parts.len() == widths.len(),
        0 <= pos < parts.len(),
        widths[pos] == 0,
    ensures
        stacked(parts.remove(pos), widths.remove(pos), outer) == stacked(parts, widths, outer),
    decreases outer,
{
    if outer > 0 {
        lemma_stacked_without(parts, widths, pos, (outer - 1) as nat);
        lemma_bands_without(parts, widths, pos, outer - 1);
    }
}

/// A band of width zero can be left out.
proof fn lemma_bands_without<T>(parts: Seq<Seq<T>>, widths: Seq<nat>, pos: int, o: int)
    requires
        parts.len() == widths.len(),
        0 <= pos < parts.len(),
        widths[pos] == 0,
        o >= 0,
    ensures
        bands(parts.remove(pos), widths.remove(pos), o) == bands(parts, widths, o),
    decreases parts.len(),
{
    let (ps, ws) = (parts.remove(pos), widths.remove(pos));
    if pos == parts.len() - 1 {
        assert(ps =~= parts.drop_last());
        assert(ws =~= widths.drop_last());
        assert(o * 0 == 0) by (nonlinear_arith);
        assert(band(parts.last(), 0, o) =~= Seq::<T>::empty());
        assert(bands(parts, widths, o) =~= bands(ps, ws, o));
    } else {
        lemma_bands_without(parts.drop_last(), widths.drop_last(), pos, o);
        assert(ps.drop_last() =~= parts.drop_last().remove(pos));
        assert(ws.drop_last() =~= widths.drop_last().remove(pos));
        assert(ps.last() == parts.last());
        assert(ws.last() == widths.last());
    }
}

/// An extent of zero can be left out of a sum.
proof fn lemma_extent_sum_without<T>(inputs: Seq<&NdArray<T>>, pos: int, axis: int)
    requires
        0 <= pos < inputs.len(),
        inputs[pos].shape@[axis] == 0,
    ensures
        extent_sum(inputs.remove(pos), axis) == extent_sum(inputs, axis),
    decreases inputs.len(),
{
    let rest = inputs.remove(pos);
    if pos == inputs.len() - 1 {
        assert(rest =~= inputs.drop_last());
    } else {
        lemma_extent_sum_without(inputs.drop_last(), pos, axis);
        assert(rest.drop_last() =~= inputs.drop_last().remove(pos));
        assert(rest.last() == inputs.last());
    }
}

/// Whether a fact says the extents of a tensor.
pub open spec fn describes<D: DimLike, T>(fact: &TypedFact<D>, x: &NdArray<T>) -> bool {
    fact.shape@ == x.shape@.map_values(|n: usize| D::of_count_spec(n))
}

/// The shape that is promised is the shape that comes out: of tensors that can
/// be concatenated, what is known ahead is found consistent, and the extents
/// add up to that of the concatenation.
pub proof fn law_promised_shape_comes_out<D: DimLike, T>(
    op: &TypedConcat,
    facts: Seq<&TypedFact<D>>,
    inputs: Seq<&NdArray<T>>,
)
    requires
        dims::adds_counts::<D>(),
        facts.len() == inputs.len(),
        forall|i: int| 0 <= i < facts.len() ==> describes(#[trigger] facts[i], inputs[i]),
        op.stackable(inputs),
        extent_sum(inputs, op.axis as int) <= usize::MAX,
    ensures
        op.consistent(facts),
        facts[0].shape@.update(op.axis as int, op.offsets_spec(facts).last())
            == inputs[0].shape@.update(
            op.axis as int,
            extent_sum(inputs, op.axis as int) as usize,
        ).map_values(|n: usize| D::of_count_spec(n)),
{
    let axis = op.axis as int;
    assert(describes(facts[0], inputs[0]));
    assert forall|i: int| 0 <= i < facts.len() implies op.agrees(
        (#[trigger] facts[i]).shape@,
        facts[0].shape@,
    ) by {
        assert(describes(facts[i], inputs[i]));
        assert(shapes_agree(inputs[i].shape@, inputs[0].shape@, axis));
        assert forall|ax: int| 0 <= ax < facts[i].shape@.len() && ax != op.axis implies (
        #[trigger] facts[i].shape@[ax]).same_spec(facts[0].shape@[ax]) by {
            assert(inputs[i].shape@[ax] == inputs[0].shape@[ax]);
            assert(D::of_count_spec(inputs[i].shape@[ax]).same_spec(
                D::of_count_spec(inputs[i].shape@[ax]),
            ));
        }
    }
    assert forall|i: int| 0 <= i < inputs.len() implies axis < (
    #[trigger] inputs[i]).shape@.len() by {
        assert(shapes_agree(inputs[i].shape@, inputs[0].shape@, axis));
    }
    lemma_last_offset(op, facts, inputs);
    assert(facts[0].shape@.update(axis, op.offsets_spec(facts).last()) =~= inputs[0].shape@.update(
        axis,
        extent_sum(inputs, axis) as usize,
    ).map_values(|n: usize| D::of_count_spec(n)));
}

/// The last offset is the sum of the extents.
proof fn lemma_last_offset<D: DimLike, T>(
    op: &TypedConcat,
    facts: Seq<&TypedFact<D>>,
    inputs: Seq<&NdArray<T>>,
)
    requires
        dims::adds_counts::<D>(),
        facts.len() == inputs.len(),
        forall|i: int| 0 <= i < facts.len() ==> describes(#[trigger] facts[i], inputs[i]),
        forall|i: int|
            0 <= i < inputs.len() ==> op.axis < (#[trigger] inputs[i]).shape@.len(),
        extent_sum(inputs, op.axis as int) <= usize::MAX,
    ensures
        op.offsets_spec(facts).last() == D::of_count_spec(
            extent_sum(inputs, op.axis as int) as usize,
        ),
    decreases facts.len(),
{
    if facts.len() > 0 {
        let last = facts.len() - 1;
        let (fs, xs) = (facts.drop_last(), inputs.drop_last());
        assert forall|i: int| 0 <= i < fs.len() implies describes(#[trigger] fs[i], xs[i]) by {
            assert(describes(facts[i], inputs[i]));
        }
        assert forall|i: int| 0 <= i < xs.len() implies op.axis < (
        #[trigger] xs[i]).shape@.len() by {
            assert(op.axis < inputs[i].shape@.len());
        }
        lemma_last_offset(op, fs, xs);
        assert(describes(facts[last], inputs[last]));
        let n = inputs[last].shape@[op.axis as int];
        let before = extent_sum(xs, op.axis as int) as usize;
        assert(facts[last].shape@[op.axis as int] == D::of_count_spec(n));
        assert(D::of_count_spec(n).sum_spec(D::of_count_spec(before)) == D::of_count_spec(
            (n + before) as usize,
        ));
    }
}

/// The offsets of a joined list are those of its first part, followed by those
/// of its second part after the first one, each summed with the last offset of
/// the first part.
pub proof fn law_offsets_of_joined_lists<D: DimLike>(
    op: &TypedConcat,
    a: Seq<&TypedFact<D>>,
    b: Seq<&TypedFact<D>>,
)
    requires
        dims::sums_regroup::<D>(),
    ensures
        op.offsets_spec(a + b) == op.offsets_spec(a) + op.offsets_spec(b).skip(1).map_values(
            |o: D| o.sum_spec(op.offsets_spec(a).last()),
        ),
    decreases b.len(),
{
    let all = op.offsets_spec(a + b);
    let (oa, ob) = (op.offsets_spec(a), op.offsets_spec(b));
    let end = oa.last();
    op.lemma_offsets_len(a);
    op.lemma_offsets_len(b);
    if b.len() == 0 {
        assert(a + b =~= a);
        assert(all =~= oa + ob.skip(1).map_values(|o: D| o.sum_spec(end)));
    } else {
        let head = b.drop_last();
        let oh = op.offsets_spec(head);
        op.lemma_offsets_len(head);
        law_offsets_of_joined_lists(op, a, head);
        assert((a + b).drop_last() =~= a + head);
        let extent = b.last().shape@[op.axis as int];
        let joined = op.offsets_spec(a + head);
        assert(all == joined.push(extent.sum_spec(joined.last())));
        assert(ob == oh.push(extent.sum_spec(oh.last())));
        assert(joined.last() == oh.last().sum_spec(end)) by {
            if head.len() == 0 {
                assert(oh.last() == D::zero_spec());
                assert(joined =~= oa);
            }
        }
        assert(ob.last().sum_spec(end) == all.last());
        assert(all =~= oa + ob.skip(1).map_values(|o: D| o.sum_spec(end)));
    }
}

/// Offsets depend on the extents along the concatenated axis alone.
pub proof fn law_offsets_depend_on_the_axis_alone<D: DimLike>(
    op: &TypedConcat,
    a: Seq<&TypedFact<D>>,
    b: Seq<&TypedFact<D>>,
)
    requires
        a.len() == b.len(),
        forall|i: int|
            0 <= i < a.len() ==> (#[trigger] a[i]).shape@[op.axis as int]
                == b[i].shape@[op.axis as int],
    ensures
        op.offsets_spec(a) == op.offsets_spec(b),
    decreases a.len(),
{
    if a.len() > 0 {
        let (xs, ys) = (a.drop_last(), b.drop_last());
        assert forall|i: int| 0 <= i < xs.len() implies (#[trigger] xs[i]).shape@[op.axis as int]
            == ys[i].shape@[op.axis as int] by {
            assert(a[i].shape@[op.axis as int] == b[i].shape@[op.axis as int]);
        }
        law_offsets_depend_on_the_axis_alone(op, xs, ys);
        assert(a[a.len() - 1].shape@[op.axis as int] == b[b.len() - 1].shape@[op.axis as int]);
    }
}

/// Offsets are running sums: the first input starts at 0, and each next where
/// the one before ends.
pub proof fn law_offsets_are_running_sums<D: DimLike>(
    op: &TypedConcat,
    inputs: Seq<&TypedFact<D>>,
    i: int,
)
    requires
        0 <= i < inputs.len(),
    ensures
        op.offsets_spec(inputs).len() == inputs.len() + 1,
        op.offsets_spec(inputs)[0] == D::zero_spec(),
        op.offsets_spec(inputs)[i + 1] == inputs[i].shape@[op.axis as int].sum_spec(
            op.offsets_spec(inputs)[i],
        ),
    decreases inputs.len(),
{
    op.lemma_offsets_len(inputs);
    op.lemma_offsets_len(inputs.drop_last());
    if inputs.len() > 1 {
        let last = inputs.len() - 1;
        if i < last {
            law_offsets_are_running_sums(op, inputs.drop_last(), i);
        } else {
            law_offsets_are_running_sums(op, inputs.drop_last(), i - 1);
        }
    } else {
        assert(inputs.drop_last().len() == 0);
    }
}

/// The extents of some inputs add up.
proof fn lemma_extents<T>(inputs: Seq<&NdArray<T>>, axis: int, n: int)
    requires
        0 <= n <= inputs.len(),
    ensures
        extent_sum(inputs.take(n), axis) == math::sum(
            n as nat,
            |j: int| inputs[j].shape@[axis] as nat,
        ),
    decreases n,
{
    if n > 0 {
        lemma_extents(inputs, axis, n - 1);
        assert(inputs.take(n).drop_last() =~= inputs.take(n - 1));
        assert(inputs.take(n).last() == inputs[n - 1]);
    }
}

/// Where an element of an input goes. With `o` for its place on the axes before the
/// concatenated one, `a` for that on the axis and `n` for that behind, it goes to
/// `o`, `n`, and `a` moved by the extents of all inputs before. The extent of the
/// whole on the axis is the sum of the extents.
pub proof fn law_element_moves_along_the_axis<T>(
    op: &TypedConcat,
    inputs: Seq<&NdArray<T>>,
    i: int,
    o: int,
    a: int,
    n: int,
)
    requires
        inputs.len() > 0,
        op.axis < inputs[0].shape@.len(),
        forall|j: int|
            0 <= j < inputs.len() ==> {
                &&& (#[trigger] inputs[j]).wf()
                &&& inputs[j].shape@.len() == inputs[0].shape@.len()
                &&& forall|ax: int|
                    0 <= ax < inputs[0].shape@.len() && ax != op.axis
                        ==> #[trigger] inputs[j].shape@[ax] == inputs[0].shape@[ax]
            },
        0 <= i < inputs.len(),
        0 <= o < tensor::volume(inputs[0].shape@.take(op.axis as int)),
        0 <= a < inputs[i].shape@[op.axis as int],
        0 <= n < tensor::volume(inputs[0].shape@.skip(op.axis + 1)),
    ensures
        op.stackable(inputs),
        ({
            let outer = tensor::volume(inputs[0].shape@.take(op.axis as int));
            let inner = tensor::volume(inputs[0].shape@.skip(op.axis + 1)) as int;
            let extent = |j: int| inputs[j].shape@[op.axis as int] as nat;
            let whole = math::sum(inputs.len(), extent) as int;
            let before = math::sum(i as nat, extent) as int;
            &&& extent_sum(inputs, op.axis as int) == whole
            &&& op.stack(inputs).len() == outer * (whole * inner)
            &&& op.stack(inputs)[(o * whole + before + a) * inner + n] == inputs[i].data@[(o
                * extent(i) + a) * inner + n]
        }),
{
    let axis = op.axis as int;
    assert forall|j: int| 0 <= j < inputs.len() implies shapes_agree(
        (#[trigger] inputs[j]).shape@,
        inputs[0].shape@,
        axis,
    ) by {
        assert forall|ax: int|
            0 <= ax < inputs[j].shape@.len() && ax != axis implies #[trigger] inputs[j].shape@[ax]
            == inputs[0].shape@[ax] by {}
    }
    assert(op.stackable(inputs));
    let outer = tensor::volume(inputs[0].shape@.take(axis));
    let inner = tensor::volume(inputs[0].shape@.skip(axis + 1));
    let extent = |j: int| inputs[j].shape@[axis] as nat;
    let whole = math::sum(inputs.len(), extent) as int;
    let before = math::sum(i as nat, extent) as int;
    let parts = Seq::new(inputs.len(), |j: int| inputs[j].data@);
    let widths = op.widths(inputs);
    lemma_extents(inputs, axis, inputs.len() as int);
    lemma_extents(inputs, axis, i);
    assert(inputs.take(inputs.len() as int) =~= inputs);
    assert forall|j: int| 0 <= j < parts.len() implies (#[trigger] parts[j]).len() == outer
        * widths[j] by {
        op.lemma_input_len(inputs, j);
    }
    lemma_width_sum(widths, inputs, axis, inner);
    assert forall|j: int| 0 <= j < i implies #[trigger] widths.take(i)[j] == inputs.take(
        i,
    )[j].shape@[axis] as nat * inner by {
        assert(widths[j] == inputs[j].shape@[axis] as nat * inner);
    }
    lemma_width_sum(widths.take(i), inputs.take(i), axis, inner);
    let p = a * inner + n;
    let e = extent(i) as int;
    assert(0 <= p < e * inner) by (nonlinear_arith)
        requires
            p == a * inner + n,
            0 <= a < e,
            0 <= n < inner,
    ;
    law_inputs_are_found_in_the_stack(parts, widths, outer, o, i, p);
    assert(o * (whole * inner) + before * inner + (a * inner + n) == (o * whole + before + a)
        * inner + n) by (nonlinear_arith);
    assert(o * (e * inner) + (a * inner + n) == (o * e + a) * inner + n) by (nonlinear_arith);
}

/// Tensors can be concatenated, and facts are consistent, exactly where there is a
/// first one with the axis, and all others are of its rank and agree with it on every
/// other axis.
pub proof fn law_what_can_be_concatenated<T, D: DimLike>(
    op: &TypedConcat,
    inputs: Seq<&NdArray<T>>,
    facts: Seq<&TypedFact<D>>,
)
    ensures
        op.stackable(inputs) <==> {
            &&& inputs.len() > 0
            &&& op.axis < inputs[0].shape@.len()
            &&& forall|i: int|
                0 <= i < inputs.len() ==> (#[trigger] inputs[i]).shape@.len()
                    == inputs[0].shape@.len()
            &&& forall|i: int, ax: int|
                0 <= i < inputs.len() && 0 <= ax < inputs[0].shape@.len() && ax != op.axis
                    ==> #[trigger] inputs[i].shape@[ax] == inputs[0].shape@[ax]
        },
        op.consistent(facts) <==> {
            &&& forall|i: int|
                0 <= i < facts.len() ==> (#[trigger] facts[i]).shape@.len() == facts[0].shape@.len()
            &&& forall|i: int, ax: int|
                0 <= i < facts.len() && 0 <= ax < facts[0].shape@.len() && ax != op.axis
                    ==> #[trigger] facts[i].shape@[ax].same_spec(facts[0].shape@[ax])
        },
{
    if op.stackable(inputs) {
        assert forall|i: int| 0 <= i < inputs.len() implies (#[trigger] inputs[i]).shape@.len()
            == inputs[0].shape@.len() by {
            assert(shapes_agree(inputs[i].shape@, inputs[0].shape@, op.axis as int));
        }
        assert forall|i: int, ax: int|
            0 <= i < inputs.len() && 0 <= ax < inputs[0].shape@.len() && ax
                != op.axis implies #[trigger] inputs[i].shape@[ax] == inputs[0].shape@[ax] by {
            assert(shapes_agree(inputs[i].shape@, inputs[0].shape@, op.axis as int));
        }
    }
    if op.consistent(facts) {
        assert forall|i: int| 0 <= i < facts.len() implies (#[trigger] facts[i]).shape@.len()
            == facts[0].shape@.len() by {
            assert(op.agrees(facts[i].shape@, facts[0].shape@));
        }
        assert forall|i: int, ax: int|
            0 <= i < facts.len() && 0 <= ax < facts[0].shape@.len() && ax
                != op.axis implies #[trigger] facts[i].shape@[ax].same_spec(facts[0].shape@[ax]) by {
            assert(op.agrees(facts[i].shape@, facts[0].shape@));
        }
    }
}

/// Every axis but the concatenated one is tied across the output and every input,
/// once, and nothing else is.
pub proof fn law_all_other_axes_are_tied(op: &TypedConcat, rank: nat, n: nat)
    requires
        rank <= usize::MAX,
        n <= usize::MAX,
    ensures
        forall|ax: usize, i: usize|
            op.links(rank, n).contains((ax, i)) <==> ax < rank && ax != op.axis && i < n,
        op.links(rank, n).no_duplicates(),
    decreases rank,
{
    let all = op.links(rank, n);
    if rank > 0 {
        let m = (rank - 1) as nat;
        law_all_other_axes_are_tied(op, m, n);
        let before = op.links(m, n);
        if m != op.axis {
            let new = Seq::new(n, |i: int| (m as usize, i as usize));
            assert(all == before + new);
            assert forall|ax: usize, i: usize|
                all.contains((ax, i)) <==> ax < rank && ax != op.axis && i < n by {
                if all.contains((ax, i)) {
                    let k = choose|k: int| 0 <= k < all.len() && all[k] == (ax, i);
                    if k < before.len() {
                        assert(before[k] == (ax, i));
                        assert(before.contains((ax, i)));
                    } else {
                        assert(new[k - before.len()] == (ax, i));
                    }
                }
                if ax < rank && ax != op.axis && i < n {
                    if ax < m {
                        assert(before.contains((ax, i)));
                        let k = choose|k: int| 0 <= k < before.len() && before[k] == (ax, i);
                        assert(all[k] == (ax, i));
                    } else {
                        assert(all[before.len() + i] == (ax, i));
                    }
                }
            }
            assert forall|j: int, k: int|
                0 <= j < all.len() && 0 <= k < all.len() && j != k implies all[j] != all[k] by {
                if j < before.len() {
                    assert(before.contains(before[j]));
                    assert(all[j] == before[j]);
                }
                if k < before.len() {
                    assert(before.contains(before[k]));
                    assert(all[k] == before[k]);
                }
                if j >= before.len() {
                    assert(all[j] == new[j - before.len()]);
                }
                if k >= before.len() {
                    assert(all[k] == new[k - before.len()]);
                }
            }
        }
    }
}

/// An input's region of interest is the output's, unless that speaks of the
/// coordinate on the concatenated axis and the input does not start at 0: then the
/// input's offset is added to the coordinate, where that can be written.
pub proof fn law_region_moves_by_the_offset<D: DimLike>(op: &TypedConcat, roi: D, offset: D)
    ensures
        !roi.mentions_spec(op.axis) ==> op.branch_roi(roi, offset) == roi,
        offset.is_zero_spec() ==> op.branch_roi(roi, offset) == roi,
        roi.mentions_spec(op.axis) && !offset.is_zero_spec() ==> {
            let moved = roi.substitute_spec(
                op.axis,
                D::coordinate_spec(op.axis).sum_spec(offset),
            );
            &&& moved is Some ==> Some(op.branch_roi(roi, offset)) == moved
            &&& moved is None ==> op.branch_roi(roi, offset) == roi
        },
{
}

/// A slice is known to lie within an input where it starts no earlier than the input
/// and ends no later than the next one starts. An input is empty where the product of
/// its extents is 0.
pub proof fn law_slice_lies_within_an_input<D: DimLike>(
    op: &TypedConcat,
    inputs: Seq<&TypedFact<D>>,
    ix: int,
    start: D,
    end: D,
)
    requires
        0 <= ix < inputs.len(),
    ensures
        ({
            let (a, b) = (op.offsets_spec(inputs)[ix], op.offsets_spec(inputs)[ix + 1]);
            op.covers(inputs, ix, start, end) <==> start.difference_spec(a).proves_nonneg_spec()
                && b.difference_spec(end).proves_nonneg_spec()
        }),
        TypedConcat::is_empty_input(inputs[ix]) == dims::volume_spec(
            inputs[ix].shape@,
        ).is_zero_spec(),
        dims::volume_spec(Seq::<D>::empty()) == D::of_count_spec(1),
        forall|s: Seq<D>, x: D| #[trigger]
            dims::volume_spec(s.push(x)) == dims::volume_spec(s).product_spec(x),
{
    assert forall|s: Seq<D>, x: D| #[trigger]
        dims::volume_spec(s.push(x)) == dims::volume_spec(s).product_spec(x) by {
        assert(s.push(x).drop_last() =~= s);
    }
}

} // verus!
