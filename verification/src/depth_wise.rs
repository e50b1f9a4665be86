//! Depthwise convolution, with scalar operations fused behind it.

use vstd::prelude::*;

use crate::datum::DatumType;
use crate::dims;
use crate::dims::DimLike;
use crate::exact;
use crate::exact::Reading;
use crate::fact::TypedFact;
use crate::reals;
use crate::scalar;
use crate::scalar::Scalar;
use crate::tensor;
use crate::tensor::NdArray;

verus! {

/// An operation with a number, applied to every element of the output.
#[derive(Debug, Clone, Copy)]
pub enum DepthWisePostOp<T> {
    /// The larger of `x` and the number.
    ScalarMax(T),
    /// The smaller of `x` and the number.
    ScalarMin(T),
    /// `x + c`.
    ScalarAdd(T),
    /// `x * c`.
    ScalarMul(T),
    /// `x - c`.
    ScalarSub(T),
    /// `c - x`.
    ScalarSubF(T),
}

impl<T: Scalar> DepthWisePostOp<T> {
    /// Which operation it is, by number.
    pub open spec fn tag(self) -> u8 {
        match self {
            DepthWisePostOp::ScalarMax(_) => 0,
            DepthWisePostOp::ScalarMin(_) => 1,
            DepthWisePostOp::ScalarAdd(_) => 2,
            DepthWisePostOp::ScalarMul(_) => 3,
            DepthWisePostOp::ScalarSub(_) => 4,
            DepthWisePostOp::ScalarSubF(_) => 5,
        }
    }

    /// The number.
    pub open spec fn operand(self) -> T {
        match self {
            DepthWisePostOp::ScalarMax(c) => c,
            DepthWisePostOp::ScalarMin(c) => c,
            DepthWisePostOp::ScalarAdd(c) => c,
            DepthWisePostOp::ScalarMul(c) => c,
            DepthWisePostOp::ScalarSub(c) => c,
            DepthWisePostOp::ScalarSubF(c) => c,
        }
    }

    /// What the operation makes of `x`.
    pub open spec fn applied(self, x: T) -> T {
        match self {
            DepthWisePostOp::ScalarMax(c) => x.larger_spec(c),
            DepthWisePostOp::ScalarMin(c) => x.smaller_spec(c),
            DepthWisePostOp::ScalarAdd(c) => x.plus_spec(c),
            DepthWisePostOp::ScalarMul(c) => x.times_spec(c),
            DepthWisePostOp::ScalarSub(c) => x.minus_spec(c),
            DepthWisePostOp::ScalarSubF(c) => c.minus_spec(x),
        }
    }

    /// What an operation is told apart by: which one it is, and the bit pattern
    /// of its number.
    pub fn hash_key(&self) -> (r: (u8, u32))
        requires
            scalar::lawful::<T>(),
        ensures
            r == (self.tag(), self.operand().to_bits_spec()),
    {
        match *self {
            DepthWisePostOp::ScalarMax(c) => (0, scalar::to_bits(c)),
            DepthWisePostOp::ScalarMin(c) => (1, scalar::to_bits(c)),
            DepthWisePostOp::ScalarAdd(c) => (2, scalar::to_bits(c)),
            DepthWisePostOp::ScalarMul(c) => (3, scalar::to_bits(c)),
            DepthWisePostOp::ScalarSub(c) => (4, scalar::to_bits(c)),
            DepthWisePostOp::ScalarSubF(c) => (5, scalar::to_bits(c)),
        }
    }

    /// Whether two operations are the same, their numbers compared by bit
    /// pattern.
    pub fn same(&self, other: &Self) -> (r: bool)
        requires
            scalar::lawful::<T>(),
        ensures
            r == (self.tag() == other.tag() && self.operand().to_bits_spec()
                == other.operand().to_bits_spec()),
    {
        let (a, x): (u8, u32) = self.hash_key();
        let (b, y): (u8, u32) = other.hash_key();
        a == b && x == y
    }
}

/// What some operations make of `x`, the first one applied first.
pub open spec fn all_applied<T: Scalar>(ops: Seq<DepthWisePostOp<T>>, x: T) -> T
    decreases ops.len(),
{
    if ops.len() == 0 {
        x
    } else {
        ops.last().applied(all_applied(ops.drop_last(), x))
    }
}

/// Fusing one operation more is applying it to what came out before.
pub proof fn law_fused_op_is_applied_last<T: Scalar>(
    ops: Seq<DepthWisePostOp<T>>,
    op: DepthWisePostOp<T>,
    x: T,
)
    ensures
        all_applied(ops.push(op), x) == op.applied(all_applied(ops, x)),
{
    assert(ops.push(op).drop_last() =~= ops);
}

/// The layout of a tensor with channels: how many batches and channels there
/// are, and how far they lie apart.
#[derive(Debug, Clone)]
pub struct DataShape {
    pub shape: Vec<usize>,
    pub n: Option<usize>,
    pub n_stride: Option<usize>,
    pub c: usize,
    pub c_stride: usize,
}

impl DataShape {
    /// The number of batches.
    pub open spec fn batches(&self) -> usize {
        match self.n {
            Some(n) => n,
            None => 1,
        }
    }

    /// How far batches lie apart.
    pub open spec fn batch_stride(&self) -> usize {
        match self.n_stride {
            Some(s) => s,
            None => 0,
        }
    }
}

/// A run of output points, one stride apart: where the first reads and writes.
#[derive(Debug, Clone, Copy, PartialEq, Eq, Structural)]
pub struct ZoneRow {
    pub input_center_offset: isize,
    pub output_offset: isize,
    pub len: usize,
}

/// A region of the output whose points see the same elements of the kernel.
#[derive(Debug, Clone)]
pub struct Zone {
    /// The elements of the kernel, each with the offset from the center of the
    /// input that it is multiplied with.
    pub values_offsets: Vec<(usize, isize)>,
    pub input_stride: isize,
    pub output_stride: isize,
    pub rows: Vec<ZoneRow>,
}

/// The regions of an output.
#[derive(Debug, Clone)]
pub struct Patch {
    pub output_shape: Vec<usize>,
    pub zones: Vec<Zone>,
}

/// A depthwise convolution.
#[derive(Debug, Clone)]
pub struct DepthWise<T> {
    pub patch: Patch,
    pub input_shape: DataShape,
    pub output_shape: DataShape,
    /// What is applied to the output, in order.
    pub post_ops: Vec<DepthWisePostOp<T>>,
}

/// One point of the output: a batch, a zone, a channel, and a place in a row of
/// the zone.
pub struct Point {
    pub n: int,
    pub z: int,
    pub c: int,
    pub r: int,
    pub i: int,
}

/// The sum of `bias` and some terms, from the left.
pub open spec fn summed<T: Scalar>(bias: T, terms: Seq<T>) -> T
    decreases terms.len(),
{
    if terms.len() == 0 {
        bias
    } else {
        summed(bias, terms.drop_last()).plus_spec(terms.last())
    }
}

/// How far apart the channels of a kernel lie: its second axis.
pub open spec fn channel_stride(shape: Seq<usize>) -> nat {
    tensor::volume(shape.skip(2))
}

/// Whether a product fits a signed offset.
pub open spec fn fits(x: int) -> bool {
    isize::MIN <= x <= isize::MAX
}

/// Whether a number is within what a few signed offsets add up to.
spec fn is_offset(x: int) -> bool {
    -0x10_0000_0000_0000_0000 <= x <= 0x10_0000_0000_0000_0000
}

impl<T: Scalar> DepthWise<T> {
    /// The zone of a point.
    pub open spec fn zone(&self, w: Point) -> Zone {
        self.patch.zones@[w.z]
    }

    /// The row of a point.
    pub open spec fn row(&self, w: Point) -> ZoneRow {
        self.patch.zones@[w.z].rows@[w.r]
    }

    /// Whether there is such a point.
    pub open spec fn valid(&self, w: Point) -> bool {
        &&& 0 <= w.n < self.input_shape.batches()
        &&& 0 <= w.z < self.patch.zones@.len()
        &&& 0 <= w.c < self.input_shape.c
        &&& 0 <= w.r < self.patch.zones@[w.z].rows@.len()
        &&& 0 <= w.i < self.patch.zones@[w.z].rows@[w.r].len
    }

    /// Where a point is written.
    pub open spec fn out_at(&self, w: Point) -> int {
        self.output_shape.batch_stride() * w.n + self.output_shape.c_stride * w.c + self.row(
            w,
        ).output_offset + self.zone(w).output_stride * w.i
    }

    /// Where the input lies that a point multiplies with its `k`-th element of
    /// the kernel.
    pub open spec fn in_at(&self, w: Point, k: int) -> int {
        self.input_shape.batch_stride() * w.n + self.input_shape.c_stride * w.c + self.row(
            w,
        ).input_center_offset + self.zone(w).input_stride * w.i + self.zone(w).values_offsets@[k].1
    }

    /// Where a point's `k`-th element of the kernel lies.
    pub open spec fn kernel_at(&self, w: Point, k: int, stride: nat) -> int {
        stride * w.c + self.zone(w).values_offsets@[k].0
    }

    /// A point's `k`-th product. With four elements of the kernel in sight the
    /// input is the first factor, otherwise the kernel is.
    pub open spec fn term(&self, w: Point, k: int, img: Seq<T>, kernel: Seq<T>, stride: nat) -> T {
        let x = img[self.in_at(w, k)];
        let f = kernel[self.kernel_at(w, k, stride)];
        if self.zone(w).values_offsets@.len() == 4 {
            x.times_spec(f)
        } else {
            f.times_spec(x)
        }
    }

    /// What the convolution gives at a point.
    pub open spec fn value(
        &self,
        w: Point,
        img: Seq<T>,
        kernel: Seq<T>,
        stride: nat,
        bias: Seq<T>,
    ) -> T {
        summed(
            bias[w.c],
            Seq::new(
                self.zone(w).values_offsets@.len(),
                |k: int| self.term(w, k, img, kernel, stride),
            ),
        )
    }

    /// Whether every point is written within the output, and no two to the same
    /// place.
    pub open spec fn writes_apart(&self) -> bool {
        &&& forall|w: Point| #[trigger]
            self.valid(w) ==> 0 <= self.out_at(w) < tensor::volume(self.output_shape.shape@)
        &&& forall|v: Point, w: Point|
            self.valid(v) && self.valid(w) && #[trigger] self.out_at(v) == #[trigger] self.out_at(w)
                ==> v == w
    }

    /// Whether every point reads within the tensors it is given.
    pub open spec fn reads_within(
        &self,
        img: Seq<T>,
        kernel: Seq<T>,
        stride: nat,
        bias: Seq<T>,
    ) -> bool {
        &&& self.input_shape.c <= bias.len()
        &&& forall|w: Point, k: int|
            self.valid(w) && 0 <= k < self.zone(w).values_offsets@.len() ==> 0
                <= #[trigger] self.in_at(w, k) < img.len()
        &&& forall|w: Point, k: int|
            self.valid(w) && 0 <= k < self.zone(w).values_offsets@.len() ==> 0
                <= #[trigger] self.kernel_at(w, k, stride) < kernel.len()
    }

    /// Whether the distances between batches, channels and points fit signed
    /// offsets.
    pub open spec fn measurable(&self) -> bool {
        &&& self.input_shape.batches() <= isize::MAX
        &&& self.input_shape.c <= isize::MAX
        &&& self.input_shape.batch_stride() <= isize::MAX
        &&& self.output_shape.batch_stride() <= isize::MAX
        &&& self.input_shape.c_stride <= isize::MAX
        &&& self.output_shape.c_stride <= isize::MAX
        &&& fits(self.input_shape.batch_stride() * self.input_shape.batches())
        &&& fits(self.output_shape.batch_stride() * self.input_shape.batches())
        &&& fits(self.input_shape.c_stride * self.input_shape.c)
        &&& fits(self.output_shape.c_stride * self.input_shape.c)
        &&& forall|w: Point| #[trigger]
            self.valid(w) ==> {
                &&& w.i <= isize::MAX
                &&& fits(self.zone(w).input_stride * w.i)
                &&& fits(self.zone(w).output_stride * w.i)
            }
    }

    /// A convolution with nothing fused.
    pub fn new(patch: Patch, input_shape: DataShape, output_shape: DataShape) -> (r: Self)
        ensures
            r.patch == patch,
            r.input_shape == input_shape,
            r.output_shape == output_shape,
            r.post_ops@ == Seq::<DepthWisePostOp<T>>::empty(),
    {
        DepthWise { patch, input_shape, output_shape, post_ops: Vec::new() }
    }

    /// Applies what is fused to one element.
    pub fn apply_post_ops_f32(&self, x: T) -> (r: T)
        requires
            scalar::lawful::<T>(),
        ensures
            r == all_applied(self.post_ops@, x),
    {
        let mut y: T = x;
        let mut i: usize = 0;
        assert(self.post_ops@.take(0) =~= Seq::<DepthWisePostOp<T>>::empty());
        while i < self.post_ops.len()
            invariant
                scalar::lawful::<T>(),
                i <= self.post_ops@.len(),
                y == all_applied(self.post_ops@.take(i as int), x),
            decreases self.post_ops@.len() - i,
        {
            proof {
                let next = self.post_ops@.take(i + 1);
                assert(next.drop_last() =~= self.post_ops@.take(i as int));
                assert(next.last() == self.post_ops@[i as int]);
            }
            y = match self.post_ops[i] {
                DepthWisePostOp::ScalarMax(c) => scalar::larger(y, c),
                DepthWisePostOp::ScalarMin(c) => scalar::smaller(y, c),
                DepthWisePostOp::ScalarAdd(c) => scalar::plus(y, c),
                DepthWisePostOp::ScalarMul(c) => scalar::times(y, c),
                DepthWisePostOp::ScalarSub(c) => scalar::minus(y, c),
                DepthWisePostOp::ScalarSubF(c) => scalar::minus(c, y),
            };
            i += 1;
        }
        assert(self.post_ops@.take(i as int) =~= self.post_ops@);
        y
    }

    /// The operator's name.
    pub fn name(&self) -> (r: &'static str)
        ensures
            r@ == "DepthWiseConv"@,
    {
        "DepthWiseConv"
    }

    /// The result depends on the inputs alone.
    pub fn is_stateless(&self) -> (r: bool)
        ensures
            r,
    {
        true
    }
}

/// Why the operator refuses its inputs.
#[derive(Clone, Copy, Debug, PartialEq, Eq, Structural)]
pub enum DepthWiseError {
    /// The elements are no floating point numbers.
    DatumType,
    /// There are not three inputs.
    InputCount,
    /// Input and output differ in their number of channels.
    Channels,
    /// There is not one bias per channel.
    Bias,
}

/// How results are to be compared.
#[derive(Clone, Copy, Debug, PartialEq, Eq, Structural)]
pub enum Validation {
    Random,
    Rounding,
    Accurate,
}

/// Whether a point comes before the `i`-th of a row.
spec fn before(w: Point, n: int, z: int, c: int, r: int, i: int) -> bool {
    ||| w.n < n
    ||| w.n == n && w.z < z
    ||| w.n == n && w.z == z && w.c < c
    ||| w.n == n && w.z == z && w.c == c && w.r < r
    ||| w.n == n && w.z == z && w.c == c && w.r == r && w.i < i
}

impl<T: Scalar> DepthWise<T> {
    /// Results differ by rounding.
    pub fn validation(&self) -> (r: Validation)
        ensures
            r == Validation::Rounding,
    {
        Validation::Rounding
    }

    /// What can be convolved: tensors within which every point reads, and an
    /// output within which every point writes apart from the others.
    pub open spec fn convolves(&self, img: Seq<T>, kernel: &NdArray<T>, bias: Seq<T>) -> bool {
        &&& kernel.wf()
        &&& kernel.shape@.len() >= 2
        &&& channel_stride(kernel.shape@) <= isize::MAX
        &&& fits(channel_stride(kernel.shape@) * self.input_shape.c)
        &&& self.measurable()
        &&& self.writes_apart()
        &&& self.reads_within(img, kernel.data@, channel_stride(kernel.shape@), bias)
        &&& tensor::volume(self.output_shape.shape@) <= usize::MAX
    }

    /// Whether a tensor is the convolution: it is right at every point. Nothing
    /// is said of places that belong to no zone.
    pub open spec fn convolved(
        &self,
        img: Seq<T>,
        kernel: &NdArray<T>,
        bias: Seq<T>,
        ops: Seq<DepthWisePostOp<T>>,
        out: &NdArray<T>,
    ) -> bool {
        &&& out.wf()
        &&& out.shape@ == self.output_shape.shape@
        &&& forall|w: Point|
            self.valid(w) ==> #[trigger] out.data@[self.out_at(w)] == all_applied(
                ops,
                self.value(w, img, kernel.data@, channel_stride(kernel.shape@), bias),
            )
    }

    /// Sums up one point: `bias` and one product for every element of the
    /// kernel in sight.
    fn sum_point(
        &self,
        zone: &Zone,
        img: &[T],
        kernel: &[T],
        start: T,
        in_base: i128,
        k_base: usize,
        Ghost(w): Ghost<Point>,
        Ghost(stride): Ghost<nat>,
        Ghost(bias): Ghost<Seq<T>>,
    ) -> (r: T)
        requires
            scalar::lawful::<T>(),
            self.valid(w),
            zone == self.zone(w),
            self.reads_within(img@, kernel@, stride, bias),
            start == bias[w.c],
            k_base == stride * w.c,
            is_offset(in_base as int),
            forall|k: int|
                0 <= k < zone.values_offsets@.len() ==> in_base + (
                #[trigger] zone.values_offsets@[k]).1 == self.in_at(w, k),
        ensures
            r == self.value(w, img@, kernel@, stride, bias),
    {
        let ghost terms = Seq::new(
            zone.values_offsets@.len(),
            |k: int| self.term(w, k, img@, kernel@, stride),
        );
        let n: usize = zone.values_offsets.len();
        let mut sum: T = start;
        let mut k: usize = 0;
        assert(terms.take(0) =~= Seq::<T>::empty());
        while k < n
            invariant
                scalar::lawful::<T>(),
                self.valid(w),
                zone == self.zone(w),
                self.reads_within(img@, kernel@, stride, bias),
                k_base == stride * w.c,
                is_offset(in_base as int),
                forall|j: int|
                    0 <= j < zone.values_offsets@.len() ==> in_base + (
                    #[trigger] zone.values_offsets@[j]).1 == self.in_at(w, j),
                n == zone.values_offsets@.len(),
                k <= n,
                terms == Seq::new(
                    zone.values_offsets@.len(),
                    |k: int| self.term(w, k, img@, kernel@, stride),
                ),
                sum == summed(start, terms.take(k as int)),
            decreases n - k,
        {
            let (ix, offset): (usize, isize) = zone.values_offsets[k];
            proof {
                assert(zone.values_offsets@[k as int] == (ix, offset));
                assert(0 <= self.in_at(w, k as int) < img@.len());
                assert(0 <= self.kernel_at(w, k as int, stride) < kernel@.len());
                assert(img.len() == img@.len());
                assert(kernel.len() == kernel@.len());
                assert(terms.take(k + 1).drop_last() =~= terms.take(k as int));
                assert(terms.take(k + 1).last() == terms[k as int]);
            }
            let x: T = img[(in_base + offset as i128) as usize];
            let f: T = kernel[k_base + ix];
            let product: T = if n == 4 { scalar::times(x, f) } else { scalar::times(f, x) };
            sum = scalar::plus(sum, product);
            k += 1;
        }
        assert(terms.take(n as int) =~= terms);
        sum
    }

    /// Computes the points of one row of a zone, for one channel.
    fn process_row(
        &self,
        n: usize,
        z: usize,
        c: usize,
        r: usize,
        img: &[T],
        kernel: &[T],
        bias: &[T],
        k_stride: usize,
        out: &mut Vec<T>,
    )
        requires
            scalar::lawful::<T>(),
            self.measurable(),
            self.writes_apart(),
            self.reads_within(img@, kernel@, k_stride as nat, bias@),
            k_stride <= isize::MAX,
            fits(k_stride * self.input_shape.c),
            n < self.input_shape.batches(),
            z < self.patch.zones@.len(),
            c < self.input_shape.c,
            r < self.patch.zones@[z as int].rows@.len(),
            old(out)@.len() == tensor::volume(self.output_shape.shape@),
            forall|w: Point|
                self.valid(w) && before(w, n as int, z as int, c as int, r as int, 0)
                    ==> #[trigger] old(out)@[self.out_at(w)] == self.value(
                    w,
                    img@,
                    kernel@,
                    k_stride as nat,
                    bias@,
                ),
        ensures
            final(out)@.len() == old(out)@.len(),
            forall|w: Point|
                self.valid(w) && before(w, n as int, z as int, c as int, r + 1, 0)
                    ==> #[trigger] final(out)@[self.out_at(w)] == self.value(
                    w,
                    img@,
                    kernel@,
                    k_stride as nat,
                    bias@,
                ),
    {
        let zone = &self.patch.zones[z];
        let row = zone.rows[r];
        let n_stride_i: usize = match self.input_shape.n_stride {
            Some(s) => s,
            None => 0,
        };
        let n_stride_o: usize = match self.output_shape.n_stride {
            Some(s) => s,
            None => 0,
        };
        proof {
            lemma_offset(self.input_shape.batch_stride(), n, self.input_shape.batches());
            lemma_offset(self.output_shape.batch_stride(), n, self.input_shape.batches());
            lemma_offset(self.input_shape.c_stride, c, self.input_shape.c);
            lemma_offset(self.output_shape.c_stride, c, self.input_shape.c);
            lemma_offset(k_stride, c, self.input_shape.c);
        }
        let in_start: i128 = (n_stride_i * n) as i128 + (self.input_shape.c_stride * c) as i128
            + row.input_center_offset as i128;
        let out_start: i128 = (n_stride_o * n) as i128 + (self.output_shape.c_stride * c) as i128
            + row.output_offset as i128;
        let mut i: usize = 0;
        while i < row.len
            invariant
                scalar::lawful::<T>(),
                self.measurable(),
                self.writes_apart(),
                self.reads_within(img@, kernel@, k_stride as nat, bias@),
                n < self.input_shape.batches(),
                z < self.patch.zones@.len(),
                c < self.input_shape.c,
                r < self.patch.zones@[z as int].rows@.len(),
                zone == self.patch.zones@[z as int],
                row == zone.rows@[r as int],
                0 <= k_stride * c <= isize::MAX,
                0 <= self.input_shape.batch_stride() * n <= isize::MAX,
                0 <= self.output_shape.batch_stride() * n <= isize::MAX,
                0 <= self.input_shape.c_stride * c <= isize::MAX,
                0 <= self.output_shape.c_stride * c <= isize::MAX,
                in_start == self.input_shape.batch_stride() * n + self.input_shape.c_stride * c
                    + row.input_center_offset,
                out_start == self.output_shape.batch_stride() * n + self.output_shape.c_stride * c
                    + row.output_offset,
                i <= row.len,
                out@.len() == old(out)@.len(),
                out@.len() == tensor::volume(self.output_shape.shape@),
                forall|w: Point|
                    self.valid(w) && before(w, n as int, z as int, c as int, r as int, i as int)
                        ==> #[trigger] out@[self.out_at(w)] == self.value(
                        w,
                        img@,
                        kernel@,
                        k_stride as nat,
                        bias@,
                    ),
            decreases row.len - i,
        {
            let ghost w = Point {
                n: n as int,
                z: z as int,
                c: c as int,
                r: r as int,
                i: i as int,
            };
            proof {
                assert(self.valid(w));
                assert(fits(self.zone(w).input_stride * w.i));
                assert(fits(self.zone(w).output_stride * w.i));
                assert(0 <= self.out_at(w) < tensor::volume(self.output_shape.shape@));
                assert(out.len() == out@.len());
                assert(isize::MAX <= 0x7fff_ffff_ffff_ffff);
                assert(isize::MIN >= -0x8000_0000_0000_0000);
            }
            let in_base: i128 = in_start + (zone.input_stride * i as isize) as i128;
            let at: usize = (out_start + (zone.output_stride * i as isize) as i128) as usize;
            let value = self.sum_point(
                zone,
                img,
                kernel,
                bias[c],
                in_base,
                k_stride * c,
                Ghost(w),
                Ghost(k_stride as nat),
                Ghost(bias@),
            );
            let ghost was = out@;
            out.set(at, value);
            proof {
                assert forall|v: Point|
                    self.valid(v) && before(v, n as int, z as int, c as int, r as int, i + 1)
                    implies #[trigger] out@[self.out_at(v)] == self.value(
                    v,
                    img@,
                    kernel@,
                    k_stride as nat,
                    bias@,
                ) by {
                    if before(v, n as int, z as int, c as int, r as int, i as int) {
                        assert(was[self.out_at(v)] == self.value(
                            v,
                            img@,
                            kernel@,
                            k_stride as nat,
                            bias@,
                        ));
                        if self.out_at(v) == self.out_at(w) {
                            assert(v == w);
                        }
                    } else {
                        assert(v == w);
                    }
                }
            }
            i += 1;
        }
    }

    /// Computes the points of one zone, for one batch.
    fn process_zone(
        &self,
        n: usize,
        z: usize,
        img: &[T],
        kernel: &[T],
        bias: &[T],
        k_stride: usize,
        out: &mut Vec<T>,
    )
        requires
            scalar::lawful::<T>(),
            self.measurable(),
            self.writes_apart(),
            self.reads_within(img@, kernel@, k_stride as nat, bias@),
            k_stride <= isize::MAX,
            fits(k_stride * self.input_shape.c),
            n < self.input_shape.batches(),
            z < self.patch.zones@.len(),
            old(out)@.len() == tensor::volume(self.output_shape.shape@),
            forall|w: Point|
                self.valid(w) && before(w, n as int, z as int, 0, 0, 0) ==> #[trigger] old(out)@[
                    self.out_at(w)] == self.value(w, img@, kernel@, k_stride as nat, bias@),
        ensures
            final(out)@.len() == old(out)@.len(),
            forall|w: Point|
                self.valid(w) && before(w, n as int, z + 1, 0, 0, 0) ==> #[trigger] final(out)@[
                    self.out_at(w)] == self.value(w, img@, kernel@, k_stride as nat, bias@),
    {
        let mut c: usize = 0;
        while c < self.input_shape.c
            invariant
                scalar::lawful::<T>(),
                self.measurable(),
                self.writes_apart(),
                self.reads_within(img@, kernel@, k_stride as nat, bias@),
                k_stride <= isize::MAX,
                fits(k_stride * self.input_shape.c),
                n < self.input_shape.batches(),
                z < self.patch.zones@.len(),
                c <= self.input_shape.c,
                out@.len() == old(out)@.len(),
                out@.len() == tensor::volume(self.output_shape.shape@),
                forall|w: Point|
                    self.valid(w) && before(w, n as int, z as int, c as int, 0, 0)
                        ==> #[trigger] out@[self.out_at(w)] == self.value(
                        w,
                        img@,
                        kernel@,
                        k_stride as nat,
                        bias@,
                    ),
            decreases self.input_shape.c - c,
        {
            let rows: usize = self.patch.zones[z].rows.len();
            let mut r: usize = 0;
            while r < rows
                invariant
                    scalar::lawful::<T>(),
                    self.measurable(),
                    self.writes_apart(),
                    self.reads_within(img@, kernel@, k_stride as nat, bias@),
                    k_stride <= isize::MAX,
                    fits(k_stride * self.input_shape.c),
                    n < self.input_shape.batches(),
                    z < self.patch.zones@.len(),
                    c < self.input_shape.c,
                    rows == self.patch.zones@[z as int].rows@.len(),
                    r <= rows,
                    out@.len() == old(out)@.len(),
                    out@.len() == tensor::volume(self.output_shape.shape@),
                    forall|w: Point|
                        self.valid(w) && before(w, n as int, z as int, c as int, r as int, 0)
                            ==> #[trigger] out@[self.out_at(w)] == self.value(
                            w,
                            img@,
                            kernel@,
                            k_stride as nat,
                            bias@,
                        ),
                decreases rows - r,
            {
                self.process_row(n, z, c, r, img, kernel, bias, k_stride, out);
                r += 1;
            }
            proof {
                assert forall|w: Point|
                    self.valid(w) && before(w, n as int, z as int, c + 1, 0, 0)
                    implies #[trigger] out@[self.out_at(w)] == self.value(
                    w,
                    img@,
                    kernel@,
                    k_stride as nat,
                    bias@,
                ) by {
                    assert(before(w, n as int, z as int, c as int, rows as int, 0));
                }
            }
            c += 1;
        }
        proof {
            assert forall|w: Point| self.valid(w) && before(w, n as int, z + 1, 0, 0, 0)
                implies #[trigger] out@[self.out_at(w)] == self.value(
                w,
                img@,
                kernel@,
                k_stride as nat,
                bias@,
            ) by {
                assert(before(w, n as int, z as int, c as int, 0, 0));
            }
        }
    }

    /// The convolution without what is fused.
    fn eval_t(&self, img: &NdArray<T>, kernel: &NdArray<T>, bias: &NdArray<T>) -> (r: NdArray<T>)
        requires
            scalar::lawful::<T>(),
            self.convolves(img.data@, kernel, bias.data@),
        ensures
            self.convolved(
                img.data@,
                kernel,
                bias.data@,
                Seq::<DepthWisePostOp<T>>::empty(),
                &r,
            ),
    {
        proof {
            assert(kernel.shape@.subrange(2, kernel.shape@.len() as int) =~= kernel.shape@.skip(2));
            let whole = self.output_shape.shape@;
            assert(whole.subrange(0, whole.len() as int) =~= whole);
        }
        let k_stride: usize = tensor::count_elements(&kernel.shape, 2, kernel.shape.len());
        let len: usize = tensor::count_elements(
            &self.output_shape.shape,
            0,
            self.output_shape.shape.len(),
        );
        let batches: usize = match self.input_shape.n {
            Some(n) => n,
            None => 1,
        };
        let mut out: Vec<T> = Vec::new();
        while out.len() < len
            invariant
                scalar::lawful::<T>(),
                out@.len() <= len,
            decreases len - out@.len(),
        {
            out.push(scalar::zero());
        }
        let zones: usize = self.patch.zones.len();
        let mut n: usize = 0;
        while n < batches
            invariant
                scalar::lawful::<T>(),
                self.convolves(img.data@, kernel, bias.data@),
                k_stride == channel_stride(kernel.shape@),
                batches == self.input_shape.batches(),
                zones == self.patch.zones@.len(),
                n <= batches,
                out@.len() == tensor::volume(self.output_shape.shape@),
                forall|w: Point|
                    self.valid(w) && before(w, n as int, 0, 0, 0, 0)
                        ==> #[trigger] out@[self.out_at(w)] == self.value(
                        w,
                        img.data@,
                        kernel.data@,
                        k_stride as nat,
                        bias.data@,
                    ),
            decreases batches - n,
        {
            let mut z: usize = 0;
            while z < zones
                invariant
                    scalar::lawful::<T>(),
                    self.convolves(img.data@, kernel, bias.data@),
                    k_stride == channel_stride(kernel.shape@),
                    batches == self.input_shape.batches(),
                    zones == self.patch.zones@.len(),
                    n < batches,
                    z <= zones,
                    out@.len() == tensor::volume(self.output_shape.shape@),
                    forall|w: Point|
                        self.valid(w) && before(w, n as int, z as int, 0, 0, 0)
                            ==> #[trigger] out@[self.out_at(w)] == self.value(
                            w,
                            img.data@,
                            kernel.data@,
                            k_stride as nat,
                            bias.data@,
                        ),
                decreases zones - z,
            {
                self.process_zone(
                    n,
                    z,
                    img.data.as_slice(),
                    kernel.data.as_slice(),
                    bias.data.as_slice(),
                    k_stride,
                    &mut out,
                );
                z += 1;
            }
            proof {
                assert forall|w: Point| self.valid(w) && before(w, n + 1, 0, 0, 0, 0)
                    implies #[trigger] out@[self.out_at(w)] == self.value(
                    w,
                    img.data@,
                    kernel.data@,
                    k_stride as nat,
                    bias.data@,
                ) by {
                    assert(before(w, n as int, zones as int, 0, 0, 0));
                }
            }
            n += 1;
        }
        let r = NdArray {
            shape: vstd::slice::slice_to_vec(self.output_shape.shape.as_slice()),
            data: out,
        };
        proof {
            assert forall|w: Point| self.valid(w) implies #[trigger] r.data@[self.out_at(w)]
                == all_applied(
                Seq::<DepthWisePostOp<T>>::empty(),
                self.value(
                    w,
                    img.data@,
                    kernel.data@,
                    channel_stride(kernel.shape@),
                    bias.data@,
                ),
            ) by {
                assert(before(w, batches as int, 0, 0, 0, 0));
            }
        }
        r
    }

    /// The convolution of image, kernel and bias, whose elements are floating
    /// point numbers. What is fused is applied to elements of single precision
    /// only.
    pub fn eval(&self, dt: DatumType, inputs: &[NdArray<T>]) -> (r: Result<
        NdArray<T>,
        DepthWiseError,
    >)
        requires
            scalar::lawful::<T>(),
            dt.float() && inputs@.len() == 3 ==> self.convolves(
                inputs@[0].data@,
                &inputs@[1],
                inputs@[2].data@,
            ),
        ensures
            !dt.float() ==> r == Err::<NdArray<T>, DepthWiseError>(DepthWiseError::DatumType),
            dt.float() && inputs@.len() != 3 ==> r == Err::<NdArray<T>, DepthWiseError>(
                DepthWiseError::InputCount,
            ),
            dt.float() && inputs@.len() == 3 ==> r is Ok && self.convolved(
                inputs@[0].data@,
                &inputs@[1],
                inputs@[2].data@,
                if dt == DatumType::F32 {
                    self.post_ops@
                } else {
                    Seq::empty()
                },
                &r->Ok_0,
            ),
    {
        if !dt.is_float() {
            return Err(DepthWiseError::DatumType);
        }
        if inputs.len() != 3 {
            return Err(DepthWiseError::InputCount);
        }
        let mut out = self.eval_t(&inputs[0], &inputs[1], &inputs[2]);
        if self.post_ops.len() == 0 || dt != DatumType::F32 {
            assert(self.post_ops@.len() == 0 ==> self.post_ops@ =~= Seq::empty());
            return Ok(out);
        }
        let ghost raw = out.data@;
        let n: usize = out.data.len();
        let mut i: usize = 0;
        while i < n
            invariant
                scalar::lawful::<T>(),
                i <= n,
                n == raw.len(),
                out.data@.len() == n,
                out.shape@ == self.output_shape.shape@,
                forall|k: int|
                    0 <= k < i ==> #[trigger] out.data@[k] == all_applied(self.post_ops@, raw[k]),
                forall|k: int| i <= k < n ==> #[trigger] out.data@[k] == raw[k],
            decreases n - i,
        {
            let y: T = self.apply_post_ops_f32(out.data[i]);
            out.data.set(i, y);
            i += 1;
        }
        proof {
            let (img, kernel, bias) = (inputs@[0].data@, &inputs@[1], inputs@[2].data@);
            assert forall|w: Point| self.valid(w) implies #[trigger] out.data@[self.out_at(w)]
                == all_applied(
                self.post_ops@,
                self.value(w, img, kernel.data@, channel_stride(kernel.shape@), bias),
            ) by {
                assert(0 <= self.out_at(w) < n);
                assert(raw[self.out_at(w)] == self.value(
                    w,
                    img,
                    kernel.data@,
                    channel_stride(kernel.shape@),
                    bias,
                ));
            }
        }
        Ok(out)
    }

    /// The output has the type of the image and the shape of the convolution.
    pub fn output_facts<D: DimLike>(&self, inputs: &[&TypedFact<D>]) -> (r: Result<
        Vec<TypedFact<D>>,
        DepthWiseError,
    >)
        requires
            dims::lawful::<D>(),
        ensures
            inputs@.len() != 3 ==> r == Err::<Vec<TypedFact<D>>, DepthWiseError>(
                DepthWiseError::InputCount,
            ),
            inputs@.len() == 3 && self.input_shape.c != self.output_shape.c ==> r == Err::<
                Vec<TypedFact<D>>,
                DepthWiseError,
            >(DepthWiseError::Channels),
            inputs@.len() == 3 && self.input_shape.c == self.output_shape.c ==> {
                if !D::of_count_spec(self.input_shape.c).same_spec(
                    dims::volume_spec(inputs@[2].shape@),
                ) {
                    r == Err::<Vec<TypedFact<D>>, DepthWiseError>(DepthWiseError::Bias)
                } else {
                    &&& r is Ok
                    &&& r->Ok_0@.len() == 1
                    &&& r->Ok_0@[0].datum_type == inputs@[0].datum_type
                    &&& r->Ok_0@[0].shape@ == self.output_shape.shape@.map_values(
                        |n: usize| D::of_count_spec(n),
                    )
                }
            },
    {
        if inputs.len() != 3 {
            return Err(DepthWiseError::InputCount);
        }
        if self.input_shape.c != self.output_shape.c {
            return Err(DepthWiseError::Channels);
        }
        let channels: D = dims::of_count(self.input_shape.c);
        if !dims::same(&channels, &dims::volume(&inputs[2].shape)) {
            return Err(DepthWiseError::Bias);
        }
        let mut shape: Vec<D> = Vec::new();
        let mut i: usize = 0;
        while i < self.output_shape.shape.len()
            invariant
                dims::lawful::<D>(),
                i <= self.output_shape.shape@.len(),
                shape@ == self.output_shape.shape@.take(i as int).map_values(
                    |n: usize| D::of_count_spec(n),
                ),
            decreases self.output_shape.shape@.len() - i,
        {
            shape.push(dims::of_count(self.output_shape.shape[i]));
            i += 1;
            assert(shape@ =~= self.output_shape.shape@.take(i as int).map_values(
                |n: usize| D::of_count_spec(n),
            ));
        }
        assert(self.output_shape.shape@.take(i as int) =~= self.output_shape.shape@);
        let mut r: Vec<TypedFact<D>> = Vec::new();
        r.push(TypedFact { datum_type: inputs[0].datum_type, shape });
        Ok(r)
    }

    /// How many multiplications and additions the convolution takes, of which
    /// type: one per element of the kernel, batch and output point.
    pub fn cost<D: DimLike>(&self, inputs: &[&TypedFact<D>]) -> (r: Result<
        (DatumType, D),
        DepthWiseError,
    >)
        requires
            dims::lawful::<D>(),
            tensor::volume(self.patch.output_shape@) <= usize::MAX,
        ensures
            inputs@.len() != 3 ==> r == Err::<(DatumType, D), DepthWiseError>(
                DepthWiseError::InputCount,
            ),
            inputs@.len() == 3 ==> r == Ok::<(DatumType, D), DepthWiseError>(
                (
                    inputs@[0].datum_type,
                    dims::volume_spec(inputs@[1].shape@).product_spec(
                        D::of_count_spec(self.input_shape.batches()),
                    ).product_spec(
                        D::of_count_spec(tensor::volume(self.patch.output_shape@) as usize),
                    ),
                ),
            ),
    {
        if inputs.len() != 3 {
            return Err(DepthWiseError::InputCount);
        }
        proof {
            let whole = self.patch.output_shape@;
            assert(whole.subrange(0, whole.len() as int) =~= whole);
        }
        let points: usize = tensor::count_elements(
            &self.patch.output_shape,
            0,
            self.patch.output_shape.len(),
        );
        let batches: usize = match self.input_shape.n {
            Some(n) => n,
            None => 1,
        };
        let per_point: D = dims::volume(&inputs[1].shape);
        let per_batch: D = dims::product(&per_point, &dims::of_count(batches));
        Ok((inputs[0].datum_type, dims::product(&per_batch, &dims::of_count(points))))
    }
}

/// A product of a stride and an index stays within that of the stride and the
/// number of steps.
proof fn lemma_offset(stride: usize, i: usize, n: usize)
    requires
        i < n,
        fits(stride * n),
    ensures
        0 <= stride * i <= isize::MAX,
{
    assert(0 <= stride * i <= stride * n) by (nonlinear_arith)
        requires
            i < n,
    ;
}

/// A binary operation between tensors.
#[derive(Clone, Copy, Debug, PartialEq, Eq, Structural)]
pub enum BinOp {
    Min,
    Max,
    Add,
    Mul,
    Sub,
    SubF,
}

/// A tensor all of whose elements are one number.
#[derive(Clone, Copy, Debug)]
pub struct Uniform<T> {
    pub datum_type: DatumType,
    pub len: usize,
    pub value: T,
}

/// An operand of the operation behind a convolution: whether it is the
/// convolution, and the number that it is all made of, where that is known.
#[derive(Clone, Copy, Debug)]
pub struct Operand<T> {
    pub is_convolution: bool,
    pub uniform: Option<Uniform<T>>,
}

/// The node behind a convolution, where it is a binary operation.
#[derive(Clone, Copy, Debug)]
pub struct BinaryNode<T> {
    pub op: Option<BinOp>,
    pub first: Operand<T>,
    pub second: Operand<T>,
}

/// Where a convolution stands in its graph.
#[derive(Clone, Copy, Debug)]
pub struct Site<T> {
    pub outputs: usize,
    pub consumers: usize,
    pub is_model_output: bool,
    pub datum_type: DatumType,
    pub successor: Option<BinaryNode<T>>,
}

/// The operation that is fused for a binary operation with a number; `flipped`
/// says that the convolution is its first operand.
pub open spec fn post_op<T>(op: BinOp, flipped: bool, c: T) -> DepthWisePostOp<T> {
    match (op, flipped) {
        (BinOp::Min, _) => DepthWisePostOp::ScalarMin(c),
        (BinOp::Max, _) => DepthWisePostOp::ScalarMax(c),
        (BinOp::Add, _) => DepthWisePostOp::ScalarAdd(c),
        (BinOp::Mul, _) => DepthWisePostOp::ScalarMul(c),
        (BinOp::Sub, true) | (BinOp::SubF, false) => DepthWisePostOp::ScalarSub(c),
        (BinOp::Sub, false) | (BinOp::SubF, true) => DepthWisePostOp::ScalarSubF(c),
    }
}

/// The operation that can be fused at a site: a binary operation in single
/// precision with a single number, which alone consumes the convolution.
pub open spec fn fusable<T>(site: Site<T>, volume: nat) -> Option<DepthWisePostOp<T>> {
    if site.outputs == 1 && site.consumers == 1 && !site.is_model_output && volume > 0
        && site.datum_type == DatumType::F32 {
        match site.successor {
            Some(node) => {
                let flipped = node.first.is_convolution;
                let other = if flipped {
                    node.second
                } else {
                    node.first
                };
                match (node.op, other.uniform) {
                    (Some(op), Some(u)) if u.datum_type == DatumType::F32 && u.len == 1 => Some(
                        post_op(op, flipped, u.value),
                    ),
                    _ => None,
                }
            },
            None => None,
        }
    } else {
        None
    }
}

/// What a binary operation makes of two numbers.
pub open spec fn combined<T: Scalar>(op: BinOp, a: T, b: T) -> T {
    match op {
        BinOp::Min => a.smaller_spec(b),
        BinOp::Max => a.larger_spec(b),
        BinOp::Add => a.plus_spec(b),
        BinOp::Mul => a.times_spec(b),
        BinOp::Sub => a.minus_spec(b),
        BinOp::SubF => b.minus_spec(a),
    }
}

/// What is fused for an operation makes of an element what the operation itself
/// would have made of it. Where the convolution was the second operand of a
/// minimum, maximum, sum or product, that has to be commutative on the two
/// numbers.
pub proof fn law_fusing_keeps_the_meaning<T: Scalar>(op: BinOp, flipped: bool, c: T, x: T)
    requires
        flipped || op is Sub || op is SubF || combined(op, c, x) == combined(op, x, c),
    ensures
        post_op(op, flipped, c).applied(x) == if flipped {
            combined(op, x, c)
        } else {
            combined(op, c, x)
        },
{
}

impl Zone {
    /// A copy.
    fn duplicate(&self) -> (r: Self)
        ensures
            r.values_offsets@ == self.values_offsets@,
            r.input_stride == self.input_stride,
            r.output_stride == self.output_stride,
            r.rows@ == self.rows@,
    {
        Zone {
            values_offsets: vstd::slice::slice_to_vec(self.values_offsets.as_slice()),
            input_stride: self.input_stride,
            output_stride: self.output_stride,
            rows: vstd::slice::slice_to_vec(self.rows.as_slice()),
        }
    }
}

/// Whether two lists of zones are copies of one another.
pub open spec fn same_zones(a: Seq<Zone>, b: Seq<Zone>) -> bool {
    &&& a.len() == b.len()
    &&& forall|i: int|
        0 <= i < a.len() ==> {
            &&& (#[trigger] a[i]).values_offsets@ == b[i].values_offsets@
            &&& a[i].input_stride == b[i].input_stride
            &&& a[i].output_stride == b[i].output_stride
            &&& a[i].rows@ == b[i].rows@
        }
}

/// Whether two layouts are copies of one another.
pub open spec fn same_shape(a: &DataShape, b: &DataShape) -> bool {
    &&& a.shape@ == b.shape@
    &&& a.n == b.n
    &&& a.n_stride == b.n_stride
    &&& a.c == b.c
    &&& a.c_stride == b.c_stride
}

impl DataShape {
    /// A copy.
    fn duplicate(&self) -> (r: Self)
        ensures
            same_shape(&r, self),
    {
        DataShape {
            shape: vstd::slice::slice_to_vec(self.shape.as_slice()),
            n: self.n,
            n_stride: self.n_stride,
            c: self.c,
            c_stride: self.c_stride,
        }
    }
}

impl<T: Scalar> DepthWise<T> {
    /// Whether two convolutions have the same zones and layouts, whatever is
    /// fused behind them.
    pub open spec fn laid_out_as(&self, other: &Self) -> bool {
        &&& same_zones(self.patch.zones@, other.patch.zones@)
        &&& same_shape(&self.input_shape, &other.input_shape)
        &&& same_shape(&self.output_shape, &other.output_shape)
    }

    /// Whether a place of the output belongs to a zone.
    pub open spec fn in_zone(&self, i: int) -> bool {
        exists|w: Point| self.valid(w) && #[trigger] self.out_at(w) == i
    }

    /// Whether every place of the output belongs to a zone.
    pub open spec fn zones_cover(&self) -> bool {
        forall|i: int|
            0 <= i < tensor::volume(self.output_shape.shape@) ==> #[trigger] self.in_zone(i)
    }
}

/// A convolution with fused operations gives what they make of the plain
/// convolution, point by point; and place by place where zones cover the output.
pub proof fn law_fused_is_applied_to_plain<T: Scalar>(
    fused: &DepthWise<T>,
    plain: &DepthWise<T>,
    img: Seq<T>,
    kernel: &NdArray<T>,
    bias: Seq<T>,
    ops: Seq<DepthWisePostOp<T>>,
    z: &NdArray<T>,
    y: &NdArray<T>,
)
    requires
        fused.laid_out_as(plain),
        fused.convolved(img, kernel, bias, ops, z),
        plain.convolved(img, kernel, bias, Seq::empty(), y),
    ensures
        z.shape@ == y.shape@,
        forall|w: Point|
            plain.valid(w) ==> #[trigger] z.data@[plain.out_at(w)] == all_applied(
                ops,
                y.data@[plain.out_at(w)],
            ),
        plain.zones_cover() ==> z.data@ == y.data@.map_values(|v: T| all_applied(ops, v)),
{
    assert forall|w: Point| plain.valid(w) implies #[trigger] z.data@[plain.out_at(w)]
        == all_applied(ops, y.data@[plain.out_at(w)]) by {
        lemma_same_point(fused, plain, w, img, kernel.data@, channel_stride(kernel.shape@), bias);
        assert(z.data@[fused.out_at(w)] == all_applied(
            ops,
            fused.value(w, img, kernel.data@, channel_stride(kernel.shape@), bias),
        ));
        let none = Seq::<DepthWisePostOp<T>>::empty();
        assert(y.data@[plain.out_at(w)] == all_applied(
            none,
            plain.value(w, img, kernel.data@, channel_stride(kernel.shape@), bias),
        ));
    }
    if plain.zones_cover() {
        assert forall|i: int| 0 <= i < z.data@.len() implies z.data@[i] == all_applied(
            ops,
            y.data@[i],
        ) by {
            assert(plain.in_zone(i));
            let w = choose|w: Point| plain.valid(w) && #[trigger] plain.out_at(w) == i;
            assert(z.data@[plain.out_at(w)] == all_applied(ops, y.data@[plain.out_at(w)]));
        }
        assert(z.data@ =~= y.data@.map_values(|v: T| all_applied(ops, v)));
    }
}

/// A point is the same in two convolutions with the same zones and layouts.
proof fn lemma_same_point<T: Scalar>(
    a: &DepthWise<T>,
    b: &DepthWise<T>,
    w: Point,
    img: Seq<T>,
    kernel: Seq<T>,
    stride: nat,
    bias: Seq<T>,
)
    requires
        a.laid_out_as(b),
        b.valid(w),
    ensures
        a.valid(w),
        a.out_at(w) == b.out_at(w),
        a.value(w, img, kernel, stride, bias) == b.value(w, img, kernel, stride, bias),
{
    assert(a.patch.zones@[w.z].rows@ == b.patch.zones@[w.z].rows@);
    let n = a.zone(w).values_offsets@.len();
    assert(Seq::new(n, |k: int| a.term(w, k, img, kernel, stride)) =~= Seq::new(
        n,
        |k: int| b.term(w, k, img, kernel, stride),
    ));
}

/// A copy of some zones.
fn copy_zones(a: &Vec<Zone>) -> (r: Vec<Zone>)
    ensures
        same_zones(r@, a@),
{
    let mut r: Vec<Zone> = Vec::new();
    let mut i: usize = 0;
    while i < a.len()
        invariant
            i <= a@.len(),
            same_zones(r@, a@.take(i as int)),
        decreases a@.len() - i,
    {
        let ghost was = r@;
        r.push(a[i].duplicate());
        i += 1;
        assert forall|j: int| 0 <= j < i implies {
            &&& (#[trigger] r@[j]).values_offsets@ == a@.take(i as int)[j].values_offsets@
            &&& r@[j].input_stride == a@.take(i as int)[j].input_stride
            &&& r@[j].output_stride == a@.take(i as int)[j].output_stride
            &&& r@[j].rows@ == a@.take(i as int)[j].rows@
        } by {
            if j < i - 1 {
                assert(was[j].rows@ == a@.take(i - 1)[j].rows@);
            }
        }
    }
    assert(a@.take(i as int) =~= a@);
    r
}

impl<T: Scalar> DepthWise<T> {
    /// The convolution with the operation behind it fused, where that can be.
    pub fn fuse(&self, site: &Site<T>) -> (r: Option<DepthWise<T>>)
        requires
            tensor::volume(self.output_shape.shape@) <= usize::MAX,
        ensures
            match fusable(*site, tensor::volume(self.output_shape.shape@)) {
                None => r is None,
                Some(op) => {
                    &&& r is Some
                    &&& r->0.post_ops@ == self.post_ops@.push(op)
                    &&& r->0.patch.output_shape@ == self.patch.output_shape@
                    &&& r->0.laid_out_as(self)
                },
            },
    {
        if site.outputs != 1 || site.consumers != 1 || site.is_model_output {
            return None;
        }
        proof {
            let whole = self.output_shape.shape@;
            assert(whole.subrange(0, whole.len() as int) =~= whole);
        }
        let volume: usize = tensor::count_elements(
            &self.output_shape.shape,
            0,
            self.output_shape.shape.len(),
        );
        if volume == 0 || site.datum_type != DatumType::F32 {
            return None;
        }
        let node: BinaryNode<T> = match site.successor {
            Some(node) => node,
            None => return None,
        };
        let binop: BinOp = match node.op {
            Some(op) => op,
            None => return None,
        };
        let flipped: bool = node.first.is_convolution;
        let other: Operand<T> = if flipped { node.second } else { node.first };
        let uniform: Uniform<T> = match other.uniform {
            Some(u) => u,
            None => return None,
        };
        if uniform.datum_type != DatumType::F32 || uniform.len != 1 {
            return None;
        }
        let c: T = uniform.value;
        let op: DepthWisePostOp<T> = match (binop, flipped) {
            (BinOp::Min, _) => DepthWisePostOp::ScalarMin(c),
            (BinOp::Max, _) => DepthWisePostOp::ScalarMax(c),
            (BinOp::Add, _) => DepthWisePostOp::ScalarAdd(c),
            (BinOp::Mul, _) => DepthWisePostOp::ScalarMul(c),
            (BinOp::Sub, true) | (BinOp::SubF, false) => DepthWisePostOp::ScalarSub(c),
            (BinOp::Sub, false) | (BinOp::SubF, true) => DepthWisePostOp::ScalarSubF(c),
        };
        let mut post_ops: Vec<DepthWisePostOp<T>> = Vec::new();
        let mut i: usize = 0;
        while i < self.post_ops.len()
            invariant
                i <= self.post_ops@.len(),
                post_ops@ == self.post_ops@.take(i as int),
            decreases self.post_ops@.len() - i,
        {
            post_ops.push(self.post_ops[i]);
            i += 1;
            assert(post_ops@ =~= self.post_ops@.take(i as int));
        }
        post_ops.push(op);
        assert(post_ops@ =~= self.post_ops@.push(op));
        Some(
            DepthWise {
                patch: Patch {
                    output_shape: vstd::slice::slice_to_vec(self.patch.output_shape.as_slice()),
                    zones: copy_zones(&self.patch.zones),
                },
                input_shape: self.input_shape.duplicate(),
                output_shape: self.output_shape.duplicate(),
                post_ops,
            },
        )
    }
}

/// A sum from the left reads as the sum of what its terms read as.
proof fn lemma_summed<T: Scalar>(f: Reading<T>, bias: T, terms: Seq<T>, g: spec_fn(int) -> real)
    requires
        f.exact(),
        f.is(bias),
        f.all(terms),
        forall|k: int| 0 <= k < terms.len() ==> f.of(#[trigger] terms[k]) == g(k),
    ensures
        f.is(summed(bias, terms)),
        f.of(summed(bias, terms)) == f.of(bias) + reals::sum(terms.len(), g),
    decreases terms.len(),
{
    if terms.len() > 0 {
        let rest = terms.drop_last();
        assert forall|k: int| 0 <= k < rest.len() implies f.of(#[trigger] rest[k]) == g(k) && f.is(
            rest[k],
        ) by {
            assert(rest[k] == terms[k]);
        }
        lemma_summed(f, bias, rest, g);
        assert(f.is(terms[terms.len() - 1]));
        assert(f.is(summed(bias, rest).plus_spec(terms.last())));
    }
}

/// Where arithmetic is exact, every point holds the bias of its channel and the
/// sum, over all elements of the kernel in its zone's sight, of the element times
/// the number of the image that it lies on; then whatever is fused is applied.
/// Batches, channels, rows and places in a row lie apart as the layouts and the
/// zone say.
pub proof fn law_point_is_bias_and_all_products<T: Scalar>(
    f: Reading<T>,
    op: &DepthWise<T>,
    img: Seq<T>,
    kernel: &NdArray<T>,
    bias: Seq<T>,
    ops: Seq<DepthWisePostOp<T>>,
    out: &NdArray<T>,
    n: int,
    z: int,
    c: int,
    r: int,
    i: int,
) -> (y: T)
    requires
        f.exact(),
        op.convolved(img, kernel, bias, ops, out),
        0 <= n < match op.input_shape.n {
            Some(n) => n,
            None => 1,
        },
        0 <= z < op.patch.zones@.len(),
        0 <= c < op.input_shape.c,
        0 <= r < op.patch.zones@[z].rows@.len(),
        0 <= i < op.patch.zones@[z].rows@[r].len,
        f.is(bias[c]),
        f.all(img),
        f.all(kernel.data@),
        op.reads_within(img, kernel.data@, tensor::volume(kernel.shape@.skip(2)), bias),
    ensures
        f.is(y),
        ({
            let zone = op.patch.zones@[z];
            let row = zone.rows@[r];
            let in_batch: int = match op.input_shape.n_stride {
                Some(s) => s as int,
                None => 0,
            };
            let out_batch: int = match op.output_shape.n_stride {
                Some(s) => s as int,
                None => 0,
            };
            let center = in_batch * n + op.input_shape.c_stride * c + row.input_center_offset
                + zone.input_stride * i;
            let k_center = tensor::volume(kernel.shape@.skip(2)) * c;
            let at = out_batch * n + op.output_shape.c_stride * c + row.output_offset
                + zone.output_stride * i;
            let sight = zone.values_offsets@;
            &&& out.data@[at] == all_applied(ops, y)
            &&& f.of(y) == f.of(bias[c]) + reals::sum(
                sight.len(),
                |k: int|
                    reals::product(
                        f.of(kernel.data@[k_center + sight[k].0]),
                        f.of(img[center + sight[k].1]),
                    ),
            )
        }),
{
    let w = Point { n, z, c, r, i };
    let stride = channel_stride(kernel.shape@);
    let y = op.value(w, img, kernel.data@, stride, bias);
    assert(op.valid(w));
    assert(out.data@[op.out_at(w)] == all_applied(ops, y));
    let zone = op.patch.zones@[z];
    let row = zone.rows@[r];
    let in_batch: int = match op.input_shape.n_stride {
        Some(s) => s as int,
        None => 0,
    };
    let center = in_batch * n + op.input_shape.c_stride * c + row.input_center_offset
        + zone.input_stride * i;
    let k_center = stride * c;
    let sight = zone.values_offsets@;
    let g = |k: int|
        reals::product(
            f.of(kernel.data@[k_center + sight[k].0]),
            f.of(img[center + sight[k].1]),
        );
    let terms = Seq::new(sight.len(), |k: int| op.term(w, k, img, kernel.data@, stride));
    assert forall|k: int| 0 <= k < terms.len() implies f.is(#[trigger] terms[k]) && f.of(terms[k])
        == g(k) by {
        let (a, x) = (kernel.data@[op.kernel_at(w, k, stride)], img[op.in_at(w, k)]);
        assert(f.is(a) && f.is(x));
        exact::lemma_product(f, a, x);
        exact::lemma_product(f, x, a);
        reals::lemma_commutes(f.of(a), f.of(x));
    }
    lemma_summed(f, bias[c], terms, g);
    y
}

/// With a bias of 0 and all factors 1, a point counts the elements of the kernel
/// in its zone's sight.
pub proof fn law_point_of_ones_counts_its_kernel<T: Scalar>(
    f: Reading<T>,
    op: &DepthWise<T>,
    w: Point,
    img: Seq<T>,
    kernel: Seq<T>,
    stride: nat,
    bias: Seq<T>,
)
    requires
        f.exact(),
        op.valid(w),
        op.reads_within(img, kernel, stride, bias),
        bias[w.c] == T::zero_spec(),
        forall|j: int| 0 <= j < img.len() ==> #[trigger] img[j] == T::one_spec(),
        forall|j: int| 0 <= j < kernel.len() ==> #[trigger] kernel[j] == T::one_spec(),
    ensures
        f.of(op.value(w, img, kernel, stride, bias)) == reals::whole(
            op.patch.zones@[w.z].values_offsets@.len() as int,
        ),
{
    let n = op.zone(w).values_offsets@.len();
    let terms = Seq::new(n, |k: int| op.term(w, k, img, kernel, stride));
    let g = |k: int| reals::whole(1);
    let one = T::one_spec();
    exact::lemma_product(f, one, one);
    reals::lemma_zero_and_one(reals::whole(1));
    assert forall|k: int| 0 <= k < terms.len() implies f.is(#[trigger] terms[k]) && f.of(terms[k])
        == g(k) by {
        assert(kernel[op.kernel_at(w, k, stride)] == one && img[op.in_at(w, k)] == one);
    }
    lemma_summed(f, bias[w.c], terms, g);
    lemma_count(n, g);
}

/// As many ones make their number.
proof fn lemma_count(n: nat, g: spec_fn(int) -> real)
    requires
        forall|k: int| 0 <= k < n ==> #[trigger] g(k) == reals::whole(1),
    ensures
        reals::sum(n, g) == reals::whole(n as int),
    decreases n,
{
    if n > 0 {
        lemma_count((n - 1) as nat, g);
        assert(g(n - 1) == reals::whole(1));
    }
}

/// Where arithmetic is exact, each operation gives the larger or the smaller of
/// the element and the number, their sum, product or difference.
pub proof fn law_operations_are_what_they_are_called<T: Scalar>(f: Reading<T>, c: T, x: T)
    requires
        f.exact(),
        f.is(c),
        f.is(x),
    ensures
        f.of(DepthWisePostOp::ScalarMax(c).applied(x)) == if f.of(x) < f.of(c) {
            f.of(c)
        } else {
            f.of(x)
        },
        f.of(DepthWisePostOp::ScalarMin(c).applied(x)) == if f.of(x) < f.of(c) {
            f.of(x)
        } else {
            f.of(c)
        },
        f.of(DepthWisePostOp::ScalarAdd(c).applied(x)) == f.of(x) + f.of(c),
        f.of(DepthWisePostOp::ScalarMul(c).applied(x)) == reals::product(f.of(x), f.of(c)),
        f.of(DepthWisePostOp::ScalarSub(c).applied(x)) == f.of(x) - f.of(c),
        f.of(DepthWisePostOp::ScalarSubF(c).applied(x)) == f.of(c) - f.of(x),
{
    exact::lemma_product(f, x, c);
    assert(f.is(x.plus_spec(c)));
    assert(f.is(x.minus_spec(c)));
    assert(f.is(c.minus_spec(x)));
    assert(x.larger_spec(c) == if f.of(x) < f.of(c) {
        c
    } else {
        x
    });
    assert(x.smaller_spec(c) == if f.of(c) < f.of(x) {
        c
    } else {
        x
    });
}

/// Nothing fused leaves an element as it is, and of several operations the first
/// is applied first.
pub proof fn law_operations_are_applied_in_order<T: Scalar>(
    first: DepthWisePostOp<T>,
    second: DepthWisePostOp<T>,
    ops: Seq<DepthWisePostOp<T>>,
    x: T,
)
    ensures
        all_applied(Seq::<DepthWisePostOp<T>>::empty(), x) == x,
        all_applied(seq![first], x) == first.applied(x),
        all_applied(seq![first, second], x) == second.applied(first.applied(x)),
        all_applied(seq![first] + ops, x) == all_applied(ops, first.applied(x)),
{
    let none = Seq::<DepthWisePostOp<T>>::empty();
    assert(seq![first] =~= none.push(first));
    assert(seq![first, second] =~= seq![first].push(second));
    law_fused_op_is_applied_last(none, first, x);
    law_fused_op_is_applied_last(seq![first], second, x);
    lemma_first_is_applied_first(first, ops, x);
}

/// An operation in front of others is applied before them.
proof fn lemma_first_is_applied_first<T: Scalar>(
    first: DepthWisePostOp<T>,
    ops: Seq<DepthWisePostOp<T>>,
    x: T,
)
    ensures
        all_applied(seq![first] + ops, x) == all_applied(ops, first.applied(x)),
    decreases ops.len(),
{
    let none = Seq::<DepthWisePostOp<T>>::empty();
    if ops.len() == 0 {
        assert(seq![first] + ops =~= none.push(first));
        law_fused_op_is_applied_last(none, first, x);
    } else {
        let rest = ops.drop_last();
        lemma_first_is_applied_first(first, rest, x);
        assert(seq![first] + ops =~= (seq![first] + rest).push(ops.last()));
        law_fused_op_is_applied_last(seq![first] + rest, ops.last(), x);
    }
}

/// What is fused at a site is what its binary operation does with the element and
/// the number, in the order of its operands. Something is fused exactly where the
/// convolution is no output of the model, is not empty, is in single precision, and
/// is consumed once, by such an operation with one number in single precision.
pub proof fn law_fused_is_what_stood_behind<T: Scalar>(f: Reading<T>, site: Site<T>, volume: nat, x: T)
    requires
        f.exact(),
        f.is(x),
        site.successor matches Some(node) ==> {
            &&& node.first.uniform matches Some(u) ==> f.is(u.value)
            &&& node.second.uniform matches Some(u) ==> f.is(u.value)
        },
    ensures
        fusable(site, volume) is Some <==> {
            &&& site.outputs == 1 && site.consumers == 1 && !site.is_model_output
            &&& volume > 0
            &&& site.datum_type is F32
            &&& site.successor is Some
            &&& site.successor->0.op is Some
            &&& site.successor->0.first.is_convolution ==> {
                &&& site.successor->0.second.uniform is Some
                &&& site.successor->0.second.uniform->0.datum_type is F32
                &&& site.successor->0.second.uniform->0.len == 1
            }
            &&& !site.successor->0.first.is_convolution ==> {
                &&& site.successor->0.first.uniform is Some
                &&& site.successor->0.first.uniform->0.datum_type is F32
                &&& site.successor->0.first.uniform->0.len == 1
            }
        },
        fusable(site, volume) matches Some(op) ==> {
            let node = site.successor->0;
            let (a, b) = if node.first.is_convolution {
                (f.of(x), f.of(node.second.uniform->0.value))
            } else {
                (f.of(node.first.uniform->0.value), f.of(x))
            };
            let y = f.of(op.applied(x));
            match node.op->0 {
                BinOp::Min => y == if a < b {
                    a
                } else {
                    b
                },
                BinOp::Max => y == if a < b {
                    b
                } else {
                    a
                },
                BinOp::Add => y == a + b,
                BinOp::Mul => y == reals::product(a, b),
                BinOp::Sub => y == a - b,
                BinOp::SubF => y == b - a,
            }
        },
{
    if let Some(op) = fusable(site, volume) {
        let node = site.successor->0;
        let c = if node.first.is_convolution {
            node.second.uniform->0.value
        } else {
            node.first.uniform->0.value
        };
        law_operations_are_what_they_are_called(f, c, x);
        reals::lemma_commutes(f.of(c), f.of(x));
    }
}

/// Two operations are told apart by what they do: their numbers aside, they have
/// one tag exactly where they are of one kind.
pub proof fn law_tags_tell_operations_apart<T: Scalar>(
    a: DepthWisePostOp<T>,
    b: DepthWisePostOp<T>,
)
    ensures
        a.tag() == b.tag() <==> match a {
            DepthWisePostOp::ScalarMax(_) => b is ScalarMax,
            DepthWisePostOp::ScalarMin(_) => b is ScalarMin,
            DepthWisePostOp::ScalarAdd(_) => b is ScalarAdd,
            DepthWisePostOp::ScalarMul(_) => b is ScalarMul,
            DepthWisePostOp::ScalarSub(_) => b is ScalarSub,
            DepthWisePostOp::ScalarSubF(_) => b is ScalarSubF,
        },
{
}

/// Fusing changes nothing but what is applied: zones and layouts are copied whole.
pub proof fn law_fusing_keeps_the_layout<T: Scalar>(a: &DepthWise<T>, b: &DepthWise<T>, z: int)
    requires
        a.laid_out_as(b),
    ensures
        a.patch.zones@.len() == b.patch.zones@.len(),
        0 <= z < b.patch.zones@.len() ==> {
            let (x, y) = (a.patch.zones@[z], b.patch.zones@[z]);
            &&& x.values_offsets@ == y.values_offsets@
            &&& x.input_stride == y.input_stride
            &&& x.output_stride == y.output_stride
            &&& x.rows@ == y.rows@
        },
        a.input_shape.shape@ == b.input_shape.shape@,
        a.input_shape.n == b.input_shape.n && a.input_shape.n_stride == b.input_shape.n_stride,
        a.input_shape.c == b.input_shape.c && a.input_shape.c_stride == b.input_shape.c_stride,
        a.output_shape.shape@ == b.output_shape.shape@,
        a.output_shape.n == b.output_shape.n && a.output_shape.n_stride == b.output_shape.n_stride,
        a.output_shape.c == b.output_shape.c && a.output_shape.c_stride == b.output_shape.c_stride,
{
}

} // verus!
