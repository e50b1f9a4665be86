//! Work for a graphics processor, planned: which kernels are launched, on what.

use vstd::prelude::*;

use crate::datum::DatumType;
use crate::tensor;

verus! {

/// The extent of a grid of thread groups, or of one group.
#[derive(Clone, Copy, Debug, PartialEq, Eq, Structural)]
pub struct Size {
    pub width: u64,
    pub height: u64,
    pub depth: u64,
}

/// A library of kernels.
#[derive(Clone, Copy, Debug, PartialEq, Eq, Structural)]
pub enum LibraryName {
    MlxSdpa,
    KvInt4,
    NNOps,
}

/// A value that a kernel is compiled with.
#[derive(Clone, Copy, Debug, PartialEq, Eq, Structural)]
pub enum Constant {
    Bool(bool),
    I32(i32),
}

/// Which tensor an argument is.
#[derive(Clone, Copy, Debug, PartialEq, Eq, Structural)]
pub enum Role {
    Q,
    K,
    V,
    KPacked,
    KScale,
    VPacked,
    VScale,
    Input,
    Output,
    /// Outputs of blocks of keys, to be combined.
    Partials,
    /// Sums of the weights of blocks of keys.
    Sums,
    /// Greatest scores of blocks of keys.
    Maxs,
}

/// What a kernel does with a tensor.
#[derive(Clone, Copy, Debug, PartialEq, Eq, Structural)]
pub enum Access {
    Read,
    Write,
}

/// How far apart batches, heads and rows lie.
#[derive(Clone, Copy, Debug, PartialEq, Eq, Structural)]
pub struct RowStrides {
    pub batch: i64,
    pub head: i64,
    pub row: i64,
}

/// The parameters of the tiled attention.
#[derive(Clone, Copy, Debug)]
pub struct AttnParams<T> {
    pub b: i32,
    pub h: i32,
    pub d: i32,
    pub ql: i32,
    pub kl: i32,
    pub gqa_factor: i32,
    pub scale: T,
    pub nq: i32,
    pub nk: i32,
    pub nq_aligned: i32,
    pub nk_aligned: i32,
    pub ql_rem: i32,
    pub kl_rem: i32,
    pub ql_off: i32,
    pub q_strides: RowStrides,
    pub k_strides: RowStrides,
    pub v_strides: RowStrides,
    pub o_strides: RowStrides,
}

/// An argument of a kernel.
#[derive(Clone, Copy, Debug)]
pub enum Argument<T> {
    Tensor(Role, Access),
    I32(i32),
    U64(u64),
    U32x4(u32, u32, u32, u32),
    Number(T),
    Attn(AttnParams<T>),
}

/// One launch of one kernel.
#[derive(Debug)]
pub struct Launch<T> {
    pub library: LibraryName,
    pub kernel: String,
    pub constants: Vec<(u32, Constant)>,
    pub arguments: Vec<(u32, Argument<T>)>,
    pub grid: Size,
    pub group: Size,
}

/// One launch of one kernel, in the abstract.
#[verifier::ext_equal]
pub struct LaunchView<T> {
    pub library: LibraryName,
    pub kernel: Seq<char>,
    pub constants: Seq<(u32, Constant)>,
    pub arguments: Seq<(u32, Argument<T>)>,
    pub grid: Size,
    pub group: Size,
}

impl<T> View for Launch<T> {
    type V = LaunchView<T>;

    open spec fn view(&self) -> LaunchView<T> {
        LaunchView {
            library: self.library,
            kernel: self.kernel@,
            constants: self.constants@,
            arguments: self.arguments@,
            grid: self.grid,
            group: self.group,
        }
    }
}

/// Whether a launch has exactly one thing at an index: this.
pub open spec fn bound<T>(l: LaunchView<T>, index: u32, a: Argument<T>) -> bool {
    &&& exists|i: int| 0 <= i < l.arguments.len() && #[trigger] l.arguments[i] == (index, a)
    &&& forall|i: int|
        0 <= i < l.arguments.len() && (#[trigger] l.arguments[i]).0 == index ==> l.arguments[i].1
            == a
}

/// Whether a launch is compiled with exactly one constant at an index: this.
pub open spec fn compiled<T>(l: LaunchView<T>, index: u32, c: Constant) -> bool {
    &&& exists|i: int| 0 <= i < l.constants.len() && #[trigger] l.constants[i] == (index, c)
    &&& forall|i: int|
        0 <= i < l.constants.len() && (#[trigger] l.constants[i]).0 == index ==> l.constants[i].1
            == c
}

/// Whether a launch writes a tensor.
pub open spec fn writes<T>(l: LaunchView<T>, role: Role) -> bool {
    exists|i: int|
        0 <= i < l.arguments.len() && (#[trigger] l.arguments[i]).1 == Argument::<T>::Tensor(
            role,
            Access::Write,
        )
}

/// A tensor that is needed between launches.
#[derive(Debug)]
pub struct Scratch {
    pub role: Role,
    pub datum_type: DatumType,
    pub shape: Vec<usize>,
}

impl View for Scratch {
    type V = (Role, DatumType, Seq<usize>);

    open spec fn view(&self) -> (Role, DatumType, Seq<usize>) {
        (self.role, self.datum_type, self.shape@)
    }
}

/// Launches, one after the other, and the tensors needed between them.
#[derive(Debug)]
pub struct Plan<T> {
    pub scratch: Vec<Scratch>,
    pub launches: Vec<Launch<T>>,
}

/// Launches and the tensors needed between them, in the abstract.
#[verifier::ext_equal]
pub struct PlanView<T> {
    pub scratch: Seq<(Role, DatumType, Seq<usize>)>,
    pub launches: Seq<LaunchView<T>>,
}

impl<T> View for Plan<T> {
    type V = PlanView<T>;

    open spec fn view(&self) -> PlanView<T> {
        PlanView {
            scratch: Seq::new(self.scratch@.len(), |i: int| self.scratch@[i]@),
            launches: Seq::new(self.launches@.len(), |i: int| self.launches@[i]@),
        }
    }
}

/// A tensor on the device: its type, its extents, and how far apart elements
/// lie along each axis.
#[derive(Debug, Clone)]
pub struct DeviceTensor {
    pub datum_type: DatumType,
    pub shape: Vec<usize>,
    pub strides: Vec<isize>,
}

impl DeviceTensor {
    /// Whether there is a stride for every axis, and extents and strides of a
    /// tensor without gaps can be counted.
    pub open spec fn wf(&self) -> bool {
        &&& self.strides@.len() == self.shape@.len()
        &&& countable(self.shape@)
    }

    /// Whether the tensor has no gaps.
    pub open spec fn natural(&self) -> bool {
        self.strides@ == natural_strides(self.shape@)
    }
}

/// Whether the strides of a tensor without gaps fit.
pub open spec fn countable(shape: Seq<usize>) -> bool {
    &&& forall|i: int| 0 <= i < shape.len() ==> #[trigger] shape[i] <= isize::MAX
    &&& forall|i: int|
        1 <= i <= shape.len() ==> tensor::volume(#[trigger] shape.skip(i)) <= isize::MAX
}

/// The strides of a tensor without gaps: each axis steps over all behind it.
pub open spec fn natural_strides(shape: Seq<usize>) -> Seq<isize> {
    Seq::new(shape.len(), |i: int| tensor::volume(shape.skip(i + 1)) as isize)
}

/// The strides of a tensor without gaps.
pub fn natural_strides_of(shape: &Vec<usize>) -> (r: Vec<isize>)
    requires
        countable(shape@),
    ensures
        r@ == natural_strides(shape@),
{
    let n: usize = shape.len();
    let mut strides: Vec<isize> = Vec::new();
    let mut i: usize = 0;
    while i < n
        invariant
            n == shape@.len(),
            i <= n,
            countable(shape@),
            strides@ == natural_strides(shape@).take(i as int),
        decreases n - i,
    {
        proof {
            let s = shape@;
            assert(s.subrange(i + 1, n as int) =~= s.skip(i + 1));
            assert(tensor::volume(s.skip(i + 1)) <= isize::MAX);
        }
        let stride: usize = tensor::count_elements(shape, i + 1, n);
        strides.push(stride as isize);
        i += 1;
        assert(strides@ =~= natural_strides(shape@).take(i as int));
    }
    assert(strides@ =~= natural_strides(shape@));
    strides
}

/// Whether a tensor has no gaps.
pub fn is_natural(t: &DeviceTensor) -> (r: bool)
    requires
        t.wf(),
    ensures
        r == t.natural(),
{
    let want = natural_strides_of(&t.shape);
    let n: usize = t.strides.len();
    let mut i: usize = 0;
    while i < n
        invariant
            n == t.strides@.len(),
            t.strides@.len() == want@.len(),
            want@ == natural_strides(t.shape@),
            i <= n,
            forall|k: int| 0 <= k < i ==> #[trigger] t.strides@[k] == want@[k],
        decreases n - i,
    {
        if t.strides[i] != want[i] {
            return false;
        }
        i += 1;
    }
    assert(t.strides@ =~= want@);
    true
}

/// A tensor has no gaps exactly where its last axis steps by one element, and every
/// other axis by as many as the axis behind it steps over in all.
pub proof fn law_without_gaps_steps_multiply(t: &DeviceTensor)
    requires
        t.wf(),
    ensures
        t.natural() <==> {
            &&& t.shape@.len() > 0 ==> t.strides@[t.shape@.len() - 1] == 1
            &&& forall|i: int|
                0 <= i < t.shape@.len() - 1 ==> #[trigger] t.strides@[i] == t.strides@[i + 1]
                    * t.shape@[i + 1]
        },
{
    let (shape, strides) = (t.shape@, t.strides@);
    let n = shape.len() as int;
    let want = natural_strides(shape);
    assert forall|i: int| 0 <= i < n - 1 implies #[trigger] want[i] == want[i + 1] * shape[i + 1] by {
        let tail = shape.skip(i + 1);
        tensor::lemma_volume_split(tail, 1);
        assert(tail.skip(1) =~= shape.skip(i + 2));
        let head = tail.take(1);
        assert(tensor::volume(head) == shape[i + 1]) by {
            reveal_with_fuel(tensor::volume, 2);
            assert(head.drop_last().len() == 0);
            assert(head.last() == shape[i + 1]);
            assert(1 * head.last() as nat == head.last() as nat);
        }
        assert(tensor::volume(tail) <= isize::MAX);
        assert(tensor::volume(shape.skip(i + 2)) <= isize::MAX);
        let (a, b) = (tensor::volume(head) as int, tensor::volume(tail.skip(1)) as int);
        assert(a * b == b * a) by (nonlinear_arith);
    }
    if n > 0 {
        assert(shape.skip(n).len() == 0);
        assert(want[n - 1] == 1);
    }
    if (n > 0 ==> strides[n - 1] == 1) && (forall|i: int|
        0 <= i < n - 1 ==> #[trigger] strides[i] == strides[i + 1] * shape[i + 1]) {
        if n > 0 {
            lemma_same_steps(shape, strides, want, n - 1);
        }
        assert(strides =~= want);
    }
}

/// Steps that multiply in the same way are the same.
proof fn lemma_same_steps(shape: Seq<usize>, a: Seq<isize>, b: Seq<isize>, i: int)
    requires
        a.len() == shape.len(),
        b.len() == shape.len(),
        0 <= i < shape.len(),
        a[shape.len() - 1] == 1,
        b[shape.len() - 1] == 1,
        forall|i: int| 0 <= i < shape.len() - 1 ==> #[trigger] a[i] == a[i + 1] * shape[i + 1],
        forall|i: int| 0 <= i < shape.len() - 1 ==> #[trigger] b[i] == b[i + 1] * shape[i + 1],
    ensures
        forall|k: int| shape.len() - 1 - i <= k < shape.len() ==> #[trigger] a[k] == b[k],
    decreases i,
{
    if i > 0 {
        lemma_same_steps(shape, a, b, i - 1);
        let k = shape.len() - 1 - i;
        assert(a[k] == a[k + 1] * shape[k + 1]);
        assert(b[k] == b[k + 1] * shape[k + 1]);
    }
}

} // verus!
