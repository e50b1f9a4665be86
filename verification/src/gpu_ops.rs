//! Small operators on a graphics processor: attention over packed caches, and
//! powers with a constant exponent.

use vstd::prelude::*;

use crate::datum::DatumType;
use crate::dims;
use crate::dims::DimLike;
use crate::fact::TypedFact;
use crate::gpu;
use crate::gpu::{Access, Argument, DeviceTensor, Launch, LaunchView, LibraryName, Role, Size};
use crate::scalar;
use crate::scalar::Scalar;
use crate::tensor;
use crate::text;

verus! {

/// The launch of attention over a packed cache: one query, one group.
pub open spec fn attend_launch<T>(t: usize, d: usize, valid: usize, scale: T) -> LaunchView<T> {
    LaunchView {
        library: LibraryName::KvInt4,
        kernel: "kv_int4_attend_simd"@,
        constants: Seq::empty(),
        arguments: seq![
            (0u32, Argument::Tensor(Role::Q, Access::Read)),
            (1u32, Argument::Tensor(Role::KPacked, Access::Read)),
            (2u32, Argument::Tensor(Role::KScale, Access::Read)),
            (3u32, Argument::Tensor(Role::VPacked, Access::Read)),
            (4u32, Argument::Tensor(Role::VScale, Access::Read)),
            (5u32, Argument::U32x4(t as u32, d as u32, valid as u32, 0)),
            (6u32, Argument::Number(scale)),
            (7u32, Argument::Tensor(Role::Output, Access::Write)),
        ],
        grid: Size { width: 1, height: 1, depth: 1 },
        group: Size { width: d as u64, height: 1, depth: 1 },
    }
}

/// Plans attention of one query head of width `d` over a packed cache, whose
/// `k_scale` has one element per token. The first `valid` tokens are attended.
pub fn dispatch_attend<T: Scalar>(k_scale: &DeviceTensor, d: usize, valid: usize, scale: T) -> (r:
    Launch<T>)
    requires
        tensor::volume(k_scale.shape@) <= usize::MAX,
    ensures
        r@ == attend_launch(tensor::volume(k_scale.shape@) as usize, d, valid, scale),
{
    proof {
        let s = k_scale.shape@;
        assert(s.subrange(0, s.len() as int) =~= s);
    }
    let t: usize = tensor::count_elements(&k_scale.shape, 0, k_scale.shape.len());
    let r = Launch {
        library: LibraryName::KvInt4,
        kernel: "kv_int4_attend_simd".to_owned(),
        constants: Vec::new(),
        arguments: vec![
            (0u32, Argument::Tensor(Role::Q, Access::Read)),
            (1u32, Argument::Tensor(Role::KPacked, Access::Read)),
            (2u32, Argument::Tensor(Role::KScale, Access::Read)),
            (3u32, Argument::Tensor(Role::VPacked, Access::Read)),
            (4u32, Argument::Tensor(Role::VScale, Access::Read)),
            (5u32, Argument::U32x4(t as u32, d as u32, valid as u32, 0)),
            (6u32, Argument::Number(scale)),
            (7u32, Argument::Tensor(Role::Output, Access::Write)),
        ],
        grid: Size { width: 1, height: 1, depth: 1 },
        group: Size { width: d as u64, height: 1, depth: 1 },
    };
    let ghost want = attend_launch(t, d, valid, scale);
    assert(r@.arguments =~= want.arguments);
    assert(r@ =~= want);
    r
}

/// Why a power cannot be launched.
#[derive(Clone, Copy, Debug, PartialEq, Eq, Structural)]
pub enum PowError {
    /// There is not one input.
    InputCount,
    /// Input and output differ in shape.
    Shape,
    /// Input and output differ in type.
    DatumType,
    /// There is no kernel for the type.
    Unsupported,
}

/// The kernels for powers with a constant exponent.
#[derive(Debug, Clone, Copy, PartialEq, Eq, Structural)]
pub struct PowConst;

/// The launch of a power over `n` elements: one group each.
pub open spec fn pow_launch<T>(tname: Seq<char>, exponent: T, n: nat) -> LaunchView<T> {
    LaunchView {
        library: LibraryName::NNOps,
        kernel: "nn_ops::pow_const_"@ + tname,
        constants: Seq::empty(),
        arguments: seq![
            (0u32, Argument::Tensor(Role::Input, Access::Read)),
            (1u32, Argument::Tensor(Role::Output, Access::Write)),
            (2u32, Argument::Number(exponent)),
        ],
        grid: Size { width: n as u64, height: 1, depth: 1 },
        group: Size { width: 1, height: 1, depth: 1 },
    }
}

/// What a power is refused for, if anything.
pub open spec fn pow_refusal(input: &DeviceTensor, output: &DeviceTensor) -> Option<PowError> {
    if output.shape@ != input.shape@ {
        Some(PowError::Shape)
    } else if output.datum_type != input.datum_type {
        Some(PowError::DatumType)
    } else if !(input.datum_type is F32 || input.datum_type is F16) {
        Some(PowError::Unsupported)
    } else {
        None
    }
}

impl PowConst {
    /// Whether there is a kernel for a type.
    pub fn is_supported_dt(dt: DatumType) -> (r: bool)
        ensures
            r == (dt is F32 || dt is F16),
    {
        match dt {
            DatumType::F32 | DatumType::F16 => true,
            _ => false,
        }
    }

    /// The kernel for a type, given the device's word for it.
    pub fn kernel_name(&self, dt: DatumType, tname: &str) -> (r: Result<String, PowError>)
        ensures
            !(dt is F32 || dt is F16) ==> r == Err::<String, PowError>(PowError::Unsupported),
            dt is F32 || dt is F16 ==> r is Ok && r->Ok_0@ == "nn_ops::pow_const_"@ + tname@,
    {
        if !Self::is_supported_dt(dt) {
            return Err(PowError::Unsupported);
        }
        Ok(text::joined("nn_ops::pow_const_", tname))
    }

    /// Plans a power, given the device's word for the input's type.
    pub fn dispatch_eval<T: Scalar>(
        &self,
        input: &DeviceTensor,
        exponent: T,
        output: &DeviceTensor,
        tname: &str,
    ) -> (r: Result<Launch<T>, PowError>)
        requires
            tensor::volume(output.shape@) <= usize::MAX,
        ensures
            match pow_refusal(input, output) {
                Some(e) => r == Err::<Launch<T>, PowError>(e),
                None => r is Ok && r->Ok_0@ == pow_launch(
                    tname@,
                    exponent,
                    tensor::volume(output.shape@),
                ),
            },
    {
        if !same_extents(&output.shape, &input.shape) {
            return Err(PowError::Shape);
        }
        if output.datum_type != input.datum_type {
            return Err(PowError::DatumType);
        }
        let kernel = match self.kernel_name(input.datum_type, tname) {
            Ok(s) => s,
            Err(e) => return Err(e),
        };
        proof {
            let s = output.shape@;
            assert(s.subrange(0, s.len() as int) =~= s);
        }
        let n: usize = tensor::count_elements(&output.shape, 0, output.shape.len());
        let launch = Launch {
            library: LibraryName::NNOps,
            kernel,
            constants: Vec::new(),
            arguments: vec![
                (0u32, Argument::Tensor(Role::Input, Access::Read)),
                (1u32, Argument::Tensor(Role::Output, Access::Write)),
                (2u32, Argument::Number(exponent)),
            ],
            grid: Size { width: n as u64, height: 1, depth: 1 },
            group: Size { width: 1, height: 1, depth: 1 },
        };
        let ghost want = pow_launch(tname@, exponent, n as nat);
        assert(launch@.arguments =~= want.arguments);
        assert(launch@ =~= want);
        Ok(launch)
    }
}

/// Whether two shapes are the same.
fn same_extents(a: &Vec<usize>, b: &Vec<usize>) -> (r: bool)
    ensures
        r == (a@ == b@),
{
    if a.len() != b.len() {
        return false;
    }
    let mut i: usize = 0;
    while i < a.len()
        invariant
            a@.len() == b@.len(),
            i <= a@.len(),
            forall|k: int| 0 <= k < i ==> #[trigger] a@[k] == b@[k],
        decreases a@.len() - i,
    {
        if a[i] != b[i] {
            return false;
        }
        i += 1;
    }
    assert(a@ =~= b@);
    true
}

/// Plans a power, given the device's word for the input's type.
pub fn metal_pow_const_dispatch<T: Scalar>(
    exponent: T,
    input: &DeviceTensor,
    output: &DeviceTensor,
    tname: &str,
) -> (r: Result<Launch<T>, PowError>)
    requires
        tensor::volume(output.shape@) <= usize::MAX,
    ensures
        match pow_refusal(input, output) {
            Some(e) => r == Err::<Launch<T>, PowError>(e),
            None => r is Ok && r->Ok_0@ == pow_launch(
                tname@,
                exponent,
                tensor::volume(output.shape@),
            ),
        },
{
    PowConst.dispatch_eval(input, exponent, output, tname)
}

/// A power with a constant exponent, on the device of some backend.
#[derive(Debug, Clone, Copy)]
pub struct GpuPowConst<T> {
    pub exponent: T,
    pub backend_name: &'static str,
}

impl<T: Scalar> GpuPowConst<T> {
    /// A power on a backend.
    pub fn new(exponent: T, backend_name: &'static str) -> (r: Self)
        ensures
            r.exponent == exponent,
            r.backend_name == backend_name,
    {
        GpuPowConst { exponent, backend_name }
    }

    /// The operator in words, given the exponent in words.
    pub fn text(&self, exponent: &str) -> (r: String)
        ensures
            r@ == self.backend_name@ + "PowConst(exponent: "@ + exponent@ + ")"@,
    {
        let mut s = text::joined(self.backend_name, "PowConst(exponent: ");
        s.append(exponent);
        s.append(")");
        s
    }

    /// Whether two operators are the same: on one backend, with equal exponents.
    pub fn same(&self, other: &Self) -> (r: bool)
        requires
            scalar::lawful::<T>(),
        ensures
            r == (self.backend_name@ == other.backend_name@ && self.exponent.equal_spec(
                other.exponent,
            )),
    {
        self.backend_name.to_owned() == other.backend_name.to_owned() && scalar::equal(
            self.exponent,
            other.exponent,
        )
    }

    /// What an operator is hashed by: its backend, and the bit pattern of its
    /// exponent.
    pub fn hash_key(&self) -> (r: (&'static str, u32))
        requires
            scalar::lawful::<T>(),
        ensures
            r.0@ == self.backend_name@,
            r.1 == self.exponent.to_bits_spec(),
    {
        (self.backend_name, scalar::to_bits(self.exponent))
    }

    /// The operator's name.
    pub fn name(&self) -> (r: String)
        ensures
            r@ == self.backend_name@ + "PowConst"@,
    {
        text::joined(self.backend_name, "PowConst")
    }

    /// The result depends on the input alone.
    pub fn is_stateless(&self) -> (r: bool)
        ensures
            r,
    {
        true
    }

    /// The tensor that the power of the one input is written to: it is like the
    /// input.
    pub fn eval_with_session(&self, inputs: &[DeviceTensor]) -> (r: Result<
        (DatumType, Vec<usize>),
        PowError,
    >)
        ensures
            inputs@.len() != 1 ==> r == Err::<(DatumType, Vec<usize>), PowError>(
                PowError::InputCount,
            ),
            inputs@.len() == 1 ==> match r {
                Ok((dt, shape)) => dt == inputs@[0].datum_type && shape@ == inputs@[0].shape@,
                Err(_) => false,
            },
    {
        if inputs.len() != 1 {
            return Err(PowError::InputCount);
        }
        Ok((inputs[0].datum_type, vstd::slice::slice_to_vec(inputs[0].shape.as_slice())))
    }

    /// The output is like the input.
    pub fn output_facts<D: DimLike>(&self, inputs: &[&TypedFact<D>]) -> (r: TypedFact<D>)
        requires
            dims::lawful::<D>(),
            inputs@.len() >= 1,
        ensures
            r@ == inputs@[0]@,
    {
        inputs[0].duplicate()
    }
}

/// What a power is written to is never refused for its shape or type.
pub proof fn law_made_output_fits(input: &DeviceTensor, output: &DeviceTensor)
    requires
        output.datum_type == input.datum_type,
        output.shape@ == input.shape@,
    ensures
        pow_refusal(input, output) is Some ==> pow_refusal(input, output)
            == Some(PowError::Unsupported),
{
}

/// Attention over packed caches reads the queries at index 0, codes and steps of the
/// keys at 1 and 2, and those of the values at 3 and 4. It is told how many tokens
/// are cached, the width of the head and how many tokens are attended, in this order,
/// and writes the output alone.
pub proof fn law_attend_binds_its_tensors<T>(t: usize, d: usize, valid: usize, scale: T)
    ensures
        ({
            let l = attend_launch(t, d, valid, scale);
            &&& l.arguments.len() == 8
            &&& gpu::bound(l, 0, Argument::Tensor(Role::Q, Access::Read))
            &&& gpu::bound(l, 1, Argument::Tensor(Role::KPacked, Access::Read))
            &&& gpu::bound(l, 2, Argument::Tensor(Role::KScale, Access::Read))
            &&& gpu::bound(l, 3, Argument::Tensor(Role::VPacked, Access::Read))
            &&& gpu::bound(l, 4, Argument::Tensor(Role::VScale, Access::Read))
            &&& gpu::bound(l, 5, Argument::U32x4(t as u32, d as u32, valid as u32, 0))
            &&& gpu::bound(l, 6, Argument::Number(scale))
            &&& gpu::bound(l, 7, Argument::Tensor(Role::Output, Access::Write))
            &&& l.constants.len() == 0
            &&& l.library == LibraryName::KvInt4
            &&& l.kernel == "kv_int4_attend_simd"@
            &&& l.grid.width == 1 && l.grid.height == 1 && l.grid.depth == 1
            &&& l.group.width == d as u64 && l.group.height == 1 && l.group.depth == 1
        }),
{
    let l = attend_launch(t, d, valid, scale);
    assert(l.arguments[0].0 == 0 && l.arguments[1].0 == 1 && l.arguments[2].0 == 2);
    assert(l.arguments[3].0 == 3 && l.arguments[4].0 == 4 && l.arguments[5].0 == 5);
    assert(l.arguments[6].0 == 6 && l.arguments[7].0 == 7);
}

/// A power reads its input at index 0, writes its output at 1 and is told its
/// exponent at 2, with one group for every element. It is launched exactly where
/// input and output are alike in shape and type, and of half or single precision.
pub proof fn law_power_binds_its_tensors<T>(
    tname: Seq<char>,
    exponent: T,
    n: nat,
    input: &DeviceTensor,
    output: &DeviceTensor,
)
    ensures
        ({
            let l = pow_launch(tname, exponent, n);
            &&& l.arguments.len() == 3
            &&& gpu::bound(l, 0, Argument::Tensor(Role::Input, Access::Read))
            &&& gpu::bound(l, 1, Argument::Tensor(Role::Output, Access::Write))
            &&& gpu::bound(l, 2, Argument::Number(exponent))
            &&& l.constants.len() == 0
            &&& l.library == LibraryName::NNOps
            &&& l.kernel == "nn_ops::pow_const_"@ + tname
            &&& l.grid.width == n as u64 && l.grid.height == 1 && l.grid.depth == 1
            &&& l.group.width == 1 && l.group.height == 1 && l.group.depth == 1
        }),
        pow_refusal(input, output) is None <==> {
            &&& output.shape@ == input.shape@
            &&& output.datum_type == input.datum_type
            &&& input.datum_type is F32 || input.datum_type is F16
        },
        output.shape@ != input.shape@ ==> pow_refusal(input, output) == Some(PowError::Shape),
        output.shape@ == input.shape@ && output.datum_type != input.datum_type ==> pow_refusal(
            input,
            output,
        ) == Some(PowError::DatumType),
{
    let l = pow_launch(tname, exponent, n);
    assert(l.arguments[0].0 == 0 && l.arguments[1].0 == 1 && l.arguments[2].0 == 2);
}

} // verus!
