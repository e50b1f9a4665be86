//! Fused attention on a graphics processor: which kernel serves which shapes,
//! and how it is launched.
//!
//! Short queries go to the vector kernels, in one pass, or in two where there
//! are many keys. Everything else goes to the tiled kernel.

use vstd::prelude::*;

use crate::datum::DatumType;
use crate::dims;
use crate::dims::DimLike;
use crate::fact::TypedFact;
use crate::gpu;
use crate::gpu::{
    Access, Argument, AttnParams, Constant, DeviceTensor, Launch, LaunchView, LibraryName, Plan,
    PlanView, Role, RowStrides, Scratch, Size,
};
use crate::graph::SdpaScale;
use crate::kv_sdpa;
use crate::math;
use crate::scalar;
use crate::scalar::Scalar;
use crate::text;

verus! {

/// Why an attention cannot be launched.
#[derive(Clone, Copy, Debug, PartialEq, Eq, Structural)]
pub enum MlxError {
    /// There are not three inputs.
    InputCount,
    /// The element type is neither of half nor of single precision.
    DatumType,
    /// An input is not of rank 4.
    Rank,
    /// Queries, keys and values differ in width.
    HeadDims,
    /// Keys and values differ in heads or length.
    Layout,
    /// The query heads are no multiple of the others.
    Heads,
    /// A tensor has gaps.
    NotContiguous(Role),
    /// There is no kernel for this width and query length.
    NoKernel,
    /// Under a causal mask there are more queries than keys.
    CausalLength,
    /// The scale is no single number.
    Scale,
    /// The width is not known.
    UnknownWidth,
}

/// Whether the vector kernels serve a width.
pub open spec fn vector_dim(d: nat) -> bool {
    d == 64 || d == 96 || d == 128 || d == 256
}

/// Whether the tiled kernel serves a width.
pub open spec fn steel_dim(d: nat) -> bool {
    d == 64 || d == 80 || d == 128
}

/// The number of blocks of keys in the two passes.
pub const TWO_PASS_BLOCKS: i32 = 32;

/// Whether the vector kernels serve a width.
fn is_vector_dim(d: usize) -> (r: bool)
    ensures
        r == vector_dim(d as nat),
{
    d == 64 || d == 96 || d == 128 || d == 256
}

/// Whether the tiled kernel serves a width.
fn is_steel_dim(d: usize) -> (r: bool)
    ensures
        r == steel_dim(d as nat),
{
    d == 64 || d == 80 || d == 128
}

/// Whether the kernels serve an element type.
pub open spec fn served(dt: DatumType) -> bool {
    dt is F32 || dt is F16
}

/// The vector kernels' word for an element type.
pub open spec fn vector_type(dt: DatumType) -> Seq<char> {
    if dt is F32 {
        "float"@
    } else {
        "float16_t"@
    }
}

/// The tiled kernel's word for an element type.
pub open spec fn steel_type(dt: DatumType) -> Seq<char> {
    if dt is F32 {
        "float32"@
    } else {
        "float16"@
    }
}

/// The vector kernels' word for an element type.
pub fn vector_tname(dt: DatumType) -> (r: Result<&'static str, MlxError>)
    ensures
        match r {
            Ok(s) => served(dt) && s@ == vector_type(dt),
            Err(e) => !served(dt) && e == MlxError::DatumType,
        },
{
    match dt {
        DatumType::F32 => Ok("float"),
        DatumType::F16 => Ok("float16_t"),
        _ => Err(MlxError::DatumType),
    }
}

/// The tiled kernel's word for an element type.
pub fn steel_tname(dt: DatumType) -> (r: Result<&'static str, MlxError>)
    ensures
        match r {
            Ok(s) => served(dt) && s@ == steel_type(dt),
            Err(e) => !served(dt) && e == MlxError::DatumType,
        },
{
    match dt {
        DatumType::F32 => Ok("float32"),
        DatumType::F16 => Ok("float16"),
        _ => Err(MlxError::DatumType),
    }
}

/// Refuses a tensor with gaps.
pub fn ensure_natural(t: &DeviceTensor, what: Role) -> (r: Result<(), MlxError>)
    requires
        t.wf(),
    ensures
        r == if t.natural() {
            Ok::<(), MlxError>(())
        } else {
            Err(MlxError::NotContiguous(what))
        },
{
    if gpu::is_natural(t) {
        Ok(())
    } else {
        Err(MlxError::NotContiguous(what))
    }
}

/// The extents of an attention: batches, query heads, other heads, queries,
/// keys, and width.
#[derive(Clone, Copy, Debug, PartialEq, Eq, Structural)]
pub struct Extents {
    pub b: usize,
    pub hq: usize,
    pub hkv: usize,
    pub ql: usize,
    pub kl: usize,
    pub d: usize,
}

impl Extents {
    /// Whether launches over these extents can be counted.
    pub open spec fn countable(self) -> bool {
        &&& self.hkv > 0
        &&& self.b * self.hq <= usize::MAX
        &&& self.hq * 8 <= usize::MAX
    }
}

/// The constants of the vector kernels.
pub open spec fn vector_constants(do_causal: bool) -> Seq<(u32, Constant)> {
    seq![
        (20u32, Constant::Bool(false)),
        (21u32, Constant::Bool(false)),
        (22u32, Constant::Bool(do_causal)),
        (23u32, Constant::Bool(false)),
        (24u32, Constant::Bool(false)),
        (25u32, Constant::Bool(false)),
    ]
}

/// The constants of the vector kernels: no mask but the causal one, queries as
/// they come, and no sinks.
fn vector_constants_of(do_causal: bool) -> (r: Vec<(u32, Constant)>)
    ensures
        r@ == vector_constants(do_causal),
{
    let r = vec![
        (20u32, Constant::Bool(false)),
        (21u32, Constant::Bool(false)),
        (22u32, Constant::Bool(do_causal)),
        (23u32, Constant::Bool(false)),
        (24u32, Constant::Bool(false)),
        (25u32, Constant::Bool(false)),
    ];
    assert(r@ =~= vector_constants(do_causal));
    r
}

/// The name of a kernel: a stem, an element type and the width, twice.
pub open spec fn vector_kernel(stem: Seq<char>, dt: DatumType, d: nat) -> Seq<char> {
    stem + vector_type(dt) + "_"@ + text::decimal(d) + "_"@ + text::decimal(d)
}

/// The launch of the vector kernel in one pass.
pub open spec fn vector_launch<T>(
    dt: DatumType,
    scale: T,
    do_causal: bool,
    x: Extents,
    k: Seq<isize>,
    v: Seq<isize>,
) -> LaunchView<T> {
    LaunchView {
        library: LibraryName::MlxSdpa,
        kernel: vector_kernel("sdpa_vector_"@, dt, x.d as nat),
        constants: vector_constants(do_causal),
        arguments: seq![
            (0u32, Argument::Tensor(Role::Q, Access::Read)),
            (1u32, Argument::Tensor(Role::K, Access::Read)),
            (2u32, Argument::Tensor(Role::V, Access::Read)),
            (3u32, Argument::Tensor(Role::Output, Access::Write)),
            (4u32, Argument::I32((x.hq / x.hkv) as i32)),
            (5u32, Argument::I32(x.kl as i32)),
            (6u32, Argument::U64(k[1] as u64)),
            (7u32, Argument::U64(k[2] as u64)),
            (8u32, Argument::U64(v[1] as u64)),
            (9u32, Argument::U64(v[2] as u64)),
            (10u32, Argument::Number(scale)),
        ],
        grid: Size { width: (x.b * x.hq) as u64, height: x.ql as u64, depth: 1 },
        group: Size { width: 1024, height: 1, depth: 1 },
    }
}

/// Plans the vector kernel in one pass: one group per query row.
pub fn dispatch_sdpa_vector_1pass<T: Scalar>(
    dt: DatumType,
    scale: T,
    do_causal: bool,
    x: Extents,
    k: &DeviceTensor,
    v: &DeviceTensor,
) -> (r: Result<Plan<T>, MlxError>)
    requires
        x.countable(),
        k.strides@.len() == 4,
        v.strides@.len() == 4,
    ensures
        !served(dt) ==> r == Err::<Plan<T>, MlxError>(MlxError::DatumType),
        served(dt) ==> r is Ok && r->Ok_0@ == (PlanView {
            scratch: Seq::empty(),
            launches: seq![vector_launch(dt, scale, do_causal, x, k.strides@, v.strides@)],
        }),
{
    let tname = match vector_tname(dt) {
        Ok(s) => s,
        Err(e) => return Err(e),
    };
    let mut kernel = text::joined("sdpa_vector_", tname);
    kernel.append("_");
    text::push_decimal(&mut kernel, x.d);
    kernel.append("_");
    text::push_decimal(&mut kernel, x.d);
    let ghost want = vector_launch(dt, scale, do_causal, x, k.strides@, v.strides@);
    let launch = Launch {
        library: LibraryName::MlxSdpa,
        kernel,
        constants: vector_constants_of(do_causal),
        arguments: vec![
            (0u32, Argument::Tensor(Role::Q, Access::Read)),
            (1u32, Argument::Tensor(Role::K, Access::Read)),
            (2u32, Argument::Tensor(Role::V, Access::Read)),
            (3u32, Argument::Tensor(Role::Output, Access::Write)),
            (4u32, Argument::I32((x.hq / x.hkv) as i32)),
            (5u32, Argument::I32(x.kl as i32)),
            (6u32, Argument::U64(k.strides[1] as u64)),
            (7u32, Argument::U64(k.strides[2] as u64)),
            (8u32, Argument::U64(v.strides[1] as u64)),
            (9u32, Argument::U64(v.strides[2] as u64)),
            (10u32, Argument::Number(scale)),
        ],
        grid: Size { width: (x.b * x.hq) as u64, height: x.ql as u64, depth: 1 },
        group: Size { width: 1024, height: 1, depth: 1 },
    };
    assert(launch@.kernel =~= want.kernel);
    assert(launch@.arguments =~= want.arguments);
    assert(launch@ =~= want);
    let r = Plan { scratch: Vec::new(), launches: vec![launch] };
    assert(r@ =~= PlanView { scratch: Seq::empty(), launches: seq![want] });
    Ok(r)
}

/// The tensors between the two passes: partial outputs, sums and maxima of
/// every block of keys.
pub open spec fn two_pass_scratch(dt: DatumType, x: Extents) -> Seq<
    (Role, DatumType, Seq<usize>),
> {
    seq![
        (Role::Partials, dt, seq![x.b, x.hq, x.ql, 32usize, x.d]),
        (Role::Sums, DatumType::F32, seq![x.b, x.hq, x.ql, 32usize]),
        (Role::Maxs, DatumType::F32, seq![x.b, x.hq, x.ql, 32usize]),
    ]
}

/// The launch of the first pass: blocks of keys, one group each.
pub open spec fn first_pass<T>(
    dt: DatumType,
    scale: T,
    do_causal: bool,
    x: Extents,
    k: Seq<isize>,
    v: Seq<isize>,
) -> LaunchView<T> {
    LaunchView {
        library: LibraryName::MlxSdpa,
        kernel: vector_kernel("sdpa_vector_2pass_1_"@, dt, x.d as nat),
        constants: vector_constants(do_causal).push((26u32, Constant::I32(TWO_PASS_BLOCKS))),
        arguments: seq![
            (0u32, Argument::Tensor(Role::Q, Access::Read)),
            (1u32, Argument::Tensor(Role::K, Access::Read)),
            (2u32, Argument::Tensor(Role::V, Access::Read)),
            (3u32, Argument::Tensor(Role::Partials, Access::Write)),
            (4u32, Argument::Tensor(Role::Sums, Access::Write)),
            (5u32, Argument::Tensor(Role::Maxs, Access::Write)),
            (7u32, Argument::I32(x.kl as i32)),
            (8u32, Argument::U64(k[1] as u64)),
            (9u32, Argument::U64(k[2] as u64)),
            (10u32, Argument::U64(v[1] as u64)),
            (11u32, Argument::U64(v[2] as u64)),
            (12u32, Argument::Number(scale)),
        ],
        grid: Size { width: x.hkv as u64, height: x.b as u64, depth: 32 },
        group: Size { width: 32, height: (x.hq / x.hkv) as u64, depth: x.ql as u64 },
    }
}

/// The launch of the second pass: the blocks are combined.
pub open spec fn second_pass<T>(dt: DatumType, x: Extents) -> LaunchView<T> {
    LaunchView {
        library: LibraryName::MlxSdpa,
        kernel: "sdpa_vector_2pass_2_"@ + vector_type(dt) + "_"@ + text::decimal(x.d as nat),
        constants: Seq::empty(),
        arguments: seq![
            (0u32, Argument::Tensor(Role::Partials, Access::Read)),
            (1u32, Argument::Tensor(Role::Sums, Access::Read)),
            (2u32, Argument::Tensor(Role::Maxs, Access::Read)),
            (3u32, Argument::Tensor(Role::Output, Access::Write)),
            (4u32, Argument::I32(TWO_PASS_BLOCKS)),
        ],
        grid: Size { width: (x.b * x.hq) as u64, height: x.ql as u64, depth: 1 },
        group: Size { width: 1024, height: 1, depth: 1 },
    }
}

/// Plans the vector kernels in two passes: blocks of keys first, which are then
/// combined.
pub fn dispatch_sdpa_vector_2pass<T: Scalar>(
    dt: DatumType,
    scale: T,
    do_causal: bool,
    x: Extents,
    k: &DeviceTensor,
    v: &DeviceTensor,
) -> (r: Result<Plan<T>, MlxError>)
    requires
        x.countable(),
        k.strides@.len() == 4,
        v.strides@.len() == 4,
    ensures
        !served(dt) ==> r == Err::<Plan<T>, MlxError>(MlxError::DatumType),
        served(dt) ==> r is Ok && r->Ok_0@ == (PlanView {
            scratch: two_pass_scratch(dt, x),
            launches: seq![
                first_pass(dt, scale, do_causal, x, k.strides@, v.strides@),
                second_pass(dt, x),
            ],
        }),
{
    let tname = match vector_tname(dt) {
        Ok(s) => s,
        Err(e) => return Err(e),
    };
    let partials = Scratch {
        role: Role::Partials,
        datum_type: dt,
        shape: vec![x.b, x.hq, x.ql, 32usize, x.d],
    };
    let sums = Scratch {
        role: Role::Sums,
        datum_type: DatumType::F32,
        shape: vec![x.b, x.hq, x.ql, 32usize],
    };
    let maxs = Scratch {
        role: Role::Maxs,
        datum_type: DatumType::F32,
        shape: vec![x.b, x.hq, x.ql, 32usize],
    };
    assert(partials.shape@ =~= seq![x.b, x.hq, x.ql, 32usize, x.d]);
    assert(sums.shape@ =~= seq![x.b, x.hq, x.ql, 32usize]);
    assert(maxs.shape@ =~= seq![x.b, x.hq, x.ql, 32usize]);
    let mut kernel = text::joined("sdpa_vector_2pass_1_", tname);
    kernel.append("_");
    text::push_decimal(&mut kernel, x.d);
    kernel.append("_");
    text::push_decimal(&mut kernel, x.d);
    let mut constants = vector_constants_of(do_causal);
    constants.push((26u32, Constant::I32(TWO_PASS_BLOCKS)));
    let first = Launch {
        library: LibraryName::MlxSdpa,
        kernel,
        constants,
        arguments: vec![
            (0u32, Argument::Tensor(Role::Q, Access::Read)),
            (1u32, Argument::Tensor(Role::K, Access::Read)),
            (2u32, Argument::Tensor(Role::V, Access::Read)),
            (3u32, Argument::Tensor(Role::Partials, Access::Write)),
            (4u32, Argument::Tensor(Role::Sums, Access::Write)),
            (5u32, Argument::Tensor(Role::Maxs, Access::Write)),
            (7u32, Argument::I32(x.kl as i32)),
            (8u32, Argument::U64(k.strides[1] as u64)),
            (9u32, Argument::U64(k.strides[2] as u64)),
            (10u32, Argument::U64(v.strides[1] as u64)),
            (11u32, Argument::U64(v.strides[2] as u64)),
            (12u32, Argument::Number(scale)),
        ],
        grid: Size { width: x.hkv as u64, height: x.b as u64, depth: 32 },
        group: Size { width: 32, height: (x.hq / x.hkv) as u64, depth: x.ql as u64 },
    };
    let mut kernel = text::joined("sdpa_vector_2pass_2_", tname);
    kernel.append("_");
    text::push_decimal(&mut kernel, x.d);
    let second = Launch {
        library: LibraryName::MlxSdpa,
        kernel,
        constants: Vec::new(),
        arguments: vec![
            (0u32, Argument::Tensor(Role::Partials, Access::Read)),
            (1u32, Argument::Tensor(Role::Sums, Access::Read)),
            (2u32, Argument::Tensor(Role::Maxs, Access::Read)),
            (3u32, Argument::Tensor(Role::Output, Access::Write)),
            (4u32, Argument::I32(TWO_PASS_BLOCKS)),
        ],
        grid: Size { width: (x.b * x.hq) as u64, height: x.ql as u64, depth: 1 },
        group: Size { width: 1024, height: 1, depth: 1 },
    };
    let ghost want1 = first_pass(dt, scale, do_causal, x, k.strides@, v.strides@);
    let ghost want2 = second_pass::<T>(dt, x);
    assert(first@.kernel =~= want1.kernel);
    assert(first@.arguments =~= want1.arguments);
    assert(first@ =~= want1);
    assert(second@.kernel =~= want2.kernel);
    assert(second@.arguments =~= want2.arguments);
    assert(second@.constants =~= want2.constants);
    assert(second@ =~= want2);
    let r = Plan { scratch: vec![partials, sums, maxs], launches: vec![first, second] };
    assert(r@.scratch =~= two_pass_scratch(dt, x));
    assert(r@.launches =~= seq![want1, want2]);
    Ok(r)
}

/// The number of keys in a tile.
pub open spec fn tile_keys(d: nat) -> nat {
    if d < 128 {
        32
    } else {
        16
    }
}

/// How far apart batches, heads and rows lie.
pub open spec fn row_strides(s: Seq<isize>) -> RowStrides {
    RowStrides { batch: s[0] as i64, head: s[1] as i64, row: s[2] as i64 }
}

fn row_strides_of(t: &DeviceTensor) -> (r: RowStrides)
    requires
        t.strides@.len() >= 3,
    ensures
        r == row_strides(t.strides@),
{
    RowStrides {
        batch: t.strides[0] as i64,
        head: t.strides[1] as i64,
        row: t.strides[2] as i64,
    }
}

/// The parameters of the tiled kernel. Queries stand at the end of the keys.
pub open spec fn steel_params<T>(
    scale: T,
    x: Extents,
    q: Seq<isize>,
    k: Seq<isize>,
    v: Seq<isize>,
    o: Seq<isize>,
) -> AttnParams<T> {
    let bk = tile_keys(x.d as nat);
    AttnParams {
        b: x.b as i32,
        h: x.hq as i32,
        d: x.d as i32,
        ql: x.ql as i32,
        kl: x.kl as i32,
        gqa_factor: (x.hq / x.hkv) as i32,
        scale,
        nq: math::ceil_div(x.ql as nat, 32) as i32,
        nk: math::ceil_div(x.kl as nat, bk) as i32,
        nq_aligned: (x.ql as nat / 32) as i32,
        nk_aligned: (x.kl as nat / bk) as i32,
        ql_rem: (x.ql as nat % 32) as i32,
        kl_rem: (x.kl as nat % bk) as i32,
        ql_off: (if x.kl > x.ql {
            x.kl - x.ql
        } else {
            0
        }) as i32,
        q_strides: row_strides(q),
        k_strides: row_strides(k),
        v_strides: row_strides(v),
        o_strides: row_strides(o),
    }
}

/// The name of the tiled kernel.
pub open spec fn steel_kernel(dt: DatumType, d: nat) -> Seq<char> {
    "steel_attention_"@ + steel_type(dt) + "_bq32_bk"@ + text::decimal(tile_keys(d)) + "_bd"@
        + text::decimal(d) + "_wm4_wn1_mask"@ + steel_type(dt)
}

/// The launch of the tiled kernel.
pub open spec fn steel_launch<T>(
    dt: DatumType,
    scale: T,
    do_causal: bool,
    x: Extents,
    q: Seq<isize>,
    k: Seq<isize>,
    v: Seq<isize>,
    o: Seq<isize>,
) -> LaunchView<T> {
    let bk = tile_keys(x.d as nat);
    LaunchView {
        library: LibraryName::MlxSdpa,
        kernel: steel_kernel(dt, x.d as nat),
        constants: seq![
            (200u32, Constant::Bool(x.ql as nat % 32 == 0)),
            (201u32, Constant::Bool(x.kl as nat % bk == 0)),
            (300u32, Constant::Bool(false)),
            (301u32, Constant::Bool(do_causal)),
            (302u32, Constant::Bool(false)),
        ],
        arguments: seq![
            (0u32, Argument::Tensor(Role::Q, Access::Read)),
            (1u32, Argument::Tensor(Role::K, Access::Read)),
            (2u32, Argument::Tensor(Role::V, Access::Read)),
            (3u32, Argument::Tensor(Role::Output, Access::Write)),
            (4u32, Argument::Attn(steel_params(scale, x, q, k, v, o))),
        ],
        grid: Size {
            width: math::ceil_div(x.ql as nat, 32) as u64,
            height: x.hq as u64,
            depth: x.b as u64,
        },
        group: Size { width: 32, height: 4, depth: 1 },
    }
}

/// Plans the tiled kernel: one group per tile of queries, head and batch.
pub fn dispatch_steel_attention<T: Scalar>(
    dt: DatumType,
    scale: T,
    do_causal: bool,
    x: Extents,
    q: &DeviceTensor,
    k: &DeviceTensor,
    v: &DeviceTensor,
    out: &DeviceTensor,
) -> (r: Result<Plan<T>, MlxError>)
    requires
        x.countable(),
        q.strides@.len() >= 3,
        k.strides@.len() >= 3,
        v.strides@.len() >= 3,
        out.strides@.len() >= 3,
    ensures
        !served(dt) ==> r == Err::<Plan<T>, MlxError>(MlxError::DatumType),
        served(dt) ==> r is Ok && r->Ok_0@ == (PlanView {
            scratch: Seq::empty(),
            launches: seq![
                steel_launch(
                    dt,
                    scale,
                    do_causal,
                    x,
                    q.strides@,
                    k.strides@,
                    v.strides@,
                    out.strides@,
                ),
            ],
        }),
{
    let bk: usize = if x.d < 128 { 32 } else { 16 };
    let tname = match steel_tname(dt) {
        Ok(s) => s,
        Err(e) => return Err(e),
    };
    let mut kernel = text::joined("steel_attention_", tname);
    kernel.append("_bq32_bk");
    text::push_decimal(&mut kernel, bk);
    kernel.append("_bd");
    text::push_decimal(&mut kernel, x.d);
    kernel.append("_wm4_wn1_mask");
    kernel.append(tname);
    let nq: usize = math::div_ceil(x.ql, 32);
    let nk: usize = math::div_ceil(x.kl, bk);
    let off: usize = if x.kl > x.ql { x.kl - x.ql } else { 0 };
    let params = AttnParams {
        b: x.b as i32,
        h: x.hq as i32,
        d: x.d as i32,
        ql: x.ql as i32,
        kl: x.kl as i32,
        gqa_factor: (x.hq / x.hkv) as i32,
        scale,
        nq: nq as i32,
        nk: nk as i32,
        nq_aligned: (x.ql / 32) as i32,
        nk_aligned: (x.kl / bk) as i32,
        ql_rem: (x.ql % 32) as i32,
        kl_rem: (x.kl % bk) as i32,
        ql_off: off as i32,
        q_strides: row_strides_of(q),
        k_strides: row_strides_of(k),
        v_strides: row_strides_of(v),
        o_strides: row_strides_of(out),
    };
    let launch = Launch {
        library: LibraryName::MlxSdpa,
        kernel,
        constants: vec![
            (200u32, Constant::Bool(x.ql % 32 == 0)),
            (201u32, Constant::Bool(x.kl % bk == 0)),
            (300u32, Constant::Bool(false)),
            (301u32, Constant::Bool(do_causal)),
            (302u32, Constant::Bool(false)),
        ],
        arguments: vec![
            (0u32, Argument::Tensor(Role::Q, Access::Read)),
            (1u32, Argument::Tensor(Role::K, Access::Read)),
            (2u32, Argument::Tensor(Role::V, Access::Read)),
            (3u32, Argument::Tensor(Role::Output, Access::Write)),
            (4u32, Argument::Attn(params)),
        ],
        grid: Size { width: nq as u64, height: x.hq as u64, depth: x.b as u64 },
        group: Size { width: 32, height: 4, depth: 1 },
    };
    let ghost want = steel_launch(
        dt,
        scale,
        do_causal,
        x,
        q.strides@,
        k.strides@,
        v.strides@,
        out.strides@,
    );
    assert(launch@.kernel =~= want.kernel);
    assert(launch@.constants =~= want.constants);
    assert(params == steel_params(scale, x, q.strides@, k.strides@, v.strides@, out.strides@));
    assert(launch@.arguments =~= want.arguments);
    assert(launch@ =~= want);
    let r = Plan { scratch: Vec::new(), launches: vec![launch] };
    assert(r@ =~= PlanView { scratch: Seq::empty(), launches: seq![want] });
    Ok(r)
}

/// The extents of an attention over `[batch, heads, rows, width]`.
pub open spec fn extents(q: &DeviceTensor, k: &DeviceTensor) -> Extents {
    Extents {
        b: q.shape@[0],
        hq: q.shape@[1],
        hkv: k.shape@[1],
        ql: q.shape@[2],
        kl: k.shape@[2],
        d: q.shape@[3],
    }
}

/// Whether the vector kernels serve these extents: a few queries, no more than
/// there are keys, and no more query rows per head than a group takes.
pub open spec fn takes_vector(x: Extents) -> bool {
    vector_dim(x.d as nat) && x.ql <= 8 && x.ql <= x.kl && x.ql * (x.hq / x.hkv) <= 32
}

/// What an attention is refused for before a kernel is chosen, if anything.
pub open spec fn shape_refusal(
    q: &DeviceTensor,
    k: &DeviceTensor,
    v: &DeviceTensor,
    out: &DeviceTensor,
) -> Option<MlxError> {
    if !served(q.datum_type) {
        Some(MlxError::DatumType)
    } else if q.shape@.len() != 4 || k.shape@.len() != 4 || v.shape@.len() != 4 {
        Some(MlxError::Rank)
    } else if k.shape@[3] != q.shape@[3] || v.shape@[3] != q.shape@[3] {
        Some(MlxError::HeadDims)
    } else if v.shape@[1] != k.shape@[1] || v.shape@[2] != k.shape@[2] {
        Some(MlxError::Layout)
    } else if q.shape@[1] as int % k.shape@[1] as int != 0 {
        Some(MlxError::Heads)
    } else if !q.natural() {
        Some(MlxError::NotContiguous(Role::Q))
    } else if !k.natural() {
        Some(MlxError::NotContiguous(Role::K))
    } else if !v.natural() {
        Some(MlxError::NotContiguous(Role::V))
    } else if !out.natural() {
        Some(MlxError::NotContiguous(Role::Output))
    } else {
        None
    }
}

/// What extents are refused for, if anything.
pub open spec fn kernel_refusal(x: Extents, is_causal: bool) -> Option<MlxError> {
    if takes_vector(x) {
        None
    } else if !steel_dim(x.d as nat) {
        Some(MlxError::NoKernel)
    } else if is_causal && x.ql > x.kl {
        Some(MlxError::CausalLength)
    } else {
        None
    }
}

/// What an attention is refused for, if anything.
pub open spec fn refusal(
    is_causal: bool,
    q: &DeviceTensor,
    k: &DeviceTensor,
    v: &DeviceTensor,
    out: &DeviceTensor,
) -> Option<MlxError> {
    match shape_refusal(q, k, v, out) {
        Some(e) => Some(e),
        None => kernel_refusal(extents(q, k), is_causal),
    }
}

/// The plan of an attention that is not refused. The causal mask says nothing
/// to a single query, and the vector kernels then go without.
pub open spec fn plan<T>(
    scale: T,
    is_causal: bool,
    q: &DeviceTensor,
    k: &DeviceTensor,
    v: &DeviceTensor,
    out: &DeviceTensor,
) -> PlanView<T> {
    let x = extents(q, k);
    let dt = q.datum_type;
    if takes_vector(x) {
        let do_causal = is_causal && x.ql > 1;
        if x.kl >= 1024 {
            PlanView {
                scratch: two_pass_scratch(dt, x),
                launches: seq![
                    first_pass(dt, scale, do_causal, x, k.strides@, v.strides@),
                    second_pass(dt, x),
                ],
            }
        } else {
            PlanView {
                scratch: Seq::empty(),
                launches: seq![vector_launch(dt, scale, do_causal, x, k.strides@, v.strides@)],
            }
        }
    } else {
        PlanView {
            scratch: Seq::empty(),
            launches: seq![
                steel_launch(
                    dt,
                    scale,
                    is_causal,
                    x,
                    q.strides@,
                    k.strides@,
                    v.strides@,
                    out.strides@,
                ),
            ],
        }
    }
}

/// Whether queries, keys and values are of a type that is served, and fit each
/// other but for the number of heads.
pub open spec fn fitting(q: &DeviceTensor, k: &DeviceTensor, v: &DeviceTensor) -> bool {
    &&& served(q.datum_type)
    &&& q.shape@.len() == 4 && k.shape@.len() == 4 && v.shape@.len() == 4
    &&& k.shape@[3] == q.shape@[3] && v.shape@[3] == q.shape@[3]
    &&& v.shape@[1] == k.shape@[1] && v.shape@[2] == k.shape@[2]
}

/// Whether the tensors can be looked at: where they fit, there are heads of
/// keys, launches can be counted, and the tiled kernel finds rows to write.
pub open spec fn planable(
    q: &DeviceTensor,
    k: &DeviceTensor,
    v: &DeviceTensor,
    out: &DeviceTensor,
) -> bool {
    &&& q.wf()
    &&& k.wf()
    &&& v.wf()
    &&& out.wf()
    &&& fitting(q, k, v) ==> {
        &&& extents(q, k).countable()
        &&& !takes_vector(extents(q, k)) ==> out.shape@.len() >= 3
    }
}

/// Plans an attention of queries `[batch, heads, rows, width]` over keys and
/// values, which may have fewer heads.
pub fn dispatch_mlx_sdpa<T: Scalar>(
    scale: T,
    is_causal: bool,
    q: &DeviceTensor,
    k: &DeviceTensor,
    v: &DeviceTensor,
    out: &DeviceTensor,
) -> (r: Result<Plan<T>, MlxError>)
    requires
        planable(q, k, v, out),
    ensures
        match refusal(is_causal, q, k, v, out) {
            Some(e) => r == Err::<Plan<T>, MlxError>(e),
            None => r is Ok && r->Ok_0@ == plan(scale, is_causal, q, k, v, out),
        },
{
    let dt: DatumType = q.datum_type;
    let known: bool = match dt {
        DatumType::F32 | DatumType::F16 => true,
        _ => false,
    };
    if !known {
        return Err(MlxError::DatumType);
    }
    if q.shape.len() != 4 || k.shape.len() != 4 || v.shape.len() != 4 {
        return Err(MlxError::Rank);
    }
    let x = Extents {
        b: q.shape[0],
        hq: q.shape[1],
        hkv: k.shape[1],
        ql: q.shape[2],
        kl: k.shape[2],
        d: q.shape[3],
    };
    if k.shape[3] != x.d || v.shape[3] != x.d {
        return Err(MlxError::HeadDims);
    }
    if v.shape[1] != x.hkv || v.shape[2] != x.kl {
        return Err(MlxError::Layout);
    }
    if x.hq % x.hkv != 0 {
        return Err(MlxError::Heads);
    }
    if let Err(e) = ensure_natural(q, Role::Q) {
        return Err(e);
    }
    if let Err(e) = ensure_natural(k, Role::K) {
        return Err(e);
    }
    if let Err(e) = ensure_natural(v, Role::V) {
        return Err(e);
    }
    if let Err(e) = ensure_natural(out, Role::Output) {
        return Err(e);
    }
    let gqa_factor: usize = x.hq / x.hkv;
    proof {
        lemma_group_fits(x);
    }
    if is_vector_dim(x.d) && x.ql <= 8 && x.ql <= x.kl && x.ql * gqa_factor <= 32 {
        let do_causal: bool = is_causal && x.ql > 1;
        if x.kl >= 1024 {
            dispatch_sdpa_vector_2pass(dt, scale, do_causal, x, k, v)
        } else {
            dispatch_sdpa_vector_1pass(dt, scale, do_causal, x, k, v)
        }
    } else {
        if !is_steel_dim(x.d) {
            return Err(MlxError::NoKernel);
        }
        if is_causal && x.ql > x.kl {
            return Err(MlxError::CausalLength);
        }
        dispatch_steel_attention(dt, scale, is_causal, x, q, k, v, out)
    }
}

/// A few rows for every query head of a group can be counted.
proof fn lemma_group_fits(x: Extents)
    requires
        x.countable(),
    ensures
        x.ql <= 8 ==> x.ql * (x.hq / x.hkv) <= usize::MAX,
{
    if x.ql <= 8 {
        let g = (x.hq / x.hkv) as int;
        assert(g <= x.hq) by (nonlinear_arith)
            requires
                g == x.hq as int / x.hkv as int,
                x.hkv > 0,
        ;
        assert(x.ql * g <= 8 * x.hq) by (nonlinear_arith)
            requires
                0 <= x.ql <= 8,
                0 <= g <= x.hq,
        ;
    }
}

/// Attention on the device.
#[derive(Debug, Clone, Copy)]
pub struct MetalMlxSdpa<T> {
    pub scale: T,
    pub is_causal: bool,
}

impl<T: Scalar> MetalMlxSdpa<T> {
    /// Whether two operators are the same, their scales compared by bit pattern.
    pub fn same(&self, other: &Self) -> (r: bool)
        requires
            scalar::lawful::<T>(),
        ensures
            r == (self.scale.to_bits_spec() == other.scale.to_bits_spec() && self.is_causal
                == other.is_causal),
    {
        scalar::to_bits(self.scale) == scalar::to_bits(other.scale) && self.is_causal
            == other.is_causal
    }

    /// What an operator is told apart by.
    pub fn hash_key(&self) -> (r: (u32, bool))
        requires
            scalar::lawful::<T>(),
        ensures
            r == (self.scale.to_bits_spec(), self.is_causal),
    {
        (scalar::to_bits(self.scale), self.is_causal)
    }

    /// The operator's name.
    pub fn name(&self) -> (r: &'static str)
        ensures
            r@ == "MetalMlxSdpa"@,
    {
        "MetalMlxSdpa"
    }

    /// One line about the operator, given the scale in words.
    pub fn info(&self, scale: &str) -> (r: Vec<String>)
        ensures
            r@.len() == 1,
            r@[0]@ == "scale="@ + scale@ + " causal="@ + text::truth(self.is_causal),
    {
        let mut s = text::joined("scale=", scale);
        s.append(" causal=");
        text::push_truth(&mut s, self.is_causal);
        let mut r: Vec<String> = Vec::new();
        r.push(s);
        r
    }

    /// The result depends on the inputs alone.
    pub fn is_stateless(&self) -> (r: bool)
        ensures
            r,
    {
        true
    }

    /// Plans the attention of three inputs into `out`, which is like the
    /// queries.
    pub fn eval_with_session(&self, inputs: &[DeviceTensor], out: &DeviceTensor) -> (r: Result<
        Plan<T>,
        MlxError,
    >)
        requires
            inputs@.len() == 3 && inputs@[0].shape@.len() == 4 ==> planable(
                &inputs@[0],
                &inputs@[1],
                &inputs@[2],
                out,
            ),
        ensures
            inputs@.len() != 3 ==> r == Err::<Plan<T>, MlxError>(MlxError::InputCount),
            inputs@.len() == 3 && inputs@[0].shape@.len() != 4 ==> r == Err::<Plan<T>, MlxError>(
                MlxError::Rank,
            ),
            inputs@.len() == 3 && inputs@[0].shape@.len() == 4 ==> match refusal(
                self.is_causal,
                &inputs@[0],
                &inputs@[1],
                &inputs@[2],
                out,
            ) {
                Some(e) => r == Err::<Plan<T>, MlxError>(e),
                None => r is Ok && r->Ok_0@ == plan(
                    self.scale,
                    self.is_causal,
                    &inputs@[0],
                    &inputs@[1],
                    &inputs@[2],
                    out,
                ),
            },
    {
        if inputs.len() != 3 {
            return Err(MlxError::InputCount);
        }
        if inputs[0].shape.len() != 4 {
            return Err(MlxError::Rank);
        }
        dispatch_mlx_sdpa(self.scale, self.is_causal, &inputs[0], &inputs[1], &inputs[2], out)
    }

    /// The output is like the queries.
    pub fn output_facts<D: DimLike>(&self, inputs: &[&TypedFact<D>]) -> (r: TypedFact<D>)
        requires
            dims::lawful::<D>(),
            inputs@.len() >= 1,
        ensures
            r@ == inputs@[0]@,
    {
        inputs[0].duplicate()
    }
}

/// Whether an attention can be fused, going by what is known of its inputs:
/// queries, keys and values and no mask, of a type and rank that is served,
/// with heads and widths that are known and fit each other. Widths that the
/// tiled kernel serves do for any length. The others need lengths that are
/// known to be for the vector kernels.
pub open spec fn supported<D: DimLike>(acc: DatumType, facts: Seq<&TypedFact<D>>) -> bool {
    let (q, k, v) = (facts[0], facts[1], facts[2]);
    &&& facts.len() == 3
    &&& served(q.datum_type)
    &&& acc.float()
    &&& q.shape@.len() == 4 && k.shape@.len() == 4 && v.shape@.len() == 4
    &&& match (
        q.shape@[1].to_usize_spec(),
        k.shape@[1].to_usize_spec(),
        v.shape@[1].to_usize_spec(),
    ) {
        (Some(qh), Some(kh), Some(vh)) => {
            &&& kh == vh
            &&& qh as int % kh as int == 0
            &&& match (
                q.shape@[3].to_usize_spec(),
                k.shape@[3].to_usize_spec(),
                v.shape@[3].to_usize_spec(),
            ) {
                (Some(qd), Some(kd), Some(vd)) => {
                    &&& qd == kd
                    &&& qd == vd
                    &&& steel_dim(qd as nat) || (vector_dim(qd as nat) && match (
                        q.shape@[2].to_usize_spec(),
                        k.shape@[2].to_usize_spec(),
                    ) {
                        (Some(ql), Some(kl)) => ql <= 8 && ql <= kl && ql * (qh / kh) <= 32,
                        _ => false,
                    })
                },
                _ => false,
            }
        },
        _ => false,
    }
}

/// Whether the numbers of heads can be divided and multiplied, where it comes
/// to that.
pub open spec fn divisible<D: DimLike>(acc: DatumType, facts: Seq<&TypedFact<D>>) -> bool {
    let (q, k, v) = (facts[0], facts[1], facts[2]);
    facts.len() == 3 && served(q.datum_type) && acc.float() && q.shape@.len() == 4
        && k.shape@.len() == 4 && v.shape@.len() == 4 ==> match (
        q.shape@[1].to_usize_spec(),
        k.shape@[1].to_usize_spec(),
        v.shape@[1].to_usize_spec(),
    ) {
        (Some(qh), Some(kh), Some(vh)) => kh == vh ==> kh > 0 && qh * 8 <= usize::MAX,
        _ => true,
    }
}

/// Whether an attention that accumulates in `acc` can be fused.
pub fn mlx_sdpa_supported<D: DimLike>(acc: DatumType, in_facts: &[&TypedFact<D>]) -> (r: bool)
    requires
        dims::lawful::<D>(),
        divisible(acc, in_facts@),
    ensures
        r == supported(acc, in_facts@),
{
    if in_facts.len() != 3 {
        return false;
    }
    let (q, k, v) = (in_facts[0], in_facts[1], in_facts[2]);
    let known: bool = match q.datum_type {
        DatumType::F32 | DatumType::F16 => true,
        _ => false,
    };
    if !known || !acc.is_float() {
        return false;
    }
    if q.shape.len() != 4 || k.shape.len() != 4 || v.shape.len() != 4 {
        return false;
    }
    let (qh, kh, vh): (usize, usize, usize) = match (
        dims::to_usize(&q.shape[1]),
        dims::to_usize(&k.shape[1]),
        dims::to_usize(&v.shape[1]),
    ) {
        (Some(qh), Some(kh), Some(vh)) => (qh, kh, vh),
        _ => return false,
    };
    if kh != vh || qh % kh != 0 {
        return false;
    }
    let (qd, kd, vd): (usize, usize, usize) = match (
        dims::to_usize(&q.shape[3]),
        dims::to_usize(&k.shape[3]),
        dims::to_usize(&v.shape[3]),
    ) {
        (Some(qd), Some(kd), Some(vd)) => (qd, kd, vd),
        _ => return false,
    };
    if qd != kd || qd != vd {
        return false;
    }
    if is_steel_dim(qd) {
        return true;
    }
    if is_vector_dim(qd) {
        let (ql, kl): (usize, usize) = match (
            dims::to_usize(&q.shape[2]),
            dims::to_usize(&k.shape[2]),
        ) {
            (Some(ql), Some(kl)) => (ql, kl),
            _ => return false,
        };
        proof {
            let x = Extents { b: 0, hq: qh, hkv: kh, ql, kl, d: qd };
            assert(x.b * x.hq == 0) by (nonlinear_arith)
                requires
                    x.b == 0,
            ;
            lemma_group_fits(x);
        }
        return ql <= 8 && ql <= kl && ql * (qh / kh) <= 32;
    }
    false
}

/// Whether a tensor is what was known of it.
pub open spec fn agrees<D: DimLike>(t: &DeviceTensor, fact: &TypedFact<D>) -> bool {
    &&& t.datum_type == fact.datum_type
    &&& t.shape@.len() == fact.shape@.len()
    &&& forall|i: int|
        0 <= i < t.shape@.len() ==> match (#[trigger] fact.shape@[i]).to_usize_spec() {
            Some(n) => t.shape@[i] == n,
            None => true,
        }
}

/// What is supported is not refused: where the tensors are what was known of
/// them, have no gaps, keys are as many as values, and a causal mask finds no
/// fewer keys than queries, there is a kernel.
pub proof fn law_supported_is_not_refused<D: DimLike>(
    acc: DatumType,
    facts: Seq<&TypedFact<D>>,
    is_causal: bool,
    q: &DeviceTensor,
    k: &DeviceTensor,
    v: &DeviceTensor,
    out: &DeviceTensor,
)
    requires
        supported(acc, facts),
        agrees(q, facts[0]),
        agrees(k, facts[1]),
        agrees(v, facts[2]),
        q.natural(),
        k.natural(),
        v.natural(),
        out.natural(),
        v.shape@[2] == k.shape@[2],
        is_causal ==> q.shape@[2] <= k.shape@[2],
    ensures
        refusal(is_causal, q, k, v, out) is None,
{
    let (fq, fk, fv) = (facts[0], facts[1], facts[2]);
    assert(fq.shape@[1].to_usize_spec() == Some(q.shape@[1]));
    assert(fk.shape@[1].to_usize_spec() == Some(k.shape@[1]));
    assert(fv.shape@[1].to_usize_spec() == Some(v.shape@[1]));
    assert(fq.shape@[3].to_usize_spec() == Some(q.shape@[3]));
    assert(fk.shape@[3].to_usize_spec() == Some(k.shape@[3]));
    assert(fv.shape@[3].to_usize_spec() == Some(v.shape@[3]));
    if !steel_dim(q.shape@[3] as nat) {
        assert(fq.shape@[2].to_usize_spec() == Some(q.shape@[2]));
        assert(fk.shape@[2].to_usize_spec() == Some(k.shape@[2]));
    }
}

/// An attention can be fused exactly where there are queries, keys and values alone, of
/// half or single precision and rank 4, that accumulate in floating point; where heads
/// and widths are known and fit each other; and where the width is 64, 80 or 128, or is
/// 96 or 256 with lengths that are known to be few queries.
pub proof fn law_what_is_supported<D: DimLike>(acc: DatumType, facts: Seq<&TypedFact<D>>)
    ensures
        supported(acc, facts) <==> {
            let (q, k, v) = (facts[0].shape@, facts[1].shape@, facts[2].shape@);
            &&& facts.len() == 3
            &&& facts[0].datum_type is F32 || facts[0].datum_type is F16
            &&& acc is F16 || acc is F32 || acc is F64
            &&& q.len() == 4 && k.len() == 4 && v.len() == 4
            &&& q[1].to_usize_spec() is Some && k[1].to_usize_spec() is Some
            &&& v[1].to_usize_spec() == k[1].to_usize_spec()
            &&& q[1].to_usize_spec()->0 as int % k[1].to_usize_spec()->0 as int == 0
            &&& q[3].to_usize_spec() is Some
            &&& k[3].to_usize_spec() == q[3].to_usize_spec()
            &&& v[3].to_usize_spec() == q[3].to_usize_spec()
            &&& {
                let d = q[3].to_usize_spec()->0;
                let group = q[1].to_usize_spec()->0 / k[1].to_usize_spec()->0;
                ||| d == 64 || d == 80 || d == 128
                ||| {
                    &&& d == 96 || d == 256
                    &&& q[2].to_usize_spec() is Some && k[2].to_usize_spec() is Some
                    &&& q[2].to_usize_spec()->0 <= 8
                    &&& q[2].to_usize_spec()->0 <= k[2].to_usize_spec()->0
                    &&& q[2].to_usize_spec()->0 * group <= 32
                }
            }
        },
{
}

/// In every plan the first launch reads the queries at index 0, the keys at 1
/// and the values at 2. None of them is ever written. The last launch alone
/// writes the output, at index 3.
pub proof fn law_every_plan_binds_its_tensors<T>(
    scale: T,
    is_causal: bool,
    q: &DeviceTensor,
    k: &DeviceTensor,
    v: &DeviceTensor,
    out: &DeviceTensor,
)
    ensures
        ({
            let p = plan(scale, is_causal, q, k, v, out);
            let (first, last) = (p.launches[0], p.launches.last());
            &&& p.launches.len() == 1 || p.launches.len() == 2
            &&& gpu::bound(first, 0, Argument::Tensor(Role::Q, Access::Read))
            &&& gpu::bound(first, 1, Argument::Tensor(Role::K, Access::Read))
            &&& gpu::bound(first, 2, Argument::Tensor(Role::V, Access::Read))
            &&& gpu::bound(last, 3, Argument::Tensor(Role::Output, Access::Write))
            &&& p.launches.len() == 2 ==> !gpu::writes(first, Role::Output)
            &&& forall|i: int|
                0 <= i < p.launches.len() ==> !gpu::writes(#[trigger] p.launches[i], Role::Q)
                    && !gpu::writes(p.launches[i], Role::K) && !gpu::writes(p.launches[i], Role::V)
        }),
{
    let p = plan(scale, is_causal, q, k, v, out);
    let (first, last) = (p.launches[0], p.launches.last());
    assert(first.arguments[0] == (0u32, Argument::<T>::Tensor(Role::Q, Access::Read)));
    assert(first.arguments[1] == (1u32, Argument::<T>::Tensor(Role::K, Access::Read)));
    assert(first.arguments[2] == (2u32, Argument::<T>::Tensor(Role::V, Access::Read)));
    assert(last.arguments[3] == (3u32, Argument::<T>::Tensor(Role::Output, Access::Write)));
}

/// A few queries of a width of 64, 96, 128 or 256 over fewer than 1024 keys are
/// one launch, with one group for every query row. The steps from head to head
/// and from row to row at 6 and 7 are those of the keys, at 8 and 9 those of the
/// values. A causal mask is on where there is more than one query.
pub proof fn law_short_plan<T>(
    scale: T,
    is_causal: bool,
    q: &DeviceTensor,
    k: &DeviceTensor,
    v: &DeviceTensor,
    out: &DeviceTensor,
)
    requires
        q.shape@[3] == 64 || q.shape@[3] == 96 || q.shape@[3] == 128 || q.shape@[3] == 256,
        q.shape@[2] <= 8,
        q.shape@[2] <= k.shape@[2],
        q.shape@[2] * (q.shape@[1] / k.shape@[1]) <= 32,
        k.shape@[2] < 1024,
    ensures
        ({
            let p = plan(scale, is_causal, q, k, v, out);
            let l = p.launches[0];
            &&& p.launches.len() == 1
            &&& p.scratch.len() == 0
            &&& l.arguments.len() == 11
            &&& gpu::bound(l, 4, Argument::I32((q.shape@[1] / k.shape@[1]) as i32))
            &&& gpu::bound(l, 5, Argument::I32(k.shape@[2] as i32))
            &&& gpu::bound(l, 6, Argument::U64(k.strides@[1] as u64))
            &&& gpu::bound(l, 7, Argument::U64(k.strides@[2] as u64))
            &&& gpu::bound(l, 8, Argument::U64(v.strides@[1] as u64))
            &&& gpu::bound(l, 9, Argument::U64(v.strides@[2] as u64))
            &&& gpu::bound(l, 10, Argument::Number(scale))
            &&& gpu::compiled(l, 20, Constant::Bool(false))
            &&& gpu::compiled(l, 21, Constant::Bool(false))
            &&& gpu::compiled(l, 22, Constant::Bool(is_causal && q.shape@[2] > 1))
            &&& gpu::compiled(l, 23, Constant::Bool(false))
            &&& gpu::compiled(l, 24, Constant::Bool(false))
            &&& gpu::compiled(l, 25, Constant::Bool(false))
            &&& l.grid.width == (q.shape@[0] * q.shape@[1]) as u64
            &&& l.grid.height == q.shape@[2] as u64
            &&& l.grid.depth == 1
            &&& l.group.width == 1024 && l.group.height == 1 && l.group.depth == 1
            &&& l.library == LibraryName::MlxSdpa
            &&& l.kernel == "sdpa_vector_"@ + (if q.datum_type is F32 {
                "float"@
            } else {
                "float16_t"@
            }) + "_"@ + text::decimal(q.shape@[3] as nat) + "_"@ + text::decimal(
                q.shape@[3] as nat,
            )
        }),
{
    let l = plan(scale, is_causal, q, k, v, out).launches[0];
    assert(l.arguments[4].0 == 4 && l.arguments[5].0 == 5 && l.arguments[6].0 == 6);
    assert(l.arguments[7].0 == 7 && l.arguments[8].0 == 8 && l.arguments[9].0 == 9);
    assert(l.arguments[10].0 == 10);
    assert(l.constants[0].0 == 20 && l.constants[1].0 == 21 && l.constants[2].0 == 22);
    assert(l.constants[3].0 == 23 && l.constants[4].0 == 24 && l.constants[5].0 == 25);
}

/// A few queries over 1024 keys and more are two launches. The first takes
/// blocks of keys, 32 for every head and batch, and writes what it finds to
/// three tensors at 3, 4 and 5; the second reads these at 0, 1 and 2.
pub proof fn law_long_plan<T>(
    scale: T,
    is_causal: bool,
    q: &DeviceTensor,
    k: &DeviceTensor,
    v: &DeviceTensor,
    out: &DeviceTensor,
)
    requires
        q.shape@[3] == 64 || q.shape@[3] == 96 || q.shape@[3] == 128 || q.shape@[3] == 256,
        q.shape@[2] <= 8,
        q.shape@[2] <= k.shape@[2],
        q.shape@[2] * (q.shape@[1] / k.shape@[1]) <= 32,
        k.shape@[2] >= 1024,
    ensures
        ({
            let p = plan(scale, is_causal, q, k, v, out);
            let (l, m) = (p.launches[0], p.launches[1]);
            let group = q.shape@[1] / k.shape@[1];
            &&& p.launches.len() == 2
            &&& p.scratch == seq![
                (
                    Role::Partials,
                    q.datum_type,
                    seq![q.shape@[0], q.shape@[1], q.shape@[2], 32usize, q.shape@[3]],
                ),
                (
                    Role::Sums,
                    DatumType::F32,
                    seq![q.shape@[0], q.shape@[1], q.shape@[2], 32usize],
                ),
                (
                    Role::Maxs,
                    DatumType::F32,
                    seq![q.shape@[0], q.shape@[1], q.shape@[2], 32usize],
                ),
            ]
            &&& l.arguments.len() == 12
            &&& gpu::bound(l, 3, Argument::Tensor(Role::Partials, Access::Write))
            &&& gpu::bound(l, 4, Argument::Tensor(Role::Sums, Access::Write))
            &&& gpu::bound(l, 5, Argument::Tensor(Role::Maxs, Access::Write))
            &&& gpu::bound(l, 7, Argument::I32(k.shape@[2] as i32))
            &&& gpu::bound(l, 8, Argument::U64(k.strides@[1] as u64))
            &&& gpu::bound(l, 9, Argument::U64(k.strides@[2] as u64))
            &&& gpu::bound(l, 10, Argument::U64(v.strides@[1] as u64))
            &&& gpu::bound(l, 11, Argument::U64(v.strides@[2] as u64))
            &&& gpu::bound(l, 12, Argument::Number(scale))
            &&& gpu::compiled(l, 20, Constant::Bool(false))
            &&& gpu::compiled(l, 21, Constant::Bool(false))
            &&& gpu::compiled(l, 22, Constant::Bool(is_causal && q.shape@[2] > 1))
            &&& gpu::compiled(l, 23, Constant::Bool(false))
            &&& gpu::compiled(l, 24, Constant::Bool(false))
            &&& gpu::compiled(l, 25, Constant::Bool(false))
            &&& gpu::compiled(l, 26, Constant::I32(32))
            &&& l.grid.width == k.shape@[1] as u64
            &&& l.grid.height == q.shape@[0] as u64
            &&& l.grid.depth == 32
            &&& l.group.width == 32
            &&& l.group.height == group as u64
            &&& l.group.depth == q.shape@[2] as u64
            &&& l.library == LibraryName::MlxSdpa
            &&& l.kernel == "sdpa_vector_2pass_1_"@ + (if q.datum_type is F32 {
                "float"@
            } else {
                "float16_t"@
            }) + "_"@ + text::decimal(q.shape@[3] as nat) + "_"@ + text::decimal(
                q.shape@[3] as nat,
            )
            &&& m.arguments.len() == 5
            &&& gpu::bound(m, 0, Argument::Tensor(Role::Partials, Access::Read))
            &&& gpu::bound(m, 1, Argument::Tensor(Role::Sums, Access::Read))
            &&& gpu::bound(m, 2, Argument::Tensor(Role::Maxs, Access::Read))
            &&& gpu::bound(m, 4, Argument::I32(32))
            &&& m.constants.len() == 0
            &&& m.grid.width == (q.shape@[0] * q.shape@[1]) as u64
            &&& m.grid.height == q.shape@[2] as u64
            &&& m.grid.depth == 1
            &&& m.group.width == 1024 && m.group.height == 1 && m.group.depth == 1
            &&& m.library == LibraryName::MlxSdpa
            &&& m.kernel == "sdpa_vector_2pass_2_"@ + (if q.datum_type is F32 {
                "float"@
            } else {
                "float16_t"@
            }) + "_"@ + text::decimal(q.shape@[3] as nat)
        }),
{
    let p = plan(scale, is_causal, q, k, v, out);
    let (l, m) = (p.launches[0], p.launches[1]);
    assert(l.arguments[3].0 == 3 && l.arguments[4].0 == 4 && l.arguments[5].0 == 5);
    assert(l.arguments[6].0 == 7 && l.arguments[7].0 == 8 && l.arguments[8].0 == 9);
    assert(l.arguments[9].0 == 10 && l.arguments[10].0 == 11 && l.arguments[11].0 == 12);
    assert(l.constants[0].0 == 20 && l.constants[1].0 == 21 && l.constants[2].0 == 22);
    assert(l.constants[3].0 == 23 && l.constants[4].0 == 24 && l.constants[5].0 == 25);
    assert(l.constants[6].0 == 26);
    assert(m.arguments[0].0 == 0 && m.arguments[1].0 == 1 && m.arguments[2].0 == 2);
    assert(m.arguments[4].0 == 4);
}

/// Everything else is one launch over tiles of 32 queries, one for every tile,
/// head and batch. Its parameters at 4 hold the extents, how both lengths part
/// into tiles, how far the queries stand behind the first key, and the steps of
/// each tensor under the name of that tensor.
pub proof fn law_tiled_plan<T>(
    scale: T,
    is_causal: bool,
    q: &DeviceTensor,
    k: &DeviceTensor,
    v: &DeviceTensor,
    out: &DeviceTensor,
)
    requires
        !(q.shape@[3] == 64 || q.shape@[3] == 96 || q.shape@[3] == 128 || q.shape@[3] == 256)
            || q.shape@[2] > 8 || q.shape@[2] > k.shape@[2] || q.shape@[2] * (q.shape@[1]
            / k.shape@[1]) > 32,
    ensures
        ({
            let p = plan(scale, is_causal, q, k, v, out);
            let l = p.launches[0];
            let (ql, kl, d) = (q.shape@[2] as int, k.shape@[2] as int, q.shape@[3] as int);
            let keys: int = if d < 128 {
                32
            } else {
                16
            };
            &&& p.launches.len() == 1
            &&& p.scratch.len() == 0
            &&& l.arguments.len() == 5
            &&& l.arguments[4].0 == 4
            &&& l.arguments[4].1 is Attn
            &&& ({
                let a = l.arguments[4].1->Attn_0;
                &&& a.b == q.shape@[0] as i32
                &&& a.h == q.shape@[1] as i32
                &&& a.d == d as i32
                &&& a.ql == ql as i32
                &&& a.kl == kl as i32
                &&& a.gqa_factor == (q.shape@[1] / k.shape@[1]) as i32
                &&& a.scale == scale
                &&& a.nq == ((ql + 31) / 32) as i32
                &&& a.nk == ((kl + keys - 1) / keys) as i32
                &&& a.nq_aligned == (ql / 32) as i32
                &&& a.nk_aligned == (kl / keys) as i32
                &&& a.ql_rem == (ql % 32) as i32
                &&& a.kl_rem == (kl % keys) as i32
                &&& kl >= ql ==> a.ql_off == (kl - ql) as i32
                &&& kl < ql ==> a.ql_off == 0
                &&& a.q_strides.batch == q.strides@[0]
                &&& a.q_strides.head == q.strides@[1]
                &&& a.q_strides.row == q.strides@[2]
                &&& a.k_strides.batch == k.strides@[0]
                &&& a.k_strides.head == k.strides@[1]
                &&& a.k_strides.row == k.strides@[2]
                &&& a.v_strides.batch == v.strides@[0]
                &&& a.v_strides.head == v.strides@[1]
                &&& a.v_strides.row == v.strides@[2]
                &&& a.o_strides.batch == out.strides@[0]
                &&& a.o_strides.head == out.strides@[1]
                &&& a.o_strides.row == out.strides@[2]
            })
            &&& gpu::compiled(l, 200, Constant::Bool(ql % 32 == 0))
            &&& gpu::compiled(l, 201, Constant::Bool(kl % keys == 0))
            &&& gpu::compiled(l, 300, Constant::Bool(false))
            &&& gpu::compiled(l, 301, Constant::Bool(is_causal))
            &&& gpu::compiled(l, 302, Constant::Bool(false))
            &&& l.grid.width == ((ql + 31) / 32) as u64
            &&& l.grid.height == q.shape@[1] as u64
            &&& l.grid.depth == q.shape@[0] as u64
            &&& l.group.width == 32 && l.group.height == 4 && l.group.depth == 1
            &&& l.library == LibraryName::MlxSdpa
            &&& ({
                let word = if q.datum_type is F32 {
                    "float32"@
                } else {
                    "float16"@
                };
                l.kernel == "steel_attention_"@ + word + "_bq32_bk"@ + text::decimal(keys as nat)
                    + "_bd"@ + text::decimal(d as nat) + "_wm4_wn1_mask"@ + word
            })
        }),
{
    let l = plan(scale, is_causal, q, k, v, out).launches[0];
    assert(l.constants[0].0 == 200 && l.constants[1].0 == 201 && l.constants[2].0 == 300);
    assert(l.constants[3].0 == 301 && l.constants[4].0 == 302);
}

/// There is a plan exactly for tensors of half or single precision and of rank
/// 4, without gaps, alike in width, with as many values as keys and a whole
/// number of query heads for each of theirs, that the vector kernels take or the
/// tiled kernel; the latter takes no more queries than keys under a causal mask.
pub proof fn law_what_is_planned(
    is_causal: bool,
    q: &DeviceTensor,
    k: &DeviceTensor,
    v: &DeviceTensor,
    out: &DeviceTensor,
)
    ensures
        refusal(is_causal, q, k, v, out) is None <==> {
            &&& q.datum_type is F32 || q.datum_type is F16
            &&& q.shape@.len() == 4 && k.shape@.len() == 4 && v.shape@.len() == 4
            &&& k.shape@[3] == q.shape@[3] && v.shape@[3] == q.shape@[3]
            &&& v.shape@[1] == k.shape@[1] && v.shape@[2] == k.shape@[2]
            &&& q.shape@[1] as int % k.shape@[1] as int == 0
            &&& q.natural() && k.natural() && v.natural() && out.natural()
            &&& {
                let (d, ql, kl) = (q.shape@[3], q.shape@[2], k.shape@[2]);
                let group = q.shape@[1] / k.shape@[1];
                let few = ql <= 8 && ql <= kl && ql * group <= 32;
                ||| (d == 64 || d == 96 || d == 128 || d == 256) && few
                ||| (d == 64 || d == 80 || d == 128) && (is_causal ==> ql <= kl)
            }
        },
{
}

/// Which fused attention takes the place of one.
#[derive(Debug, Clone, Copy)]
pub enum Translation<T> {
    Mlx(MetalMlxSdpa<T>),
    Mfa { scale: T, is_causal: bool },
}

/// Chooses the fused attention for one that the one set of kernels supports,
/// or the other. The first is preferred; without either there is none.
pub fn translate_sdpa<T: Scalar>(
    mlx: bool,
    mfa: bool,
    head_dim: Option<usize>,
    scale: SdpaScale<T>,
    is_causal: bool,
) -> (r: Result<Option<Translation<T>>, MlxError>)
    requires
        scalar::lawful::<T>(),
    ensures
        !mlx && !mfa ==> r == Ok::<Option<Translation<T>>, MlxError>(None),
        (mlx || mfa) && head_dim is None ==> r == Err::<Option<Translation<T>>, MlxError>(
            MlxError::UnknownWidth,
        ),
        (mlx || mfa) && head_dim is Some && scale is NotScalar ==> r == Err::<
            Option<Translation<T>>,
            MlxError,
        >(MlxError::Scale),
        (mlx || mfa) && head_dim is Some && !(scale is NotScalar) ==> {
            let s = kv_sdpa::score_scale(
                match scale {
                    SdpaScale::Value(x) => Some(x),
                    _ => None,
                },
                head_dim->0,
            );
            r == Ok::<Option<Translation<T>>, MlxError>(
                Some(
                    if mlx {
                        Translation::Mlx(MetalMlxSdpa { scale: s, is_causal })
                    } else {
                        Translation::Mfa { scale: s, is_causal }
                    },
                ),
            )
        },
{
    if !mlx && !mfa {
        return Ok(None);
    }
    let d: usize = match head_dim {
        Some(d) => d,
        None => return Err(MlxError::UnknownWidth),
    };
    let s: T = match scale {
        SdpaScale::Value(x) => x,
        SdpaScale::Usual => scalar::square_root(scalar::reciprocal(scalar::of_count(d))),
        SdpaScale::NotScalar => return Err(MlxError::Scale),
    };
    if mlx {
        Ok(Some(Translation::Mlx(MetalMlxSdpa { scale: s, is_causal })))
    } else {
        Ok(Some(Translation::Mfa { scale: s, is_causal }))
    }
}

} // verus!
