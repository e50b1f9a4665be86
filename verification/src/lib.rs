use vstd::prelude::*;

pub mod activations;
pub mod attention;
pub mod concat;
pub mod curves;
pub mod datum;
pub mod depth_wise;
pub mod dims;
pub mod dyn_kv_cache;
pub mod exact;
pub mod extent;
pub mod fact;
pub mod gpu;
pub mod gpu_ops;
pub mod graph;
pub mod kv_cache;
pub mod kv_sdpa;
pub mod lazy_pack;
pub mod math;
pub mod mean;
pub mod mlx_sdpa;
pub mod mmm;
pub mod nnef;
pub mod packing;
pub mod parallel;
pub mod quant;
pub mod reals;
pub mod rope;
pub mod scalar;
pub mod softmax;
pub mod spread;
pub mod tensor;
pub mod text;

verus! {

} // verus!
