//! The part of a model's graph around its attentions: which caches feed them,
//! and what the caches and attentions are replaced by.

use vstd::prelude::*;

use crate::dims;
use crate::dims::DimLike;
use crate::dyn_kv_cache::QuantizedDynKeyValueCache;
use crate::fact::TypedFact;
use crate::kv_sdpa::QuantizedKvSdpa;
use crate::scalar::Scalar;
use crate::text;

verus! {

/// One output of one node.
#[derive(Clone, Copy, Debug, PartialEq, Eq, Structural, Hash)]
pub struct OutletId {
    pub node: usize,
    pub slot: usize,
}

/// A cache that grows along one axis, in full precision.
#[derive(Debug)]
pub struct DynKeyValueCache<D> {
    pub name: String,
    pub axis: usize,
    pub past_sequence_fact: TypedFact<D>,
    pub input_sequence_fact: TypedFact<D>,
}

/// The factor that an attention scales its scores by.
#[derive(Clone, Copy, Debug, PartialEq)]
pub enum SdpaScale<T> {
    /// The usual one.
    Usual,
    /// This one.
    Value(T),
    /// A tensor that is no single number.
    NotScalar,
}

/// An attention.
#[derive(Clone, Copy, Debug, PartialEq)]
pub struct Sdpa<T> {
    pub scale: SdpaScale<T>,
    pub is_causal: bool,
}

/// What a node does.
#[derive(Debug)]
pub enum NodeOp<T, D> {
    Cache(DynKeyValueCache<D>),
    ApplyRope,
    MultiBroadcastTo,
    AxisOp,
    Cast,
    Sdpa(Sdpa<T>),
    Other,
}

/// A node, with the number of consumers of each of its outputs.
#[derive(Debug)]
pub struct Node<T, D> {
    pub name: String,
    pub op: NodeOp<T, D>,
    pub inputs: Vec<OutletId>,
    pub consumers: Vec<usize>,
}

/// The nodes, each known by its place.
#[derive(Debug)]
pub struct Graph<T, D> {
    pub nodes: Vec<Node<T, D>>,
}

impl<T, D> Graph<T, D> {
    /// Whether there is such an outlet.
    pub open spec fn has(&self, o: OutletId) -> bool {
        &&& o.node < self.nodes@.len()
        &&& o.slot < self.nodes@[o.node as int].consumers@.len()
    }

    /// The number of inputs that a node cannot do without.
    pub open spec fn arity(op: NodeOp<T, D>) -> nat {
        match op {
            NodeOp::Cache(_) | NodeOp::MultiBroadcastTo | NodeOp::AxisOp | NodeOp::Cast => 1,
            NodeOp::ApplyRope => 3,
            NodeOp::Sdpa(_) | NodeOp::Other => 0,
        }
    }

    /// Whether every node stands above the nodes that it reads.
    pub open spec fn ranked(&self, rank: spec_fn(usize) -> nat) -> bool {
        forall|n: usize, i: int|
            n < self.nodes@.len() && 0 <= i < self.nodes@[n as int].inputs@.len() ==> rank(
                (#[trigger] self.nodes@[n as int].inputs@[i]).node,
            ) < rank(n)
    }

    /// Whether every node has its inputs, and the graph no cycle.
    pub open spec fn wf(&self) -> bool {
        &&& self.nodes@.len() <= usize::MAX
        &&& forall|n: int, i: int|
            0 <= n < self.nodes@.len() && 0 <= i < self.nodes@[n].inputs@.len() ==> self.has(
                #[trigger] self.nodes@[n].inputs@[i],
            )
        &&& forall|n: int|
            0 <= n < self.nodes@.len() ==> Self::arity((#[trigger] self.nodes@[n]).op)
                <= self.nodes@[n].inputs@.len()
        &&& exists|rank: spec_fn(usize) -> nat| self.ranked(rank)
    }

    /// How far a node stands above the sources.
    pub open spec fn rank(&self, n: usize) -> nat {
        let rank = choose|rank: spec_fn(usize) -> nat| self.ranked(rank);
        rank(n)
    }

    /// A node stands above the nodes that it reads.
    pub proof fn lemma_rank(&self, n: usize, i: int)
        requires
            self.wf(),
            n < self.nodes@.len(),
            0 <= i < self.nodes@[n as int].inputs@.len(),
        ensures
            self.rank(self.nodes@[n as int].inputs@[i].node) < self.rank(n),
    {
        let rank = choose|rank: spec_fn(usize) -> nat| self.ranked(rank);
        assert(self.ranked(rank));
        let o = self.nodes@[n as int].inputs@[i];
        assert(rank(o.node) < rank(n));
    }

    /// Whether the outlet has exactly one consumer.
    pub open spec fn single(&self, o: OutletId) -> bool {
        self.nodes@[o.node as int].consumers@[o.slot as int] == 1
    }

    /// Whether the node only passes its first input on, in another form.
    pub open spec fn plumbing(&self, n: int) -> bool {
        let op = self.nodes@[n].op;
        op is MultiBroadcastTo || op is AxisOp || op is Cast || op is ApplyRope
    }

    /// The cache node that an outlet reads through plumbing alone, every outlet
    /// on the way having one consumer.
    pub open spec fn cache_behind(&self, o: OutletId) -> Option<usize>
        decreases self.rank(o.node),
        when self.wf() && self.has(o)
    {
        let n = self.nodes@[o.node as int];
        if !self.single(o) {
            None
        } else if n.op is Cache {
            Some(o.node)
        } else if self.plumbing(o.node as int) {
            proof {
                self.lemma_rank(o.node, 0);
            }
            self.cache_behind(n.inputs@[0])
        } else {
            None
        }
    }

    /// The rotations on the way from an outlet to its cache, the first read
    /// first.
    pub open spec fn rotations(&self, o: OutletId) -> Seq<(OutletId, OutletId)>
        decreases self.rank(o.node),
        when self.wf() && self.has(o)
    {
        let n = self.nodes@[o.node as int];
        if !self.plumbing(o.node as int) || !self.single(o) {
            Seq::empty()
        } else {
            proof {
                self.lemma_rank(o.node, 0);
            }
            if n.op is ApplyRope {
                seq![(n.inputs@[1], n.inputs@[2])] + self.rotations(n.inputs@[0])
            } else {
                self.rotations(n.inputs@[0])
            }
        }
    }

    /// Every outlet from `o` to its cache: the chain itself.
    pub open spec fn chain(&self, path: Seq<OutletId>, cache: usize) -> bool {
        &&& path.len() > 0
        &&& path.last().node == cache
        &&& forall|i: int| 0 <= i < path.len() ==> self.has(#[trigger] path[i])
        &&& forall|i: int| 0 <= i < path.len() ==> self.single(#[trigger] path[i])
        &&& forall|i: int|
            0 <= i < path.len() - 1 ==> {
                &&& self.plumbing((#[trigger] path[i]).node as int)
                &&& path[i + 1] == self.nodes@[path[i].node as int].inputs@[0]
            }
    }

    /// A cache that is found is reached by a chain of plumbing in which every
    /// outlet has one consumer, so that nothing else loses an input when the
    /// chain is removed.
    pub proof fn law_cache_is_reached_by_single_consumers(&self, o: OutletId) -> (path: Seq<
        OutletId,
    >)
        requires
            self.wf(),
            self.has(o),
            self.cache_behind(o) is Some,
        ensures
            path[0] == o,
            self.chain(path, self.cache_behind(o)->0),
            self.nodes@[self.cache_behind(o)->0 as int].op is Cache,
        decreases self.rank(o.node),
    {
        let n = self.nodes@[o.node as int];
        if n.op is Cache {
            seq![o]
        } else {
            self.lemma_rank(o.node, 0);
            let next = n.inputs@[0];
            let rest = self.law_cache_is_reached_by_single_consumers(next);
            let path = seq![o] + rest;
            assert forall|i: int| 0 <= i < path.len() - 1 implies {
                &&& self.plumbing((#[trigger] path[i]).node as int)
                &&& path[i + 1] == self.nodes@[path[i].node as int].inputs@[0]
            } by {
                if i > 0 {
                    assert(path[i] == rest[i - 1]);
                    assert(path[i + 1] == rest[i]);
                }
            }
            assert forall|i: int| 0 <= i < path.len() implies self.has(#[trigger] path[i])
                && self.single(path[i]) by {
                if i > 0 {
                    assert(path[i] == rest[i - 1]);
                }
            }
            path
        }
    }
}

impl<T: Scalar, D: DimLike> Graph<T, D> {
    /// The input of the cache behind an outlet, the cache's axis and the
    /// rotation on the way. With more than one rotation there is no answer.
    pub open spec fn cache_source(&self, o: OutletId) -> Option<
        (OutletId, usize, Option<(OutletId, OutletId)>),
    > {
        match self.cache_behind(o) {
            Some(c) if self.rotations(o).len() <= 1 => {
                let n = self.nodes@[c as int];
                let rope = if self.rotations(o).len() == 1 {
                    Some(self.rotations(o)[0])
                } else {
                    None
                };
                Some((n.inputs@[0], n.op->Cache_0.axis, rope))
            },
            _ => None,
        }
    }
}

/// Why a rule or a transform gives up.
#[derive(Clone, Copy, Debug, PartialEq, Eq, Structural)]
pub enum RuleError {
    /// The attention's scale is no single number.
    Scale,
    /// The codes are to have a width other than 4 or 8 bits.
    Bits,
}

/// One node that takes the place of another: what it is called, what it does
/// and what it reads.
#[derive(Debug)]
pub struct Replacement<O> {
    pub name: String,
    pub op: O,
    pub inputs: Vec<OutletId>,
    pub replaces: OutletId,
}

/// The attention that takes the place of caches and attention.
pub open spec fn fused_op<T>(
    scale: SdpaScale<T>,
    axis: usize,
    bits: u32,
    is_causal: bool,
) -> QuantizedKvSdpa<T> {
    QuantizedKvSdpa {
        axis,
        scale: match scale {
            SdpaScale::Value(s) => Some(s),
            _ => None,
        },
        bits,
        is_causal,
    }
}

impl<T: Scalar, D: DimLike> Graph<T, D> {
    /// The attention at a node.
    pub open spec fn sdpa(&self, node: usize) -> Sdpa<T> {
        self.nodes@[node as int].op->Sdpa_0
    }

    /// The inputs of a node.
    pub open spec fn inputs(&self, node: usize) -> Seq<OutletId> {
        self.nodes@[node as int].inputs@
    }

    /// Whether the attention at `node` reads keys and values from caches on one
    /// axis, with a rotation on the way of the keys at most.
    pub open spec fn fusable(&self, node: usize) -> bool {
        let inputs = self.inputs(node);
        &&& inputs.len() == 3 || inputs.len() == 4
        &&& match (self.cache_source(inputs[1]), self.cache_source(inputs[2])) {
            (Some((_, k_axis, _)), Some((_, v_axis, v_rope))) => k_axis == v_axis && v_rope is None,
            _ => false,
        }
    }

    /// The axis along which the keys' cache grows.
    pub open spec fn key_axis(&self, node: usize) -> usize {
        let (_, axis, _) = self.cache_source(self.inputs(node)[1])->0;
        axis
    }

    /// What the fused attention reads: the queries, the new keys and values,
    /// and the tables of the rotation where there is one.
    pub open spec fn fused_inputs(&self, node: usize) -> Seq<OutletId> {
        let inputs = self.inputs(node);
        let (k_new, _, k_rope) = self.cache_source(inputs[1])->0;
        let (v_new, _, _) = self.cache_source(inputs[2])->0;
        seq![inputs[0], k_new, v_new] + match k_rope {
            Some((cos, sin)) => seq![cos, sin],
            None => seq![],
        }
    }

    /// Whether `p` replaces the cache at `node` by one in low precision.
    pub open spec fn stores_in_low_precision(
        &self,
        node: usize,
        p: &Replacement<QuantizedDynKeyValueCache<D>>,
        per_channel: bool,
        bits: u32,
    ) -> bool {
        let n = self.nodes@[node as int];
        let cache = n.op->Cache_0;
        &&& p.name@ == n.name@ + ".quant"@
        &&& p.op.name@ == cache.name@
        &&& p.op.axis == cache.axis
        &&& p.op.bits == bits
        &&& p.op.per_channel == per_channel
        &&& p.op.past_sequence_fact@ == cache.past_sequence_fact@
        &&& p.op.input_sequence_fact@ == cache.input_sequence_fact@
        &&& p.inputs@ == seq![n.inputs@[0]]
        &&& p.replaces == (OutletId { node, slot: 0 })
    }

    /// Whether the attention at `node` reads keys and values from two caches.
    pub open spec fn storable(&self, node: usize) -> bool {
        let inputs = self.inputs(node);
        &&& inputs.len() == 3 || inputs.len() == 4
        &&& self.cache_behind(inputs[1]) is Some
        &&& self.cache_behind(inputs[2]) is Some
        &&& self.cache_behind(inputs[1]) != self.cache_behind(inputs[2])
    }

    /// A cache that is found is a node.
    proof fn lemma_cache_exists(&self, o: OutletId)
        requires
            self.wf(),
            self.has(o),
            self.cache_behind(o) is Some,
        ensures
            self.cache_behind(o)->0 < self.nodes@.len(),
    {
        let path = self.law_cache_is_reached_by_single_consumers(o);
        assert(self.has(path[path.len() - 1]));
    }
}

/// The cache node behind an outlet.
pub fn walk_to_cache_node<T: Scalar, D: DimLike>(
    model: &Graph<T, D>,
    start: OutletId,
) -> (r: Option<usize>)
    requires
        model.wf(),
        model.has(start),
    ensures
        r == model.cache_behind(start),
{
    let mut o: OutletId = start;
    loop
        invariant
            model.wf(),
            model.has(o),
            model.cache_behind(o) == model.cache_behind(start),
        decreases model.rank(o.node),
    {
        let n = &model.nodes[o.node];
        if n.consumers[o.slot] != 1 {
            return None;
        }
        match &n.op {
            NodeOp::Cache(_) => return Some(o.node),
            NodeOp::ApplyRope | NodeOp::MultiBroadcastTo | NodeOp::AxisOp | NodeOp::Cast => {
                proof {
                    model.lemma_rank(o.node, 0);
                }
                o = n.inputs[0];
            },
            _ => return None,
        }
    }
}

/// The input of the cache behind an outlet, the cache's axis, and the
/// rotation on the way, of which there may be one.
pub fn walk_kv_to_cache<T: Scalar, D: DimLike>(
    model: &Graph<T, D>,
    start: OutletId,
) -> (r: Option<(OutletId, usize, Option<(OutletId, OutletId)>)>)
    requires
        model.wf(),
        model.has(start),
    ensures
        r == model.cache_source(start),
{
    let mut o: OutletId = start;
    let mut rope: Option<(OutletId, OutletId)> = None;
    assert(Seq::<(OutletId, OutletId)>::empty() + model.rotations(o) =~= model.rotations(o));
    loop
        invariant
            model.wf(),
            model.has(start),
            model.has(o),
            model.cache_behind(o) == model.cache_behind(start),
            model.rotations(start) == (match rope {
                Some(p) => seq![p],
                None => Seq::<(OutletId, OutletId)>::empty(),
            }) + model.rotations(o),
        decreases model.rank(o.node),
    {
        let n = &model.nodes[o.node];
        if n.consumers[o.slot] != 1 {
            return None;
        }
        match &n.op {
            NodeOp::Cache(c) => {
                assert(model.rotations(o).len() == 0);
                return Some((n.inputs[0], c.axis, rope));
            },
            NodeOp::ApplyRope => {
                if rope.is_some() {
                    assert(model.rotations(start).len() >= 2);
                    return None;
                }
                proof {
                    model.lemma_rank(o.node, 0);
                }
                rope = Some((n.inputs[1], n.inputs[2]));
                o = n.inputs[0];
            },
            NodeOp::MultiBroadcastTo | NodeOp::AxisOp | NodeOp::Cast => {
                proof {
                    model.lemma_rank(o.node, 0);
                }
                o = n.inputs[0];
            },
            _ => return None,
        }
    }
}

/// Replaces the attention at `node`, the caches it reads and all that lies
/// between by one attention with a cache of its own. A fourth input is a
/// mask, which the fused attention makes itself.
pub fn fuse_quantized_kv_sdpa_rule<T: Scalar, D: DimLike>(
    ctx: &u32,
    model: &Graph<T, D>,
    node: usize,
    node_name: &str,
) -> (r: Result<Option<Replacement<QuantizedKvSdpa<T>>>, RuleError>)
    requires
        model.wf(),
        node < model.nodes@.len(),
        model.nodes@[node as int].op is Sdpa,
    ensures
        !model.fusable(node) ==> r matches Ok(None),
        model.fusable(node) && model.sdpa(node).scale is NotScalar ==> r == Err::<
            Option<Replacement<QuantizedKvSdpa<T>>>,
            RuleError,
        >(RuleError::Scale),
        model.fusable(node) && !(model.sdpa(node).scale is NotScalar) ==> match r {
            Ok(Some(p)) => {
                &&& p.name@ == node_name@ + ".quant_kv_sdpa"@
                &&& p.op == fused_op(
                    model.sdpa(node).scale,
                    model.key_axis(node),
                    *ctx,
                    model.sdpa(node).is_causal || model.inputs(node).len() == 4,
                )
                &&& p.op.axis == model.key_axis(node)
                &&& p.op.bits == *ctx
                &&& p.op.is_causal == (model.sdpa(node).is_causal || model.inputs(node).len() == 4)
                &&& model.sdpa(node).scale is Usual ==> p.op.scale is None
                &&& model.sdpa(node).scale matches SdpaScale::Value(s) ==> p.op.scale == Some(s)
                &&& p.inputs@ == model.fused_inputs(node)
                &&& p.replaces == (OutletId { node, slot: 0 })
            },
            _ => false,
        },
{
    let n = &model.nodes[node];
    if n.inputs.len() != 3 && n.inputs.len() != 4 {
        return Ok(None);
    }
    let op: Sdpa<T> = match n.op {
        NodeOp::Sdpa(op) => op,
        _ => return Ok(None),
    };
    let is_causal: bool = op.is_causal || n.inputs.len() == 4;
    let (k_new, k_axis, k_rope) = match walk_kv_to_cache(model, n.inputs[1]) {
        Some(found) => found,
        None => return Ok(None),
    };
    let (v_new, v_axis, v_rope) = match walk_kv_to_cache(model, n.inputs[2]) {
        Some(found) => found,
        None => return Ok(None),
    };
    if k_axis != v_axis || v_rope.is_some() {
        return Ok(None);
    }
    let scale: Option<T> = match op.scale {
        SdpaScale::Usual => None,
        SdpaScale::Value(s) => Some(s),
        SdpaScale::NotScalar => return Err(RuleError::Scale),
    };
    let mut inputs: Vec<OutletId> = Vec::new();
    inputs.push(n.inputs[0]);
    inputs.push(k_new);
    inputs.push(v_new);
    if let Some((cos, sin)) = k_rope {
        inputs.push(cos);
        inputs.push(sin);
    }
    assert(inputs@ =~= model.fused_inputs(node));
    Ok(
        Some(
            Replacement {
                name: text::joined(node_name, ".quant_kv_sdpa"),
                op: QuantizedKvSdpa { axis: k_axis, scale, bits: *ctx, is_causal },
                inputs,
                replaces: OutletId { node, slot: 0 },
            },
        ),
    )
}

/// Replaces one cache by one in low precision.
pub fn replace_with_quant_cache<T: Scalar, D: DimLike>(
    model: &Graph<T, D>,
    cache_node: usize,
    per_channel: bool,
    bits: u32,
) -> (r: Option<Replacement<QuantizedDynKeyValueCache<D>>>)
    requires
        dims::lawful::<D>(),
        model.wf(),
        cache_node < model.nodes@.len(),
    ensures
        r is Some == model.nodes@[cache_node as int].op is Cache,
        r is Some ==> model.stores_in_low_precision(cache_node, &r->0, per_channel, bits),
{
    let n = &model.nodes[cache_node];
    match &n.op {
        NodeOp::Cache(cache) => {
            let mut inputs: Vec<OutletId> = Vec::new();
            inputs.push(n.inputs[0]);
            Some(
                Replacement {
                    name: text::joined(n.name.as_str(), ".quant"),
                    op: QuantizedDynKeyValueCache {
                        name: cache.name.clone(),
                        axis: cache.axis,
                        bits,
                        per_channel,
                        past_sequence_fact: cache.past_sequence_fact.duplicate(),
                        input_sequence_fact: cache.input_sequence_fact.duplicate(),
                    },
                    inputs,
                    replaces: OutletId { node: cache_node, slot: 0 },
                },
            )
        },
        _ => None,
    }
}

/// Replaces the two caches that the attention at `node` reads by caches in
/// low precision: the keys' per channel, the values' per token.
pub fn quantize_kv_storage_rule<T: Scalar, D: DimLike>(
    ctx: &u32,
    model: &Graph<T, D>,
    node: usize,
) -> (r: Option<
    (
        Replacement<QuantizedDynKeyValueCache<D>>,
        Replacement<QuantizedDynKeyValueCache<D>>,
    ),
>)
    requires
        dims::lawful::<D>(),
        model.wf(),
        node < model.nodes@.len(),
    ensures
        r is Some == model.storable(node),
        match r {
            Some((k, v)) => {
                &&& model.stores_in_low_precision(
                    model.cache_behind(model.inputs(node)[1])->0,
                    &k,
                    true,
                    *ctx,
                )
                &&& model.stores_in_low_precision(
                    model.cache_behind(model.inputs(node)[2])->0,
                    &v,
                    false,
                    *ctx,
                )
            },
            None => true,
        },
{
    let n = &model.nodes[node];
    if n.inputs.len() != 3 && n.inputs.len() != 4 {
        return None;
    }
    let k_cache: usize = match walk_to_cache_node(model, n.inputs[1]) {
        Some(c) => c,
        None => return None,
    };
    let v_cache: usize = match walk_to_cache_node(model, n.inputs[2]) {
        Some(c) => c,
        None => return None,
    };
    if k_cache == v_cache {
        return None;
    }
    proof {
        let _ = model.law_cache_is_reached_by_single_consumers(n.inputs@[1]);
        let _ = model.law_cache_is_reached_by_single_consumers(n.inputs@[2]);
        model.lemma_cache_exists(n.inputs@[1]);
        model.lemma_cache_exists(n.inputs@[2]);
    }
    let k = replace_with_quant_cache(model, k_cache, true, *ctx);
    let v = replace_with_quant_cache(model, v_cache, false, *ctx);
    match (k, v) {
        (Some(k), Some(v)) => Some((k, v)),
        _ => None,
    }
}

/// What is fused with its caches also has caches that could be replaced where
/// they stand, unless keys and values come from one cache.
pub proof fn law_fusable_is_storable<T: Scalar, D: DimLike>(g: &Graph<T, D>, node: usize)
    requires
        g.wf(),
        node < g.nodes@.len(),
        g.fusable(node),
    ensures
        g.storable(node) || g.cache_behind(g.inputs(node)[1]) == g.cache_behind(g.inputs(node)[2]),
{
}

/// A fused attention has three inputs, or five where the keys are rotated: the
/// queries, then what the two caches read, then the tables of the rotation.
pub proof fn law_fused_inputs_are_three_or_five<T: Scalar, D: DimLike>(
    g: &Graph<T, D>,
    node: usize,
)
    requires
        g.wf(),
        node < g.nodes@.len(),
        g.fusable(node),
    ensures
        g.fused_inputs(node).len() == if g.rotations(g.inputs(node)[1]).len() == 0 {
            3int
        } else {
            5int
        },
        g.fused_inputs(node)[0] == g.inputs(node)[0],
        g.fused_inputs(node)[1] == g.inputs(g.cache_behind(g.inputs(node)[1])->0)[0],
        g.fused_inputs(node)[2] == g.inputs(g.cache_behind(g.inputs(node)[2])->0)[0],
{
}

/// Whether a path leads from its first outlet to a cache: every outlet exists and
/// has one consumer, every node but the last broadcasts, reshapes, casts or
/// rotates and reads the next outlet as its first input, and the last is a cache.
pub open spec fn leads_to_cache<T, D>(g: &Graph<T, D>, path: Seq<OutletId>) -> bool {
    &&& path.len() > 0
    &&& g.nodes@[path.last().node as int].op is Cache
    &&& forall|i: int|
        0 <= i < path.len() ==> {
            &&& (#[trigger] path[i]).node < g.nodes@.len()
            &&& path[i].slot < g.nodes@[path[i].node as int].consumers@.len()
            &&& g.nodes@[path[i].node as int].consumers@[path[i].slot as int] == 1
        }
    &&& forall|i: int|
        0 <= i < path.len() - 1 ==> {
            let n = g.nodes@[(#[trigger] path[i]).node as int];
            &&& n.op is MultiBroadcastTo || n.op is AxisOp || n.op is Cast || n.op is ApplyRope
            &&& path[i + 1] == n.inputs@[0]
        }
}

/// Whether the node at place `i` of a path rotates.
pub open spec fn rotates<T, D>(g: &Graph<T, D>, path: Seq<OutletId>, i: int) -> bool {
    0 <= i < path.len() && g.nodes@[path[i].node as int].op is ApplyRope
}

/// A path that leads to a cache goes on to it from its second outlet.
proof fn lemma_rest_leads<T, D>(g: &Graph<T, D>, path: Seq<OutletId>)
    requires
        leads_to_cache(g, path),
        path.len() > 1,
    ensures
        leads_to_cache(g, path.skip(1)),
        path.skip(1)[0] == path[1],
        path.skip(1).last() == path.last(),
{
    let rest = path.skip(1);
    assert forall|i: int| 0 <= i < rest.len() implies {
        &&& (#[trigger] rest[i]).node < g.nodes@.len()
        &&& rest[i].slot < g.nodes@[rest[i].node as int].consumers@.len()
        &&& g.nodes@[rest[i].node as int].consumers@[rest[i].slot as int] == 1
    } by {
        assert(rest[i] == path[i + 1]);
    }
    assert forall|i: int| 0 <= i < rest.len() - 1 implies {
        let n = g.nodes@[(#[trigger] rest[i]).node as int];
        &&& n.op is MultiBroadcastTo || n.op is AxisOp || n.op is Cast || n.op is ApplyRope
        &&& rest[i + 1] == n.inputs@[0]
    } by {
        assert(rest[i] == path[i + 1]);
        assert(rest[i + 1] == path[i + 2]);
    }
}

/// A cache that a path leads to is found, and with it the rotations on the way,
/// one for each node that rotates.
proof fn lemma_path_is_walked<T: Scalar, D: DimLike>(g: &Graph<T, D>, path: Seq<OutletId>)
    requires
        g.wf(),
        leads_to_cache(g, path),
    ensures
        g.has(path[0]),
        g.cache_behind(path[0]) == Some(path.last().node),
        (forall|i: int| !rotates(g, path, i)) ==> g.rotations(path[0]).len() == 0,
        forall|i: int|
            #[trigger] rotates(g, path, i) && (forall|j: int|
                #[trigger] rotates(g, path, j) ==> j == i) ==> g.rotations(path[0]) == seq![
                (
                    g.nodes@[path[i].node as int].inputs@[1],
                    g.nodes@[path[i].node as int].inputs@[2],
                ),
            ],
        forall|i: int, j: int|
            #[trigger] rotates(g, path, i) && #[trigger] rotates(g, path, j) && i != j
                ==> g.rotations(path[0]).len() >= 2,
        forall|i: int| #[trigger] rotates(g, path, i) ==> g.rotations(path[0]).len() >= 1,
    decreases path.len(),
{
    let o = path[0];
    assert(g.has(o));
    let n = g.nodes@[o.node as int];
    if path.len() == 1 {
        assert(path.last() == o);
    } else {
        lemma_rest_leads(g, path);
        let rest = path.skip(1);
        lemma_path_is_walked(g, rest);
        g.lemma_rank(o.node, 0);
        assert(rest[0] == n.inputs@[0]);
        assert(g.cache_behind(o) == g.cache_behind(rest[0]));
        let here = n.op is ApplyRope;
        assert(g.rotations(o) == if here {
            seq![(n.inputs@[1], n.inputs@[2])] + g.rotations(rest[0])
        } else {
            g.rotations(rest[0])
        });
        assert forall|i: int| 0 < i implies #[trigger] rotates(g, path, i) == rotates(
            g,
            rest,
            i - 1,
        ) by {
            if i < path.len() {
                assert(rest[i - 1] == path[i]);
            }
        }
        assert(rotates(g, path, 0) == here);
        if forall|i: int| !rotates(g, path, i) {
            assert forall|i: int| !rotates(g, rest, i) by {
                if rotates(g, rest, i) {
                    assert(rotates(g, path, i + 1));
                }
            }
        }
        assert forall|i: int|
            #[trigger] rotates(g, path, i) && (forall|j: int|
                #[trigger] rotates(g, path, j) ==> j == i) implies g.rotations(path[0]) == seq![
            (g.nodes@[path[i].node as int].inputs@[1], g.nodes@[path[i].node as int].inputs@[2]),
        ] by {
            if i == 0 {
                assert forall|k: int| !rotates(g, rest, k) by {
                    if rotates(g, rest, k) {
                        assert(rotates(g, path, k + 1));
                    }
                }
                assert(g.rotations(o) =~= seq![(n.inputs@[1], n.inputs@[2])]);
            } else {
                assert(rotates(g, rest, i - 1));
                assert forall|k: int| #[trigger] rotates(g, rest, k) implies k == i - 1 by {
                    assert(rotates(g, path, k + 1));
                }
                assert(!here);
                assert(rest[i - 1] == path[i]);
            }
        }
        assert forall|i: int| #[trigger] rotates(g, path, i) implies g.rotations(path[0]).len()
            >= 1 by {
            if i > 0 {
                assert(rotates(g, rest, i - 1));
            }
        }
        assert forall|i: int, j: int|
            #[trigger] rotates(g, path, i) && #[trigger] rotates(g, path, j) && i
                != j implies g.rotations(path[0]).len() >= 2 by {
            if i > 0 && j > 0 {
                assert(rotates(g, rest, i - 1) && rotates(g, rest, j - 1));
            } else if i == 0 {
                assert(rotates(g, rest, j - 1));
            } else {
                assert(rotates(g, rest, i - 1));
            }
        }
    }
}

/// A cache is found behind an outlet exactly where a path leads from one to the
/// other; the cache is the end of every such path.
pub proof fn law_cache_is_found_where_a_path_leads<T: Scalar, D: DimLike>(
    g: &Graph<T, D>,
    o: OutletId,
)
    requires
        g.wf(),
        g.has(o),
    ensures
        g.cache_behind(o) is Some <==> exists|path: Seq<OutletId>|
            #[trigger] leads_to_cache(g, path) && path[0] == o,
        forall|path: Seq<OutletId>| #[trigger]
            leads_to_cache(g, path) && path[0] == o ==> g.cache_behind(o) == Some(
                path.last().node,
            ),
{
    if g.cache_behind(o) is Some {
        let path = g.law_cache_is_reached_by_single_consumers(o);
        assert forall|i: int| 0 <= i < path.len() implies {
            &&& (#[trigger] path[i]).node < g.nodes@.len()
            &&& path[i].slot < g.nodes@[path[i].node as int].consumers@.len()
            &&& g.nodes@[path[i].node as int].consumers@[path[i].slot as int] == 1
        } by {
            assert(g.has(path[i]) && g.single(path[i]));
        }
        assert forall|i: int| 0 <= i < path.len() - 1 implies {
            let n = g.nodes@[(#[trigger] path[i]).node as int];
            &&& n.op is MultiBroadcastTo || n.op is AxisOp || n.op is Cast || n.op is ApplyRope
            &&& path[i + 1] == n.inputs@[0]
        } by {
            assert(g.plumbing(path[i].node as int));
        }
        assert(leads_to_cache(g, path));
    }
    assert forall|path: Seq<OutletId>| #[trigger]
        leads_to_cache(g, path) && path[0] == o implies g.cache_behind(o) == Some(
        path.last().node,
    ) by {
        lemma_path_is_walked(g, path);
    }
}

/// What an attention is replaced by, where a path leads from its second input to
/// the cache of the keys and one from its third to that of the values. The new
/// node reads the queries and what the caches read. If one node on the way of the
/// keys rotates, wherever it stands, the tables that it reads follow; if two do,
/// or one on the way of the values, or if the caches grow along different axes,
/// nothing is replaced.
pub proof fn law_rotation_is_carried_over<T: Scalar, D: DimLike>(
    g: &Graph<T, D>,
    node: usize,
    keys: Seq<OutletId>,
    values: Seq<OutletId>,
)
    requires
        g.wf(),
        node < g.nodes@.len(),
        g.nodes@[node as int].inputs@.len() == 3 || g.nodes@[node as int].inputs@.len() == 4,
        leads_to_cache(g, keys),
        leads_to_cache(g, values),
        keys[0] == g.nodes@[node as int].inputs@[1],
        values[0] == g.nodes@[node as int].inputs@[2],
    ensures
        ({
            let q = g.nodes@[node as int].inputs@[0];
            let (kc, vc) = (g.nodes@[keys.last().node as int], g.nodes@[values.last().node as int]);
            let same_axis = kc.op->Cache_0.axis == vc.op->Cache_0.axis;
            let values_rotate = exists|i: int| rotates(g, values, i);
            &&& !same_axis || values_rotate ==> !g.fusable(node)
            &&& (exists|i: int, j: int|
                i != j && #[trigger] rotates(g, keys, i) && #[trigger] rotates(g, keys, j))
                ==> !g.fusable(node)
            &&& same_axis && !values_rotate && (forall|i: int| !rotates(g, keys, i)) ==> {
                &&& g.fusable(node)
                &&& g.key_axis(node) == kc.op->Cache_0.axis
                &&& g.fused_inputs(node) == seq![q, kc.inputs@[0], vc.inputs@[0]]
            }
            &&& forall|i: int|
                same_axis && !values_rotate && #[trigger] rotates(g, keys, i) && (forall|j: int|
                    #[trigger] rotates(g, keys, j) ==> j == i) ==> {
                    let r = g.nodes@[keys[i].node as int];
                    &&& g.fusable(node)
                    &&& g.key_axis(node) == kc.op->Cache_0.axis
                    &&& g.fused_inputs(node) == seq![
                        q,
                        kc.inputs@[0],
                        vc.inputs@[0],
                        r.inputs@[1],
                        r.inputs@[2],
                    ]
                }
        }),
{
    lemma_path_is_walked(g, keys);
    lemma_path_is_walked(g, values);
    let q = g.nodes@[node as int].inputs@[0];
    let (kc, vc) = (g.nodes@[keys.last().node as int], g.nodes@[values.last().node as int]);
    let same_axis = kc.op->Cache_0.axis == vc.op->Cache_0.axis;
    let values_rotate = exists|i: int| rotates(g, values, i);
    if same_axis && !values_rotate && (forall|i: int| !rotates(g, keys, i)) {
        assert(g.fused_inputs(node) =~= seq![q, kc.inputs@[0], vc.inputs@[0]]);
    }
    assert forall|i: int|
        same_axis && !values_rotate && #[trigger] rotates(g, keys, i) && (forall|j: int|
            #[trigger] rotates(g, keys, j) ==> j == i) implies {
        let r = g.nodes@[keys[i].node as int];
        &&& g.fusable(node)
        &&& g.key_axis(node) == kc.op->Cache_0.axis
        &&& g.fused_inputs(node) == seq![
            q,
            kc.inputs@[0],
            vc.inputs@[0],
            r.inputs@[1],
            r.inputs@[2],
        ]
    } by {
        let r = g.nodes@[keys[i].node as int];
        assert(g.rotations(keys[0]) == seq![(r.inputs@[1], r.inputs@[2])]);
        assert(g.fused_inputs(node) =~= seq![
            q,
            kc.inputs@[0],
            vc.inputs@[0],
            r.inputs@[1],
            r.inputs@[2],
        ]);
    }
}

/// Nothing is replaced where the attention has neither three nor four inputs, or
/// where no path leads from its keys, or from its values, to a cache.
pub proof fn law_without_a_path_nothing_is_replaced<T: Scalar, D: DimLike>(
    g: &Graph<T, D>,
    node: usize,
)
    requires
        g.wf(),
        node < g.nodes@.len(),
    ensures
        ({
            let inputs = g.nodes@[node as int].inputs@;
            let found = |o: OutletId|
                exists|path: Seq<OutletId>| #[trigger] leads_to_cache(g, path) && path[0] == o;
            &&& inputs.len() != 3 && inputs.len() != 4 ==> !g.fusable(node) && !g.storable(node)
            &&& inputs.len() == 3 || inputs.len() == 4 ==> {
                &&& !found(inputs[1]) || !found(inputs[2]) ==> !g.fusable(node) && !g.storable(
                    node,
                )
            }
        }),
{
    let inputs = g.nodes@[node as int].inputs@;
    if inputs.len() == 3 || inputs.len() == 4 {
        assert(g.has(inputs[1]) && g.has(inputs[2]));
        law_cache_is_found_where_a_path_leads(g, inputs[1]);
        law_cache_is_found_where_a_path_leads(g, inputs[2]);
    }
}

/// Caches are kept in low precision where paths lead from the keys to one and
/// from the values to another.
pub proof fn law_two_caches_are_stored<T: Scalar, D: DimLike>(
    g: &Graph<T, D>,
    node: usize,
    keys: Seq<OutletId>,
    values: Seq<OutletId>,
)
    requires
        g.wf(),
        node < g.nodes@.len(),
        g.nodes@[node as int].inputs@.len() == 3 || g.nodes@[node as int].inputs@.len() == 4,
        leads_to_cache(g, keys),
        leads_to_cache(g, values),
        keys[0] == g.nodes@[node as int].inputs@[1],
        values[0] == g.nodes@[node as int].inputs@[2],
    ensures
        g.storable(node) == (keys.last().node != values.last().node),
        g.cache_behind(g.nodes@[node as int].inputs@[1]) == Some(keys.last().node),
        g.cache_behind(g.nodes@[node as int].inputs@[2]) == Some(values.last().node),
{
    lemma_path_is_walked(g, keys);
    lemma_path_is_walked(g, values);
}

/// What takes the place of a cache goes by its name, grows along its axis, knows
/// the same of past and input, and reads what it read; only the width of its
/// codes and the way they are spread are new.
pub proof fn law_low_precision_cache_is_like_the_cache<T: Scalar, D: DimLike>(
    g: &Graph<T, D>,
    node: usize,
    p: &Replacement<QuantizedDynKeyValueCache<D>>,
    per_channel: bool,
    bits: u32,
)
    requires
        g.stores_in_low_precision(node, p, per_channel, bits),
    ensures
        ({
            let n = g.nodes@[node as int];
            let c = n.op->Cache_0;
            &&& p.name@ == n.name@ + ".quant"@
            &&& p.op.name@ == c.name@
            &&& p.op.axis == c.axis
            &&& p.op.past_sequence_fact@ == c.past_sequence_fact@
            &&& p.op.input_sequence_fact@ == c.input_sequence_fact@
            &&& p.op.bits == bits
            &&& p.op.per_channel == per_channel
            &&& p.inputs@.len() == 1
            &&& p.inputs@[0] == n.inputs@[0]
            &&& p.replaces.node == node
            &&& p.replaces.slot == 0
        }),
{
}

/// One step of a transform.
#[derive(Clone, Copy, Debug, PartialEq, Eq, Structural)]
pub enum Pass {
    /// Gather rotations into single nodes.
    ApplyRope,
    /// Make caches of the model's state.
    KeyValueCache,
    /// Apply [`fuse_quantized_kv_sdpa_rule`] to every attention.
    FuseQuantKvSdpa { bits: u32 },
    /// Apply [`quantize_kv_storage_rule`] to every attention.
    QuantizeKvStorage { bits: u32 },
    /// Drop what nothing reads any more.
    Compact,
}

/// Fuses every attention with its caches, at a width of 4 or 8 bits.
#[derive(Clone, Copy, Debug)]
pub struct QuantizedKvSdpaTransform {
    pub bits: u32,
}

impl Default for QuantizedKvSdpaTransform {
    fn default() -> (r: Self)
        ensures
            r.bits == 8,
    {
        QuantizedKvSdpaTransform { bits: 8 }
    }
}

impl QuantizedKvSdpaTransform {
    /// The transform's name.
    pub fn name(&self) -> (r: &'static str)
        ensures
            r@ == "fuse_quantized_kv_sdpa"@,
    {
        "fuse_quantized_kv_sdpa"
    }

    /// The steps to take, in order.
    pub fn transform(&self) -> (r: Result<Vec<Pass>, RuleError>)
        ensures
            self.bits != 4 && self.bits != 8 ==> r == Err::<Vec<Pass>, RuleError>(RuleError::Bits),
            self.bits == 4 || self.bits == 8 ==> r is Ok && r->Ok_0@ == seq![
                Pass::ApplyRope,
                Pass::KeyValueCache,
                Pass::FuseQuantKvSdpa { bits: self.bits },
                Pass::Compact,
            ],
    {
        if self.bits != 4 && self.bits != 8 {
            return Err(RuleError::Bits);
        }
        Ok(
            vec![
                Pass::ApplyRope,
                Pass::KeyValueCache,
                Pass::FuseQuantKvSdpa { bits: self.bits },
                Pass::Compact,
            ],
        )
    }
}

/// Keeps every attention's caches in low precision, at a width of 4 or 8 bits.
#[derive(Clone, Copy, Debug)]
pub struct QuantizeKvStorageTransform {
    pub bits: u32,
}

impl Default for QuantizeKvStorageTransform {
    fn default() -> (r: Self)
        ensures
            r.bits == 8,
    {
        QuantizeKvStorageTransform { bits: 8 }
    }
}

impl QuantizeKvStorageTransform {
    /// The transform's name.
    pub fn name(&self) -> (r: &'static str)
        ensures
            r@ == "quantize_kv_storage"@,
    {
        "quantize_kv_storage"
    }

    /// The steps to take, in order.
    pub fn transform(&self) -> (r: Result<Vec<Pass>, RuleError>)
        ensures
            self.bits != 4 && self.bits != 8 ==> r == Err::<Vec<Pass>, RuleError>(RuleError::Bits),
            self.bits == 4 || self.bits == 8 ==> r is Ok && r->Ok_0@ == seq![
                Pass::ApplyRope,
                Pass::KeyValueCache,
                Pass::QuantizeKvStorage { bits: self.bits },
                Pass::Compact,
            ],
    {
        if self.bits != 4 && self.bits != 8 {
            return Err(RuleError::Bits);
        }
        Ok(
            vec![
                Pass::ApplyRope,
                Pass::KeyValueCache,
                Pass::QuantizeKvStorage { bits: self.bits },
                Pass::Compact,
            ],
        )
    }
}

} // verus!
