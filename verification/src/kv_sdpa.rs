//! Attention with a key and value cache of its own, in low precision.

use vstd::prelude::*;

use crate::attention;
use crate::dims::DimLike;
use crate::dims;
use crate::fact::TypedFact;
use crate::kv_cache::{ChannelKeys, QuantKeyCache, QuantValueCache, ValueToken};
use crate::graph::OutletId;
use crate::kv_cache;
use crate::nnef;
use crate::nnef::{Attribute, AttributeValue, Invocation, Primitive, ReadError, TypeName};
use crate::packing;
use crate::rope::RopeError;
use crate::rope;
use crate::scalar::Scalar;
use crate::scalar;
use crate::tensor::{Matrix, NdArray};
use crate::text;
use crate::tensor;

verus! {

/// Why inputs are refused.
#[derive(Clone, Copy, Debug, PartialEq, Eq, Structural)]
pub enum SdpaError {
    /// There are neither three nor five inputs.
    InputCount,
    /// The input at this place is not of rank 4.
    Rank(usize),
    /// The table of cosines does not fit.
    Cos(RopeError),
    /// The table of sines does not fit.
    Sin(RopeError),
}

/// Attention that caches the keys and values it is given: queries, new keys and
/// new values come in, and optionally the cosines and sines by which keys are
/// rotated as they are read.
#[derive(Clone, Debug, PartialEq)]
pub struct QuantizedKvSdpa<T> {
    pub axis: usize,
    pub scale: Option<T>,
    pub bits: u32,
    pub is_causal: bool,
}

/// The rows of one head, in the order of their tokens.
pub open spec fn head_rows<T>(x: &NdArray<T>, bi: int, hi: int, n: int) -> Seq<Seq<T>> {
    Seq::new(n as nat, |t: int| x.row4(bi, hi, t))
}

/// Keys after some rows were appended.
pub open spec fn keys_fed<T: Scalar>(
    keys: ChannelKeys<T>,
    rows: Seq<Seq<T>>,
    bits: u32,
) -> ChannelKeys<T>
    decreases rows.len(),
{
    if rows.len() == 0 {
        keys
    } else {
        keys_fed(keys, rows.drop_last(), bits).pushed(rows.last(), bits)
    }
}

/// Values after some rows were appended.
pub open spec fn values_fed<T: Scalar>(
    tokens: Seq<ValueToken<T>>,
    rows: Seq<Seq<T>>,
    bits: u32,
) -> Seq<ValueToken<T>> {
    tokens + rows.map_values(|v: Seq<T>| kv_cache::value_token(v, bits))
}

/// Appending rows adds that many tokens and leaves the earlier codes.
pub proof fn law_feeding_keys_appends<T: Scalar>(
    keys: ChannelKeys<T>,
    rows: Seq<Seq<T>>,
    bits: u32,
)
    ensures
        keys_fed(keys, rows, bits).codes.len() == keys.codes.len() + rows.len(),
        forall|t: int|
            0 <= t < keys.codes.len() ==> #[trigger] keys_fed(keys, rows, bits).codes[t]
                == keys.codes[t],
    decreases rows.len(),
{
    if rows.len() > 0 {
        law_feeding_keys_appends(keys, rows.drop_last(), bits);
    }
}

/// Feeding rows in two parts is feeding them at once.
pub proof fn law_feeding_keys_in_parts<T: Scalar>(
    keys: ChannelKeys<T>,
    first: Seq<Seq<T>>,
    second: Seq<Seq<T>>,
    bits: u32,
)
    ensures
        keys_fed(keys_fed(keys, first, bits), second, bits) == keys_fed(
            keys,
            first + second,
            bits,
        ),
    decreases second.len(),
{
    if second.len() == 0 {
        assert(first + second =~= first);
    } else {
        law_feeding_keys_in_parts(keys, first, second.drop_last(), bits);
        assert((first + second).drop_last() =~= first + second.drop_last());
    }
}

/// The keys of all heads after the new keys were appended to theirs.
pub open spec fn all_keys_fed<T: Scalar>(
    start: Seq<ChannelKeys<T>>,
    k: &NdArray<T>,
    bits: u32,
) -> Seq<ChannelKeys<T>> {
    let kh = k.shape@[1] as int;
    Seq::new(
        start.len(),
        |i: int|
            if i < k.shape@[0] * kh {
                keys_fed(start[i], head_rows(k, i / kh, i % kh, k.shape@[2] as int), bits)
            } else {
                start[i]
            },
    )
}

/// The values of all heads after as many new values as keys were appended.
pub open spec fn all_values_fed<T: Scalar>(
    start: Seq<Seq<ValueToken<T>>>,
    k: &NdArray<T>,
    v: &NdArray<T>,
    bits: u32,
) -> Seq<Seq<ValueToken<T>>> {
    let kh = k.shape@[1] as int;
    Seq::new(
        start.len(),
        |i: int|
            if i < k.shape@[0] * kh {
                values_fed(start[i], head_rows(v, i / kh, i % kh, k.shape@[2] as int), bits)
            } else {
                start[i]
            },
    )
}

/// The running state of [`QuantizedKvSdpa`]: a cache of keys and a cache of
/// values for every head of every batch.
#[derive(Clone, Debug)]
pub struct QuantizedKvSdpaState<T> {
    pub scale: Option<T>,
    pub bits: u32,
    pub is_causal: bool,
    pub k_caches: Vec<QuantKeyCache<T>>,
    pub v_caches: Vec<QuantValueCache<T>>,
    pub initialized: bool,
}

impl<T: Scalar> QuantizedKvSdpaState<T> {
    /// The cached keys, head by head.
    pub open spec fn keys(&self) -> Seq<ChannelKeys<T>> {
        Seq::new(self.k_caches@.len(), |i: int| self.k_caches@[i]@)
    }

    /// The cached values, head by head.
    pub open spec fn values(&self) -> Seq<Seq<ValueToken<T>>> {
        Seq::new(self.v_caches@.len(), |i: int| self.v_caches@[i]@)
    }

    /// Whether the caches are valid, alike in width, and hold as many values as
    /// keys.
    pub open spec fn wf(&self) -> bool {
        &&& self.k_caches@.len() == self.v_caches@.len()
        &&& !self.initialized ==> self.k_caches@.len() == 0
        &&& forall|i: int|
            0 <= i < self.k_caches@.len() ==> {
                &&& (#[trigger] self.k_caches@[i]).wf()
                &&& self.k_caches@[i].bits == self.bits
                &&& self.k_caches@[i].d == self.k_caches@[0].d
            }
        &&& forall|i: int|
            0 <= i < self.k_caches@.len() ==> {
                &&& (#[trigger] self.v_caches@[i]).wf()
                &&& self.v_caches@[i].bits == self.bits
                &&& self.v_caches@[i].d == self.k_caches@[0].d
                &&& self.v_caches@[i]@.len() == self.k_caches@[i]@.codes.len()
            }
    }

    /// The keys that new ones are appended to: before the first call there is
    /// an empty cache for every head of every batch.
    pub open spec fn start_keys(&self, k: &NdArray<T>) -> Seq<ChannelKeys<T>> {
        if self.initialized {
            self.keys()
        } else {
            Seq::new(
                (k.shape@[0] * k.shape@[1]) as nat,
                |i: int| kv_cache::no_keys(k.shape@[3] as nat),
            )
        }
    }

    /// The values that new ones are appended to.
    pub open spec fn start_values(&self, k: &NdArray<T>) -> Seq<Seq<ValueToken<T>>> {
        if self.initialized {
            self.values()
        } else {
            Seq::new((k.shape@[0] * k.shape@[1]) as nat, |i: int| Seq::empty())
        }
    }

    /// The width of the cached vectors.
    pub open spec fn width(&self, k: &NdArray<T>) -> usize {
        if self.initialized {
            self.k_caches@[0].d
        } else {
            k.shape@[3]
        }
    }

    /// Whether the caches can take these keys and values: there is a cache for
    /// each head, and every head has as many values as keys, of the same width.
    pub open spec fn takes(&self, k: &NdArray<T>, v: &NdArray<T>) -> bool {
        let heads = k.shape@[0] * k.shape@[1];
        let start = self.start_keys(k);
        &&& k.wf() && k.is_rank4()
        &&& v.wf() && v.is_rank4()
        &&& heads <= start.len() <= usize::MAX
        &&& !self.initialized ==> packing::packable(k.shape@[3] as nat, self.bits)
        &&& !self.initialized ==> k.shape@[3] * self.bits <= usize::MAX
        &&& heads > 0 ==> {
            &&& k.shape@[0] <= v.shape@[0]
            &&& k.shape@[1] <= v.shape@[1]
            &&& k.shape@[2] <= v.shape@[2]
        }
        &&& heads > 0 && k.shape@[2] > 0 ==> {
            &&& k.shape@[3] == self.width(k)
            &&& v.shape@[3] == self.width(k)
        }
        &&& forall|i: int|
            0 <= i < heads ==> (#[trigger] start[i]).codes.len() + k.shape@[2] <= usize::MAX
    }

    /// Appends the new keys and values to the caches of their heads.
    fn feed(&mut self, k: &NdArray<T>, v: &NdArray<T>)
        requires
            scalar::lawful::<T>(),
            old(self).wf(),
            old(self).takes(k, v),
        ensures
            final(self).wf(),
            final(self).initialized,
            final(self).scale == old(self).scale,
            final(self).bits == old(self).bits,
            final(self).is_causal == old(self).is_causal,
            final(self).keys() == all_keys_fed(old(self).start_keys(k), k, old(self).bits),
            final(self).values() == all_values_fed(
                old(self).start_values(k),
                k,
                v,
                old(self).bits,
            ),
            final(self).k_caches@.len() > 0 ==> final(self).k_caches@[0].d == old(self).width(k),
    {
        let (b, kh, snew, d): (usize, usize, usize, usize) = (
            k.shape[0],
            k.shape[1],
            k.shape[2],
            k.shape[3],
        );
        let ghost start_k = self.start_keys(k);
        let ghost start_v = self.start_values(k);
        let ghost width = self.width(k);
        proof {
            assert(0 <= b * kh) by (nonlinear_arith);
        }
        let heads: usize = b * kh;
        let bits: u32 = self.bits;
        if !self.initialized {
            let mut i: usize = 0;
            while i < heads
                invariant
                    scalar::lawful::<T>(),
                    packing::packable(d as nat, bits),
                    d * bits <= usize::MAX,
                    i <= heads,
                    *self == (QuantizedKvSdpaState {
                        k_caches: self.k_caches,
                        v_caches: self.v_caches,
                        ..*old(self)
                    }),
                    bits == self.bits,
                    self.k_caches@.len() == i,
                    self.v_caches@.len() == i,
                    forall|j: int|
                        0 <= j < i ==> {
                            &&& (#[trigger] self.k_caches@[j]).wf()
                            &&& self.k_caches@[j].bits == bits
                            &&& self.k_caches@[j].d == d
                            &&& self.k_caches@[j]@ == kv_cache::no_keys::<T>(d as nat)
                        },
                    forall|j: int|
                        0 <= j < i ==> {
                            &&& (#[trigger] self.v_caches@[j]).wf()
                            &&& self.v_caches@[j].bits == bits
                            &&& self.v_caches@[j].d == d
                            &&& self.v_caches@[j]@ == Seq::<ValueToken<T>>::empty()
                        },
                decreases heads - i,
            {
                self.k_caches.push(QuantKeyCache::with_bits(d, bits));
                self.v_caches.push(QuantValueCache::with_bits(d, bits));
                i += 1;
            }
            self.initialized = true;
        }
        assert(self.keys() =~= start_k);
        assert(self.values() =~= start_v);
        assert(self.wf());
        let mut i: usize = 0;
        while i < heads
            invariant
                scalar::lawful::<T>(),
                self.wf(),
                self.initialized,
                self.scale == old(self).scale,
                self.bits == bits,
                bits == old(self).bits,
                self.is_causal == old(self).is_causal,
                old(self).takes(k, v),
                start_k == old(self).start_keys(k),
                start_v == old(self).start_values(k),
                width == old(self).width(k),
                heads == b * kh,
                b == k.shape@[0],
                kh == k.shape@[1],
                snew == k.shape@[2],
                d == k.shape@[3],
                heads <= start_k.len(),
                i <= heads,
                self.k_caches@.len() == start_k.len(),
                start_v.len() == start_k.len(),
                self.k_caches@.len() > 0 ==> self.k_caches@[0].d == width,
                forall|j: int|
                    0 <= j < self.k_caches@.len() ==> (#[trigger] self.k_caches@[j])@ == if j < i {
                        all_keys_fed(start_k, k, bits)[j]
                    } else {
                        start_k[j]
                    },
                forall|j: int|
                    0 <= j < self.k_caches@.len() ==> (#[trigger] self.v_caches@[j])@ == if j < i {
                        all_values_fed(start_v, k, v, bits)[j]
                    } else {
                        start_v[j]
                    },
            decreases heads - i,
        {
            proof {
                lemma_head_of(i as int, b as int, kh as int);
            }
            let bi: usize = i / kh;
            let hi: usize = i % kh;
            let ghost before = *self;
            let ghost k_rows = head_rows(k, bi as int, hi as int, snew as int);
            let ghost v_rows = head_rows(v, bi as int, hi as int, snew as int);
            self.feed_head(i, k, v, bi, hi);
            proof {
                assert(start_k[i as int].codes.len() + snew <= usize::MAX);
                assert(self.k_caches@[i as int]@ == keys_fed(start_k[i as int], k_rows, bits));
                assert(self.k_caches@[i as int]@ == all_keys_fed(start_k, k, bits)[i as int]);
                assert(self.v_caches@[i as int]@ == all_values_fed(start_v, k, v, bits)[i as int]);
            }
            i += 1;
        }
        assert(self.keys() =~= all_keys_fed(start_k, k, bits));
        assert(self.values() =~= all_values_fed(start_v, k, v, bits));
    }

    /// Appends the new tokens of one head to its caches.
    fn feed_head(&mut self, i: usize, k: &NdArray<T>, v: &NdArray<T>, bi: usize, hi: usize)
        requires
            scalar::lawful::<T>(),
            old(self).wf(),
            i < old(self).k_caches@.len(),
            k.wf() && k.is_rank4(),
            v.wf() && v.is_rank4(),
            bi < k.shape@[0],
            hi < k.shape@[1],
            bi < v.shape@[0],
            hi < v.shape@[1],
            k.shape@[2] <= v.shape@[2],
            k.shape@[2] > 0 ==> k.shape@[3] == old(self).k_caches@[0].d,
            k.shape@[2] > 0 ==> v.shape@[3] == old(self).k_caches@[0].d,
            old(self).k_caches@[i as int]@.codes.len() + k.shape@[2] <= usize::MAX,
        ensures
            final(self).wf(),
            final(self).initialized == old(self).initialized,
            final(self).scale == old(self).scale,
            final(self).bits == old(self).bits,
            final(self).is_causal == old(self).is_causal,
            final(self).k_caches@.len() == old(self).k_caches@.len(),
            final(self).k_caches@[0].d == old(self).k_caches@[0].d,
            final(self).k_caches@[i as int]@ == keys_fed(
                old(self).k_caches@[i as int]@,
                head_rows(k, bi as int, hi as int, k.shape@[2] as int),
                old(self).bits,
            ),
            final(self).v_caches@[i as int]@ == values_fed(
                old(self).v_caches@[i as int]@,
                head_rows(v, bi as int, hi as int, k.shape@[2] as int),
                old(self).bits,
            ),
            forall|j: int|
                0 <= j < old(self).k_caches@.len() && j != i ==> #[trigger] final(self).k_caches@[j]
                    == old(self).k_caches@[j],
            forall|j: int|
                0 <= j < old(self).k_caches@.len() && j != i ==> #[trigger] final(self).v_caches@[j]
                    == old(self).v_caches@[j],
    {
        let snew: usize = k.shape[2];
        let ghost bits = self.bits;
        let ghost k_rows = head_rows(k, bi as int, hi as int, snew as int);
        let ghost v_rows = head_rows(v, bi as int, hi as int, snew as int);
        let ghost k_old = self.k_caches@[i as int]@;
        let ghost v_old = self.v_caches@[i as int]@;
        proof {
            assert(k_rows.take(0) =~= Seq::<Seq<T>>::empty());
            assert(values_fed(v_old, v_rows.take(0), bits) =~= v_old);
        }
        let mut t: usize = 0;
        while t < snew
            invariant
                scalar::lawful::<T>(),
                self.wf(),
                i < self.k_caches@.len(),
                k.wf() && k.is_rank4(),
                v.wf() && v.is_rank4(),
                bi < k.shape@[0],
                hi < k.shape@[1],
                bi < v.shape@[0],
                hi < v.shape@[1],
                snew == k.shape@[2],
                snew <= v.shape@[2],
                snew > 0 ==> k.shape@[3] == self.k_caches@[0].d,
                snew > 0 ==> v.shape@[3] == self.k_caches@[0].d,
                k_old.codes.len() + snew <= usize::MAX,
                self.k_caches@.len() == old(self).k_caches@.len(),
                self.initialized == old(self).initialized,
                self.scale == old(self).scale,
                self.bits == old(self).bits,
                bits == self.bits,
                self.is_causal == old(self).is_causal,
                self.k_caches@[0].d == old(self).k_caches@[0].d,
                k_rows == head_rows(k, bi as int, hi as int, snew as int),
                v_rows == head_rows(v, bi as int, hi as int, snew as int),
                k_old == old(self).k_caches@[i as int]@,
                v_old == old(self).v_caches@[i as int]@,
                t <= snew,
                self.k_caches@[i as int]@ == keys_fed(k_old, k_rows.take(t as int), bits),
                self.v_caches@[i as int]@ == values_fed(v_old, v_rows.take(t as int), bits),
                forall|j: int|
                    0 <= j < old(self).k_caches@.len() && j != i ==> #[trigger] self.k_caches@[j]
                        == old(self).k_caches@[j],
                forall|j: int|
                    0 <= j < old(self).k_caches@.len() && j != i ==> #[trigger] self.v_caches@[j]
                        == old(self).v_caches@[j],
            decreases snew - t,
        {
            let ghost before = *self;
            proof {
                law_feeding_keys_appends(k_old, k_rows.take(t as int), bits);
                let (ka, kb) = (k_rows.take(t + 1), k_rows.take(t as int));
                assert(ka.drop_last() =~= kb);
                assert(ka.last() == k.row4(bi as int, hi as int, t as int));
            }
            let k_row = k.row4_ref(bi, hi, t);
            let v_row = v.row4_ref(bi, hi, t);
            let kc = &mut self.k_caches[i];
            kc.push_token(k_row);
            let vc = &mut self.v_caches[i];
            vc.push_token(v_row);
            proof {
                assert(values_fed(v_old, v_rows.take(t + 1), bits) =~= values_fed(
                    v_old,
                    v_rows.take(t as int),
                    bits,
                ).push(kv_cache::value_token(v_row@, bits)));
                assert(self.k_caches@[i as int].wf());
                assert(self.v_caches@[i as int].wf());
                assert(self.wf());
            }
            t += 1;
        }
        assert(k_rows.take(snew as int) =~= k_rows);
        assert(v_rows.take(snew as int) =~= v_rows);
    }
}

/// What the inputs are refused for before anything is cached, if anything.
pub open spec fn refusal<T>(inputs: Seq<NdArray<T>>) -> Option<SdpaError> {
    if inputs.len() != 3 && inputs.len() != 5 {
        Some(SdpaError::InputCount)
    } else if !inputs[0].is_rank4() {
        Some(SdpaError::Rank(0))
    } else if !inputs[1].is_rank4() {
        Some(SdpaError::Rank(1))
    } else if !inputs[2].is_rank4() {
        Some(SdpaError::Rank(2))
    } else {
        None
    }
}

/// What the tables of a rotation are refused for, with `t` tokens cached, if
/// anything. By then the new tokens have been cached.
pub open spec fn table_refusal<T>(inputs: Seq<NdArray<T>>, t: usize) -> Option<SdpaError> {
    let d = inputs[0].shape@[3];
    if inputs.len() != 5 {
        None
    } else {
        match rope::refusal(inputs[3].shape@, t, d) {
            Some(e) => Some(SdpaError::Cos(e)),
            None => match rope::refusal(inputs[4].shape@, t, d) {
                Some(e) => Some(SdpaError::Sin(e)),
                None => None,
            },
        }
    }
}

/// Whether every leading axis of a table has a first entry.
pub open spec fn has_first_plane<T>(x: &NdArray<T>) -> bool {
    &&& x.wf()
    &&& forall|i: int| 0 <= i < x.shape@.len() - 2 ==> #[trigger] x.shape@[i] > 0
}

/// The rows of the first plane of a tensor that ends in the axes `[t, d]`.
pub open spec fn first_plane<T>(x: &NdArray<T>, t: usize, d: usize) -> Seq<Seq<T>> {
    Seq::new(t as nat, |i: int| x.data@.subrange(i * d, i * d + d))
}

/// The tables that keys are rotated by, with `t` tokens cached.
pub open spec fn rotation<T>(inputs: Seq<NdArray<T>>, t: usize) -> Option<
    (Seq<Seq<T>>, Seq<Seq<T>>),
> {
    let d = inputs[0].shape@[3];
    if inputs.len() == 5 {
        Some((first_plane(&inputs[3], t, d), first_plane(&inputs[4], t, d)))
    } else {
        None
    }
}

/// The factor that scores are scaled by.
pub open spec fn score_scale<T: Scalar>(scale: Option<T>, head_dim: usize) -> T {
    match scale {
        Some(s) => s,
        None => T::of_count_spec(head_dim).reciprocal_spec().square_root_spec(),
    }
}

impl<T: Scalar> QuantizedKvSdpaState<T> {
    /// The number of tokens that the first head holds once the new keys are in.
    pub open spec fn tokens_after(&self, k: &NdArray<T>) -> int {
        all_keys_fed(self.start_keys(k), k, self.bits)[0].codes.len() as int
    }

    /// Whether the state can serve these inputs: the caches can take the keys
    /// and values, and the queries attend to caches that exist, are of their
    /// width and long enough.
    pub open spec fn serves(&self, inputs: Seq<NdArray<T>>) -> bool {
        let q = inputs[0];
        let k = &inputs[1];
        let fed = all_keys_fed(self.start_keys(k), k, self.bits);
        let t = self.tokens_after(k);
        &&& self.takes(k, &inputs[2])
        &&& fed.len() > 0
        &&& t <= usize::MAX
        &&& inputs.len() == 5 ==> has_first_plane(&inputs[3])
        &&& inputs.len() == 5 && rope::refusal(inputs[3].shape@, t as usize, q.shape@[3]) is None
            ==> has_first_plane(&inputs[4])
        &&& table_refusal(inputs, t as usize) is None ==> {
            &&& q.wf()
            &&& k.shape@[1] > 0
            &&& q.shape@[1] as int % k.shape@[1] as int == 0
            &&& q.shape@[0] * k.shape@[1] <= fed.len()
            &&& q.shape@[3] == self.width(k)
            &&& q.shape@[3] * 32 <= usize::MAX
            &&& self.is_causal ==> q.shape@[2] <= t
            &&& forall|i: int|
                0 <= i < q.shape@[0] * k.shape@[1] ==> t <= (#[trigger] fed[i]).codes.len()
        }
    }

    /// What a call with these inputs answers, `keys` and `values` being cached.
    pub open spec fn answers(
        &self,
        inputs: Seq<NdArray<T>>,
        keys: Seq<ChannelKeys<T>>,
        values: Seq<Seq<ValueToken<T>>>,
        o: &NdArray<T>,
    ) -> bool {
        let q = &inputs[0];
        let hkv = inputs[1].shape@[1] as int;
        &&& o.wf()
        &&& o.shape@ == q.shape@
        &&& forall|bi: int, qh: int, i: int|
            0 <= bi < q.shape@[0] && 0 <= qh < q.shape@[1] && 0 <= i < q.shape@[2]
                ==> #[trigger] o.row4(bi, qh, i) == attention::head_row(
                q,
                (keys[attention::cache_of(bi, qh, q.shape@[1] as int, hkv)], self.bits),
                (values[attention::cache_of(bi, qh, q.shape@[1] as int, hkv)], self.bits),
                bi,
                qh,
                i,
                keys[0].codes.len() as usize,
                score_scale(self.scale, q.shape@[3]),
                rotation(inputs, keys[0].codes.len() as usize),
                self.is_causal,
            )
    }

    /// Caches the new keys and values, then answers the queries.
    pub fn eval(&mut self, inputs: &[NdArray<T>]) -> (r: Result<NdArray<T>, SdpaError>)
        requires
            scalar::lawful::<T>(),
            old(self).wf(),
            refusal(inputs@) is None ==> old(self).serves(inputs@),
        ensures
            final(self).wf(),
            final(self).scale == old(self).scale,
            final(self).bits == old(self).bits,
            final(self).is_causal == old(self).is_causal,
            refusal(inputs@) is Some ==> *final(self) == *old(self) && r == Err::<
                NdArray<T>,
                SdpaError,
            >(refusal(inputs@)->0),
            refusal(inputs@) is None ==> {
                let t = final(self).keys()[0].codes.len() as usize;
                &&& final(self).initialized
                &&& final(self).keys() == all_keys_fed(
                    old(self).start_keys(&inputs@[1]),
                    &inputs@[1],
                    old(self).bits,
                )
                &&& final(self).values() == all_values_fed(
                    old(self).start_values(&inputs@[1]),
                    &inputs@[1],
                    &inputs@[2],
                    old(self).bits,
                )
                &&& match table_refusal(inputs@, t) {
                    Some(e) => r == Err::<NdArray<T>, SdpaError>(e),
                    None => r is Ok && final(self).answers(
                        inputs@,
                        final(self).keys(),
                        final(self).values(),
                        &r->Ok_0,
                    ),
                }
            },
    {
        let n: usize = inputs.len();
        if n != 3 && n != 5 {
            return Err(SdpaError::InputCount);
        }
        if inputs[0].shape.len() != 4 {
            return Err(SdpaError::Rank(0));
        }
        if inputs[1].shape.len() != 4 {
            return Err(SdpaError::Rank(1));
        }
        if inputs[2].shape.len() != 4 {
            return Err(SdpaError::Rank(2));
        }
        let (q, k, v) = (&inputs[0], &inputs[1], &inputs[2]);
        self.feed(k, v);
        assert(self.keys()[0] == self.k_caches@[0]@);
        let t: usize = self.k_caches[0].len();
        let head_dim: usize = q.shape[3];
        let tables: Option<(Matrix<T>, Matrix<T>)> = if n == 5 {
            let cos = match rope::reduce_cos_sin(&inputs[3], t, head_dim) {
                Ok(m) => m,
                Err(e) => return Err(SdpaError::Cos(e)),
            };
            let sin = match rope::reduce_cos_sin(&inputs[4], t, head_dim) {
                Ok(m) => m,
                Err(e) => return Err(SdpaError::Sin(e)),
            };
            Some((cos, sin))
        } else {
            None
        };
        let scale: T = match self.scale {
            Some(s) => s,
            None => scalar::square_root(scalar::reciprocal(scalar::of_count(head_dim))),
        };
        let table: Option<(&Matrix<T>, &Matrix<T>)> = match &tables {
            Some((cos, sin)) => Some((cos, sin)),
            None => None,
        };
        proof {
            let fed = all_keys_fed(old(self).start_keys(k), k, old(self).bits);
            assert forall|i: int| 0 <= i < q.shape@[0] * k.shape@[1] implies {
                &&& (#[trigger] self.k_caches@[i]).wf()
                &&& self.k_caches@[i].d == head_dim
                &&& t <= self.k_caches@[i]@.codes.len()
            } by {
                assert(self.keys()[i] == self.k_caches@[i]@);
                assert(fed[i] == self.k_caches@[i]@);
            }
            assert forall|i: int| 0 <= i < q.shape@[0] * k.shape@[1] implies {
                &&& (#[trigger] self.v_caches@[i]).wf()
                &&& self.v_caches@[i].d == head_dim
                &&& t <= self.v_caches@[i]@.len()
            } by {
                assert(fed[i] == self.k_caches@[i]@);
            }
        }
        let o = attention::flash_attention_quant(
            q,
            self.k_caches.as_slice(),
            self.v_caches.as_slice(),
            k.shape[1],
            t,
            scale,
            table,
            self.is_causal,
        );
        proof {
            let hkv = k.shape@[1] as int;
            let hq = q.shape@[1] as int;
            if let Some((cos, sin)) = tables {
                lemma_first_plane(&cos, &inputs@[3], t, head_dim);
                lemma_first_plane(&sin, &inputs@[4], t, head_dim);
            }
            assert(attention::tables(table) == rotation(inputs@, t));
            assert forall|bi: int, qh: int, i: int|
                0 <= bi < q.shape@[0] && 0 <= qh < q.shape@[1] && 0 <= i < q.shape@[2]
                implies #[trigger] o.row4(bi, qh, i) == attention::head_row(
                q,
                (self.keys()[attention::cache_of(bi, qh, hq, hkv)], self.bits),
                (self.values()[attention::cache_of(bi, qh, hq, hkv)], self.bits),
                bi,
                qh,
                i,
                t,
                scale,
                rotation(inputs@, t),
                self.is_causal,
            ) by {
                attention::lemma_group(bi, qh, q.shape@[0] as int, hq, hkv);
                let c = attention::cache_of(bi, qh, hq, hkv);
                assert(self.keys()[c] == self.k_caches@[c]@);
                assert(self.values()[c] == self.v_caches@[c]@);
            }
            assert(self.answers(inputs@, self.keys(), self.values(), &o));
        }
        Ok(o)
    }
}

/// A state at rest.
#[derive(Clone, Debug)]
pub struct FrozenQuantizedKvSdpaState<T> {
    pub scale: Option<T>,
    pub bits: u32,
    pub is_causal: bool,
    pub k_caches: Vec<QuantKeyCache<T>>,
    pub v_caches: Vec<QuantValueCache<T>>,
    pub initialized: bool,
}

/// Whether the caches of keys are copies of one another.
pub open spec fn same_key_caches<T: Scalar>(
    a: Seq<QuantKeyCache<T>>,
    b: Seq<QuantKeyCache<T>>,
) -> bool {
    &&& a.len() == b.len()
    &&& forall|i: int|
        0 <= i < a.len() ==> {
            &&& (#[trigger] a[i])@ == b[i]@
            &&& a[i].d == b[i].d
            &&& a[i].bits == b[i].bits
            &&& a[i].wf() == b[i].wf()
        }
}

/// Whether the caches of values are copies of one another.
pub open spec fn same_value_caches<T: Scalar>(
    a: Seq<QuantValueCache<T>>,
    b: Seq<QuantValueCache<T>>,
) -> bool {
    &&& a.len() == b.len()
    &&& forall|i: int|
        0 <= i < a.len() ==> {
            &&& (#[trigger] a[i])@ == b[i]@
            &&& a[i].d == b[i].d
            &&& a[i].bits == b[i].bits
            &&& a[i].wf() == b[i].wf()
        }
}

fn copy_key_caches<T: Scalar>(a: &Vec<QuantKeyCache<T>>) -> (r: Vec<QuantKeyCache<T>>)
    ensures
        same_key_caches(r@, a@),
{
    let mut r: Vec<QuantKeyCache<T>> = Vec::new();
    let mut i: usize = 0;
    while i < a.len()
        invariant
            i <= a@.len(),
            same_key_caches(r@, a@.take(i as int)),
        decreases a@.len() - i,
    {
        let ghost before = r@;
        r.push(a[i].duplicate());
        i += 1;
        assert forall|j: int| 0 <= j < i implies {
            &&& (#[trigger] r@[j])@ == a@.take(i as int)[j]@
            &&& r@[j].d == a@.take(i as int)[j].d
            &&& r@[j].bits == a@.take(i as int)[j].bits
            &&& r@[j].wf() == a@.take(i as int)[j].wf()
        } by {
            if j < i - 1 {
                assert(before[j]@ == a@.take(i - 1)[j]@);
            }
        }
    }
    assert(a@.take(i as int) =~= a@);
    r
}

fn copy_value_caches<T: Scalar>(a: &Vec<QuantValueCache<T>>) -> (r: Vec<QuantValueCache<T>>)
    ensures
        same_value_caches(r@, a@),
{
    let mut r: Vec<QuantValueCache<T>> = Vec::new();
    let mut i: usize = 0;
    while i < a.len()
        invariant
            i <= a@.len(),
            same_value_caches(r@, a@.take(i as int)),
        decreases a@.len() - i,
    {
        let ghost before = r@;
        r.push(a[i].duplicate());
        i += 1;
        assert forall|j: int| 0 <= j < i implies {
            &&& (#[trigger] r@[j])@ == a@.take(i as int)[j]@
            &&& r@[j].d == a@.take(i as int)[j].d
            &&& r@[j].bits == a@.take(i as int)[j].bits
            &&& r@[j].wf() == a@.take(i as int)[j].wf()
        } by {
            if j < i - 1 {
                assert(before[j]@ == a@.take(i - 1)[j]@);
            }
        }
    }
    assert(a@.take(i as int) =~= a@);
    r
}

/// Whether a frozen state holds what a running one does.
pub open spec fn holds_same<T: Scalar>(
    f: &FrozenQuantizedKvSdpaState<T>,
    s: &QuantizedKvSdpaState<T>,
) -> bool {
    &&& f.scale == s.scale
    &&& f.bits == s.bits
    &&& f.is_causal == s.is_causal
    &&& f.initialized == s.initialized
    &&& same_key_caches(f.k_caches@, s.k_caches@)
    &&& same_value_caches(f.v_caches@, s.v_caches@)
}

impl<T: Scalar> QuantizedKvSdpaState<T> {
    /// A copy at rest.
    pub fn freeze(&self) -> (r: FrozenQuantizedKvSdpaState<T>)
        ensures
            holds_same(&r, self),
    {
        FrozenQuantizedKvSdpaState {
            scale: self.scale,
            bits: self.bits,
            is_causal: self.is_causal,
            k_caches: copy_key_caches(&self.k_caches),
            v_caches: copy_value_caches(&self.v_caches),
            initialized: self.initialized,
        }
    }
}

impl<T: Scalar> FrozenQuantizedKvSdpaState<T> {
    /// A running copy.
    pub fn unfreeze(&self) -> (r: QuantizedKvSdpaState<T>)
        ensures
            holds_same(self, &r),
    {
        QuantizedKvSdpaState {
            scale: self.scale,
            bits: self.bits,
            is_causal: self.is_causal,
            k_caches: copy_key_caches(&self.k_caches),
            v_caches: copy_value_caches(&self.v_caches),
            initialized: self.initialized,
        }
    }
}

/// Freezing and unfreezing gives a state that goes on just as the first would:
/// it is as valid, holds the same keys and values, and serves the same inputs.
pub proof fn law_unfrozen_goes_on<T: Scalar>(
    s: &QuantizedKvSdpaState<T>,
    f: &FrozenQuantizedKvSdpaState<T>,
    r: &QuantizedKvSdpaState<T>,
    inputs: Seq<NdArray<T>>,
)
    requires
        holds_same(f, s),
        holds_same(f, r),
        s.wf(),
        s.initialized ==> s.k_caches@.len() > 0,
    ensures
        r.wf(),
        r.keys() == s.keys(),
        r.values() == s.values(),
        s.serves(inputs) == r.serves(inputs),
{
    let n = s.k_caches@.len() as int;
    assert forall|i: int| 0 <= i < n implies {
        &&& (#[trigger] r.k_caches@[i]).wf()
        &&& r.k_caches@[i].bits == r.bits
        &&& r.k_caches@[i].d == r.k_caches@[0].d
    } by {
        assert(f.k_caches@[i]@ == s.k_caches@[i]@);
        assert(f.k_caches@[0]@ == s.k_caches@[0]@);
    }
    assert forall|i: int| 0 <= i < n implies {
        &&& (#[trigger] r.v_caches@[i]).wf()
        &&& r.v_caches@[i].bits == r.bits
        &&& r.v_caches@[i].d == r.k_caches@[0].d
        &&& r.v_caches@[i]@.len() == r.k_caches@[i]@.codes.len()
    } by {
        assert(f.k_caches@[i]@ == s.k_caches@[i]@);
        assert(f.k_caches@[0]@ == s.k_caches@[0]@);
        assert(f.v_caches@[i]@ == s.v_caches@[i]@);
    }
    assert forall|i: int| 0 <= i < n implies r.keys()[i] == s.keys()[i] by {
        assert(f.k_caches@[i]@ == s.k_caches@[i]@);
    }
    assert forall|i: int| 0 <= i < n implies r.values()[i] == s.values()[i] by {
        assert(f.v_caches@[i]@ == s.v_caches@[i]@);
    }
    assert(r.keys() =~= s.keys());
    assert(r.values() =~= s.values());
    if s.initialized {
        assert(f.k_caches@[0]@ == s.k_caches@[0]@);
    }
    let k = &inputs[1];
    assert(r.start_keys(k) =~= s.start_keys(k));
}

impl<T: Scalar> QuantizedKvSdpa<T> {
    /// The operator's name.
    pub fn name(&self) -> (r: &'static str)
        ensures
            r@ == "QuantizedKvSdpa"@,
    {
        "QuantizedKvSdpa"
    }

    /// One line about the operator, given the scale in words.
    pub fn info(&self, scale: &str) -> (r: Vec<String>)
        ensures
            r@.len() == 1,
            r@[0]@ == "axis="@ + text::decimal(self.axis as nat) + ", scale="@ + scale@
                + ", bits="@ + text::decimal(self.bits as nat) + ", causal="@ + text::truth(
                self.is_causal,
            ),
    {
        let mut s = "axis=".to_owned();
        text::push_decimal(&mut s, self.axis);
        s.append(", scale=");
        s.append(scale);
        s.append(", bits=");
        text::push_decimal(&mut s, self.bits as usize);
        s.append(", causal=");
        text::push_truth(&mut s, self.is_causal);
        let mut r: Vec<String> = Vec::new();
        r.push(s);
        r
    }

    /// The result depends on what was cached before.
    pub fn is_stateless(&self) -> (r: bool)
        ensures
            !r,
    {
        false
    }

    /// A state that has cached nothing yet.
    pub fn state(&self) -> (r: QuantizedKvSdpaState<T>)
        ensures
            r.wf(),
            !r.initialized,
            r.scale == self.scale,
            r.bits == self.bits,
            r.is_causal == self.is_causal,
    {
        QuantizedKvSdpaState {
            scale: self.scale,
            bits: self.bits,
            is_causal: self.is_causal,
            k_caches: Vec::new(),
            v_caches: Vec::new(),
            initialized: false,
        }
    }

    /// The output is like the queries.
    pub fn output_facts<D: DimLike>(&self, inputs: &[&TypedFact<D>]) -> (r: Result<
        Vec<TypedFact<D>>,
        SdpaError,
    >)
        requires
            dims::lawful::<D>(),
        ensures
            inputs@.len() != 3 && inputs@.len() != 5 ==> r == Err::<Vec<TypedFact<D>>, SdpaError>(
                SdpaError::InputCount,
            ),
            inputs@.len() == 3 || inputs@.len() == 5 ==> {
                &&& r is Ok
                &&& r->Ok_0@.len() == 1
                &&& r->Ok_0@[0].datum_type == inputs@[0].datum_type
                &&& r->Ok_0@[0].shape@ == inputs@[0].shape@
            },
    {
        if inputs.len() != 3 && inputs.len() != 5 {
            return Err(SdpaError::InputCount);
        }
        let mut r: Vec<TypedFact<D>> = Vec::new();
        r.push(
            TypedFact {
                datum_type: inputs[0].datum_type,
                shape: dims::duplicate_all(&inputs[0].shape),
            },
        );
        Ok(r)
    }
}

/// A matrix made of the first elements of a tensor has the rows of its first
/// plane.
proof fn lemma_first_plane<T>(m: &Matrix<T>, x: &NdArray<T>, t: usize, d: usize)
    requires
        m.wf(),
        m.rows == t,
        m.cols == d,
        t * d <= x.data@.len(),
        m.data@ == x.data@.subrange(0, t * d),
    ensures
        m.all_rows() == first_plane(x, t, d),
{
    assert forall|i: int| 0 <= i < t implies m.all_rows()[i] == first_plane(x, t, d)[i] by {
        tensor::lemma_row_len(m, i);
        assert(m.row(i) =~= x.data@.subrange(i * d, i * d + d));
    }
    assert(m.all_rows() =~= first_plane(x, t, d));
}

/// Head `i` among `b` batches of `kh` heads.
pub proof fn lemma_head_of(i: int, b: int, kh: int)
    requires
        0 <= i < b * kh,
        0 <= b,
        0 <= kh,
    ensures
        kh > 0,
        0 <= i / kh < b,
        0 <= i % kh < kh,
{
    assert(kh > 0) by (nonlinear_arith)
        requires
            0 < b * kh,
            0 <= b,
            0 <= kh,
    ;
    vstd::arithmetic::div_mod::lemma_fundamental_div_mod(i, kh);
    let q = i / kh;
    assert(0 <= q) by (nonlinear_arith)
        requires
            0 <= i,
            i == kh * q + i % kh,
            0 <= i % kh < kh,
    ;
    assert(q < b) by (nonlinear_arith)
        requires
            i < b * kh,
            i == kh * q + i % kh,
            0 <= i % kh,
            kh > 0,
    ;
}

/// The name of [`QuantizedKvSdpa`] in a model file.
pub open spec fn primitive_id() -> Seq<char> {
    "tract_transformers_quantized_kv_sdpa"@
}

/// How [`QuantizedKvSdpa`] is written in a model file.
pub fn register() -> (r: Primitive)
    ensures
        r.id@ == primitive_id(),
        nnef::signature(r.parameters@) == seq![
            ("q"@, TypeName::ScalarTensor),
            ("k"@, TypeName::ScalarTensor),
            ("v"@, TypeName::ScalarTensor),
            ("axis"@, TypeName::Integer),
            ("scale"@, TypeName::Scalar),
            ("bits"@, TypeName::Integer),
            ("is_causal"@, TypeName::Integer),
        ],
        nnef::signature(r.results@) == seq![("output"@, TypeName::ScalarTensor)],
{
    let r = Primitive {
        id: "tract_transformers_quantized_kv_sdpa",
        parameters: vec![
            nnef::parameter("q", TypeName::ScalarTensor),
            nnef::parameter("k", TypeName::ScalarTensor),
            nnef::parameter("v", TypeName::ScalarTensor),
            nnef::parameter("axis", TypeName::Integer),
            nnef::parameter("scale", TypeName::Scalar),
            nnef::parameter("bits", TypeName::Integer),
            nnef::parameter("is_causal", TypeName::Integer),
        ],
        results: vec![nnef::parameter("output", TypeName::ScalarTensor)],
    };
    assert(nnef::signature(r.parameters@) =~= seq![
        ("q"@, TypeName::ScalarTensor),
        ("k"@, TypeName::ScalarTensor),
        ("v"@, TypeName::ScalarTensor),
        ("axis"@, TypeName::Integer),
        ("scale"@, TypeName::Scalar),
        ("bits"@, TypeName::Integer),
        ("is_causal"@, TypeName::Integer),
    ]);
    assert(nnef::signature(r.results@) =~= seq![("output"@, TypeName::ScalarTensor)]);
    r
}

/// The attributes that the operator is written with. The scale is written only
/// where there is one.
pub open spec fn written<T, D>(op: QuantizedKvSdpa<T>) -> Seq<(Seq<char>, AttributeValue<T, D>)> {
    let always = seq![
        ("axis"@, AttributeValue::Integer(op.axis as int)),
        ("bits"@, AttributeValue::Integer(op.bits as int)),
        (
            "is_causal"@,
            AttributeValue::Integer(
                if op.is_causal {
                    1
                } else {
                    0
                },
            ),
        ),
    ];
    match op.scale {
        Some(scale) => always.push(("scale"@, AttributeValue::Number(scale))),
        None => always,
    }
}

/// The operator that attributes say: without a width the codes have 8 bits, and
/// without a word on masking there is none.
pub open spec fn read<T, D>(attributes: Seq<(Seq<char>, AttributeValue<T, D>)>) -> Result<
    QuantizedKvSdpa<T>,
    ReadError,
> {
    match nnef::count_of(attributes, "axis"@) {
        Err(e) => Err(e),
        Ok(axis) => match nnef::number_of(attributes, "scale"@) {
            Err(e) => Err(e),
            Ok(scale) => match nnef::integer_of(attributes, "bits"@) {
                Err(e) => Err(e),
                Ok(bits) => match nnef::integer_of(attributes, "is_causal"@) {
                    Err(e) => Err(e),
                    Ok(is_causal) => Ok(
                        QuantizedKvSdpa {
                            axis,
                            scale,
                            bits: match bits {
                                Some(b) => b as u32,
                                None => 8,
                            },
                            is_causal: match is_causal {
                                Some(c) => c != 0,
                                None => false,
                            },
                        },
                    ),
                },
            },
        },
    }
}

/// Writes the operator with its first three inputs: queries, keys and values.
pub fn ser_quantized_kv_sdpa<T: Scalar, D>(inputs: &[OutletId], op: &QuantizedKvSdpa<T>) -> (r:
    Invocation<T, D>)
    requires
        inputs@.len() >= 3,
    ensures
        r.id@ == primitive_id(),
        r.inputs@ == inputs@.take(3),
        nnef::entries(r.attributes@) == written::<T, D>(*op),
{
    let mut attributes: Vec<(String, Attribute<T, D>)> = Vec::new();
    attributes.push(nnef::integer("axis", op.axis as i128));
    attributes.push(nnef::integer("bits", op.bits as i128));
    attributes.push(nnef::integer("is_causal", if op.is_causal { 1i128 } else { 0i128 }));
    if let Some(scale) = op.scale {
        attributes.push(("scale".to_owned(), Attribute::Number(scale)));
    }
    assert(nnef::entries(attributes@) =~= written::<T, D>(*op));
    let kept = vec![inputs[0], inputs[1], inputs[2]];
    assert(kept@ =~= inputs@.take(3));
    Invocation {
        id: "tract_transformers_quantized_kv_sdpa".to_owned(),
        inputs: kept,
        attributes,
    }
}

/// Reads the operator and the outlets of queries, keys and values.
pub fn de_quantized_kv_sdpa<T: Scalar, D>(invocation: &Invocation<T, D>) -> (r: Result<
    (QuantizedKvSdpa<T>, Vec<OutletId>),
    ReadError,
>)
    ensures
        invocation.inputs@.len() < 3 ==> r == Err::<(QuantizedKvSdpa<T>, Vec<OutletId>), ReadError>(
            ReadError::Missing,
        ),
        invocation.inputs@.len() >= 3 ==> match read(nnef::entries(invocation.attributes@)) {
            Err(e) => r == Err::<(QuantizedKvSdpa<T>, Vec<OutletId>), ReadError>(e),
            Ok(op) => match r {
                Ok((made, inputs)) => made == op && inputs@ == invocation.inputs@.take(3),
                Err(_) => false,
            },
        },
{
    if invocation.inputs.len() < 3 {
        return Err(ReadError::Missing);
    }
    let inputs = vec![invocation.inputs[0], invocation.inputs[1], invocation.inputs[2]];
    assert(inputs@ =~= invocation.inputs@.take(3));
    let axis: usize = match nnef::read_count(&invocation.attributes, "axis") {
        Ok(n) => n,
        Err(e) => return Err(e),
    };
    let scale: Option<T> = match nnef::read_number(&invocation.attributes, "scale") {
        Ok(x) => x,
        Err(e) => return Err(e),
    };
    let bits: u32 = match nnef::read_integer(&invocation.attributes, "bits") {
        Ok(Some(b)) => b as u32,
        Ok(None) => 8,
        Err(e) => return Err(e),
    };
    let is_causal: bool = match nnef::read_integer(&invocation.attributes, "is_causal") {
        Ok(Some(c)) => c != 0,
        Ok(None) => false,
        Err(e) => return Err(e),
    };
    Ok((QuantizedKvSdpa { axis, scale, bits, is_causal }, inputs))
}

/// What was written reads back as the operator it was written from.
pub proof fn law_written_reads_back<T, D>(op: QuantizedKvSdpa<T>)
    ensures
        read(written::<T, D>(op)) == Ok::<QuantizedKvSdpa<T>, ReadError>(op),
{
    reveal_strlit("axis");
    reveal_strlit("bits");
    reveal_strlit("is_causal");
    reveal_strlit("scale");
    reveal_with_fuel(nnef::lookup, 5);
    let all = written::<T, D>(op);
    assert("axis"@[0] != "bits"@[0]);
    assert("axis"@.len() != "is_causal"@.len());
    assert("axis"@.len() != "scale"@.len());
    assert("bits"@.len() != "is_causal"@.len());
    assert("bits"@.len() != "scale"@.len());
    assert("scale"@.len() != "is_causal"@.len());
    let (a1, a2, a3) = (
        all.drop_first(),
        all.drop_first().drop_first(),
        all.drop_first().drop_first().drop_first(),
    );
    assert(all[0].0 == "axis"@);
    assert(a1[0] == all[1] && all[1].0 == "bits"@);
    assert(a2[0] == all[2] && all[2].0 == "is_causal"@);
    if op.scale is Some {
        assert(a3[0] == all[3] && all[3].0 == "scale"@);
    } else {
        assert(a3.len() == 0);
    }
    assert(op.bits as i64 as u32 == op.bits);
}

/// The operator is written under its own names: the axis and the width of the codes as
/// they are, 1 for a causal mask and 0 for none, and the scale where there is one.
pub proof fn law_written_under_its_names<T, D>(op: QuantizedKvSdpa<T>)
    ensures
        ({
            let a = written::<T, D>(op);
            &&& nnef::lookup(a, "axis"@) == Some(AttributeValue::<T, D>::Integer(op.axis as int))
            &&& nnef::lookup(a, "bits"@) == Some(AttributeValue::<T, D>::Integer(op.bits as int))
            &&& op.is_causal ==> nnef::lookup(a, "is_causal"@) == Some(
                AttributeValue::<T, D>::Integer(1),
            )
            &&& !op.is_causal ==> nnef::lookup(a, "is_causal"@) == Some(
                AttributeValue::<T, D>::Integer(0),
            )
            &&& op.scale is None ==> nnef::lookup(a, "scale"@) is None
            &&& op.scale matches Some(s) ==> nnef::lookup(a, "scale"@) == Some(
                AttributeValue::<T, D>::Number(s),
            )
        }),
{
    reveal_strlit("axis");
    reveal_strlit("bits");
    reveal_strlit("is_causal");
    reveal_strlit("scale");
    let a = written::<T, D>(op);
    assert("axis"@[0] != "bits"@[0]);
    assert(a[0].0 == "axis"@ && a[1].0 == "bits"@ && a[2].0 == "is_causal"@);
    nnef::law_first_of_a_name_is_found(a, "axis"@, 0);
    nnef::law_first_of_a_name_is_found(a, "bits"@, 1);
    nnef::law_first_of_a_name_is_found(a, "is_causal"@, 2);
    nnef::law_first_of_a_name_is_found(a, "scale"@, 3);
}

/// The operator is read by its names. The axis must be there. Codes have 8 bits where no
/// width is given, there is a causal mask where the number given is not 0, and no scale
/// where none is given.
pub proof fn law_read_by_its_names<T, D>(a: Seq<(Seq<char>, AttributeValue<T, D>)>)
    ensures
        nnef::lookup(a, "axis"@) is None ==> read(a) == Err::<QuantizedKvSdpa<T>, ReadError>(
            ReadError::Missing,
        ),
        read(a) matches Ok(op) ==> {
            &&& nnef::lookup(a, "axis"@) == Some(AttributeValue::<T, D>::Integer(op.axis as int))
            &&& nnef::lookup(a, "bits"@) is None ==> op.bits == 8
            &&& nnef::lookup(a, "bits"@) matches Some(AttributeValue::Integer(n)) ==> 0 <= n
                <= u32::MAX ==> op.bits == n
            &&& nnef::lookup(a, "is_causal"@) is None ==> !op.is_causal
            &&& nnef::lookup(a, "is_causal"@) matches Some(AttributeValue::Integer(n))
                ==> op.is_causal == (n != 0)
            &&& nnef::lookup(a, "scale"@) is None ==> op.scale is None
            &&& nnef::lookup(a, "scale"@) matches Some(AttributeValue::Number(s)) ==> op.scale
                == Some(s)
        },
        read(a) is Ok <==> {
            &&& nnef::count_of(a, "axis"@) is Ok
            &&& nnef::number_of(a, "scale"@) is Ok
            &&& nnef::integer_of(a, "bits"@) is Ok
            &&& nnef::integer_of(a, "is_causal"@) is Ok
        },
{
    if let Some(AttributeValue::Integer(n)) = nnef::lookup(a, "bits"@) {
        if 0 <= n <= u32::MAX {
            assert(n as i64 as u32 == n);
        }
    }
}

/// Inputs are refused exactly where there are neither three nor five, or one of the first
/// three is not of rank 4; then tables of a rotation where their last axes are not the
/// number of tokens and the width of the head.
pub proof fn law_what_is_refused<T>(inputs: Seq<NdArray<T>>, t: usize)
    ensures
        refusal(inputs) is None <==> {
            &&& inputs.len() == 3 || inputs.len() == 5
            &&& inputs[0].shape@.len() == 4
            &&& inputs[1].shape@.len() == 4
            &&& inputs[2].shape@.len() == 4
        },
        inputs.len() != 3 && inputs.len() != 5 ==> refusal(inputs) == Some(SdpaError::InputCount),
        inputs.len() == 3 ==> table_refusal(inputs, t) is None,
        inputs.len() == 5 ==> {
            let d = inputs[0].shape@[3];
            let fits = |s: Seq<usize>|
                s.len() >= 2 && s[s.len() - 1] == d && s[s.len() - 2] == t;
            &&& table_refusal(inputs, t) is None <==> fits(inputs[3].shape@) && fits(
                inputs[4].shape@,
            )
            &&& !fits(inputs[3].shape@) ==> table_refusal(inputs, t)->0 is Cos
            &&& fits(inputs[3].shape@) && !fits(inputs[4].shape@) ==> table_refusal(
                inputs,
                t,
            )->0 is Sin
        },
{
}

/// A frozen state holds the same settings and, head by head, the same tokens.
pub proof fn law_frozen_holds_all_heads<T: Scalar>(
    f: &FrozenQuantizedKvSdpaState<T>,
    s: &QuantizedKvSdpaState<T>,
    i: int,
)
    requires
        holds_same(f, s),
    ensures
        f.scale == s.scale && f.bits == s.bits,
        f.is_causal == s.is_causal && f.initialized == s.initialized,
        f.k_caches@.len() == s.k_caches@.len() && f.v_caches@.len() == s.v_caches@.len(),
        0 <= i < s.k_caches@.len() ==> f.k_caches@[i]@ == s.k_caches@[i]@ && f.k_caches@[i].bits
            == s.k_caches@[i].bits && f.k_caches@[i].d == s.k_caches@[i].d,
        0 <= i < s.v_caches@.len() ==> f.v_caches@[i]@ == s.v_caches@[i]@ && f.v_caches@[i].bits
            == s.v_caches@[i].bits && f.v_caches@[i].d == s.v_caches@[i].d,
{
}

} // verus!
