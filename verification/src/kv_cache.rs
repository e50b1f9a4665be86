//! Caches of key and value vectors in low precision.
//!
//! Values are quantized per token: each has its own offset and step. Keys are
//! quantized per channel, because keys have channels of large magnitude that
//! would spoil a shared step.

use std::ops::Range;

use vstd::prelude::*;

use crate::math;
use crate::packing;
use crate::packing::CodeRows;
use crate::quant;
use crate::scalar;
use crate::scalar::Scalar;
use crate::tensor;
use crate::tensor::Matrix;

verus! {

/// How many tokens a range holds.
pub open spec fn span(r: Range<usize>) -> int {
    if r.start < r.end {
        r.end - r.start
    } else {
        0
    }
}

/// A matrix of zeros.
pub fn zeros<T: Scalar>(rows: usize, cols: usize) -> (r: Matrix<T>)
    requires
        scalar::lawful::<T>(),
        rows * cols <= usize::MAX,
    ensures
        r.wf(),
        r.rows == rows,
        r.cols == cols,
        forall|i: int| 0 <= i < r.data@.len() ==> #[trigger] r.data@[i] == T::zero_spec(),
{
    let n: usize = rows * cols;
    let mut data: Vec<T> = Vec::new();
    let mut i: usize = 0;
    while i < n
        invariant
            scalar::lawful::<T>(),
            i <= n,
            data@.len() == i,
            forall|k: int| 0 <= k < i ==> #[trigger] data@[k] == T::zero_spec(),
        decreases n - i,
    {
        data.push(scalar::zero());
        i += 1;
    }
    Matrix { rows, cols, data }
}

/// One token of a value cache.
#[verifier::ext_equal]
pub struct ValueToken<T> {
    pub codes: Seq<u8>,
    pub lo: T,
    pub scale: T,
}

/// The vector `v`, quantized on its own.
pub open spec fn value_token<T: Scalar>(v: Seq<T>, bits: u32) -> ValueToken<T> {
    let lo = quant::least(v);
    let scale = quant::group_step(v, bits);
    ValueToken {
        codes: Seq::new(
            v.len(),
            |c: int| packing::stored(quant::code_of(v[c], lo, scale, bits), bits),
        ),
        lo,
        scale,
    }
}

impl<T: Scalar> ValueToken<T> {
    /// What column `c` of this token reads back as.
    pub open spec fn value(self, bits: u32, c: int) -> T {
        packing::read_back(self.codes[c], self.codes.len() as int, bits, c, self.lo, self.scale)
    }
}

/// A cache of value vectors: each token has its own offset and step.
#[derive(Clone, Debug)]
pub struct QuantValueCache<T> {
    pub d: usize,
    pub bits: u32,
    pub rows: CodeRows,
    pub params: Vec<(T, T)>,
}

impl<T: Scalar> View for QuantValueCache<T> {
    type V = Seq<ValueToken<T>>;

    open spec fn view(&self) -> Seq<ValueToken<T>> {
        Seq::new(
            self.params@.len(),
            |t: int|
                ValueToken {
                    codes: self.rows@[t],
                    lo: self.params@[t].0,
                    scale: self.params@[t].1,
                },
        )
    }
}

impl<T: Scalar> QuantValueCache<T> {
    /// Whether every token has `d` codes and two parameters.
    pub open spec fn wf(&self) -> bool {
        &&& self.rows.wf()
        &&& self.rows.width() == self.d
        &&& self.rows.bits() == self.bits
        &&& self.rows@.len() == self.params@.len()
        &&& forall|t: int| 0 <= t < self.rows@.len() ==> (#[trigger] self.rows@[t]).len() == self.d
        &&& packing::packable(self.d as nat, self.bits)
    }

    /// An empty cache of codes of eight bits.
    pub fn new(d: usize) -> (r: Self)
        requires
            d * 8 <= usize::MAX,
        ensures
            r.wf(),
            r.d == d,
            r.bits == 8,
            r@ == Seq::<ValueToken<T>>::empty(),
    {
        Self::with_bits(d, 8)
    }

    /// An empty cache of codes of `bits` bits.
    pub fn with_bits(d: usize, bits: u32) -> (r: Self)
        requires
            packing::packable(d as nat, bits),
            d * bits <= usize::MAX,
        ensures
            r.wf(),
            r.d == d,
            r.bits == bits,
            r@ == Seq::<ValueToken<T>>::empty(),
    {
        let r = QuantValueCache { d, bits, rows: CodeRows::new(d, bits), params: Vec::new() };
        assert(r@ =~= Seq::<ValueToken<T>>::empty());
        r
    }

    /// The number of tokens.
    pub fn len(&self) -> (r: usize)
        ensures
            r == self@.len(),
    {
        self.params.len()
    }

    /// Whether there are no tokens.
    pub fn is_empty(&self) -> (r: bool)
        ensures
            r == (self@.len() == 0),
    {
        self.params.len() == 0
    }

    /// Appends one token, quantized on its own.
    pub fn push_token(&mut self, v: &[T])
        requires
            scalar::lawful::<T>(),
            old(self).wf(),
            v@.len() == old(self).d,
            old(self)@.len() < usize::MAX,
        ensures
            final(self).wf(),
            final(self).d == old(self).d,
            final(self).bits == old(self).bits,
            final(self)@ == old(self)@.push(value_token(v@, old(self).bits)),
    {
        let ghost before = *self;
        let (codes, lo, scale) = quant::quant_codes(v, self.bits);
        self.rows.push(codes.as_slice());
        self.params.push((lo, scale));
        proof {
            let token = value_token(v@, self.bits);
            let n = before@.len() as int;
            assert(self.rows@[n] =~= token.codes);
            assert forall|t: int| 0 <= t < n implies self@[t] == before@[t] by {}
            assert(self@[n] == token);
            assert(self@ =~= before@.push(token));
        }
    }

    /// Reads all tokens back, one per row.
    pub fn dequant_all(&self) -> (r: Matrix<T>)
        requires
            scalar::lawful::<T>(),
            self.wf(),
            self@.len() * self.d <= usize::MAX,
        ensures
            r.wf(),
            r.rows == self@.len(),
            r.cols == self.d,
            forall|t: int, c: int|
                0 <= t < self@.len() && 0 <= c < self.d ==> #[trigger] r.at(t, c) == self@[t].value(
                    self.bits,
                    c,
                ),
    {
        let t: usize = self.len();
        let mut out = zeros(t, self.d);
        self.dequant_tile(0..t, &mut out);
        out
    }

    /// Reads the tokens of a range back, into the first rows of `out`.
    pub fn dequant_tile(&self, r: Range<usize>, out: &mut Matrix<T>)
        requires
            scalar::lawful::<T>(),
            self.wf(),
            old(out).wf(),
            old(out).cols == self.d,
            span(r) <= old(out).rows,
            span(r) > 0 ==> r.end <= self@.len(),
        ensures
            final(out).wf(),
            final(out).rows == old(out).rows,
            final(out).cols == old(out).cols,
            forall|i: int, c: int|
                0 <= i < span(r) && 0 <= c < self.d ==> #[trigger] final(out).at(i, c) == self@[r.start
                    + i].value(self.bits, c),
            forall|i: int, c: int|
                span(r) <= i < old(out).rows && 0 <= c < self.d ==> #[trigger] final(out).at(i, c)
                    == old(out).at(i, c),
    {
        let n: usize = if r.start < r.end { r.end - r.start } else { 0 };
        let mut i: usize = 0;
        while i < n
            invariant
                scalar::lawful::<T>(),
                self.wf(),
                n == span(r),
                i <= n,
                n > 0 ==> r.start + n <= self@.len(),
                out.wf(),
                out.cols == self.d,
                n <= out.rows,
                out.rows == old(out).rows,
                out.cols == old(out).cols,
                forall|k: int, c: int|
                    0 <= k < i && 0 <= c < self.d ==> #[trigger] out.at(k, c) == self@[r.start
                        + k].value(self.bits, c),
                forall|k: int, c: int|
                    i <= k < old(out).rows && 0 <= c < self.d ==> #[trigger] out.at(k, c) == old(
                        out,
                    ).at(k, c),
            decreases n - i,
        {
            let ghost before = *out;
            let t: usize = r.start + i;
            let (lo, scale) = self.params[t];
            let src = self.rows.row(t);
            let dst = out.row_mut(i);
            packing::dequant_row_pertoken(src, self.d, self.bits, lo, scale, dst);
            proof {
                let by = Seq::new(self.d as nat, |c: int| self@[t as int].value(self.bits, c));
                assert(dst@ =~= by);
                tensor::lemma_row_replaced(before, *out, i as int, by);
            }
            i += 1;
        }
    }

    /// The number of bytes held: the packed codes, and two parameters per token.
    pub fn memory_bytes(&self) -> (r: usize)
        requires
            self.wf(),
            self@.len() * quant::row_len(self.d as nat, self.bits) + self@.len() * 8 <= usize::MAX,
        ensures
            r == self@.len() * quant::row_len(self.d as nat, self.bits) + self@.len() * 8,
    {
        assert(self@.len() * quant::row_len(self.d as nat, self.bits) >= 0) by (nonlinear_arith)
            requires
                self@.len() >= 0,
                quant::row_len(self.d as nat, self.bits) >= 0,
        ;
        self.rows.byte_len() + self.params.len() * 8
    }

    /// A copy.
    pub fn duplicate(&self) -> (r: Self)
        ensures
            r@ == self@,
            r.d == self.d,
            r.bits == self.bits,
            r.wf() == self.wf(),
    {
        let r = QuantValueCache {
            d: self.d,
            bits: self.bits,
            rows: self.rows.duplicate(),
            params: vstd::slice::slice_to_vec(self.params.as_slice()),
        };
        assert(r@ =~= self@);
        r
    }
}

/// The keys seen so far, quantized per channel.
#[verifier::ext_equal]
pub struct ChannelKeys<T> {
    pub codes: Seq<Seq<u8>>,
    pub lo: Seq<T>,
    pub scale: Seq<T>,
}

/// The offset of a channel once it has seen `x`.
pub open spec fn widened_lo<T: Scalar>(lo: T, x: T) -> T {
    if x.below_spec(lo) {
        x
    } else {
        lo
    }
}

/// The step of a channel with offset `lo` once it has seen `x`: the widest that
/// one of its tokens asked for. It is zero while none lay above the offset.
pub open spec fn widened_scale<T: Scalar>(lo: T, scale: T, x: T, lv: T) -> T {
    let range = x.minus_spec(lo);
    if T::zero_spec().below_spec(range) && scale.below_spec(range.over_spec(lv)) {
        range.over_spec(lv)
    } else {
        scale
    }
}

/// The step that a token is coded with: that of its channel, or one while the
/// channel has no range yet.
pub open spec fn coding_step<T: Scalar>(scale: T) -> T {
    if T::zero_spec().below_spec(scale) {
        scale
    } else {
        T::one_spec()
    }
}

/// Channels before their first token: no offset and no range yet.
pub open spec fn no_keys<T: Scalar>(d: nat) -> ChannelKeys<T> {
    ChannelKeys {
        codes: Seq::empty(),
        lo: Seq::new(d, |c: int| T::infinity_spec()),
        scale: Seq::new(d, |c: int| T::zero_spec()),
    }
}

impl<T: Scalar> ChannelKeys<T> {
    /// The keys with `k` appended: each channel is widened to hold its new
    /// value, and only the new token is coded under the widened parameters.
    pub open spec fn pushed(self, k: Seq<T>, bits: u32) -> ChannelKeys<T> {
        let lo = Seq::new(k.len(), |c: int| widened_lo(self.lo[c], k[c]));
        let scale = Seq::new(
            k.len(),
            |c: int| widened_scale(lo[c], self.scale[c], k[c], quant::levels_spec(bits)),
        );
        ChannelKeys {
            codes: self.codes.push(
                Seq::new(
                    k.len(),
                    |c: int|
                        packing::stored(
                            quant::code_of(k[c], lo[c], coding_step(scale[c]), bits),
                            bits,
                        ),
                ),
            ),
            lo,
            scale,
        }
    }

    /// What column `c` of token `t` reads back as.
    pub open spec fn value(self, bits: u32, t: int, c: int) -> T {
        packing::read_back(
            self.codes[t][c],
            self.lo.len() as int,
            bits,
            c,
            self.lo[c],
            self.scale[c],
        )
    }
}

/// A cache of key vectors: each channel has one offset and one step, which come
/// from its tokens and widen as they do. Tokens already coded keep their codes.
#[derive(Clone, Debug)]
pub struct QuantKeyCache<T> {
    pub d: usize,
    pub bits: u32,
    pub rows: CodeRows,
    pub ch_lo: Vec<T>,
    pub ch_scale: Vec<T>,
}

impl<T: Scalar> View for QuantKeyCache<T> {
    type V = ChannelKeys<T>;

    open spec fn view(&self) -> ChannelKeys<T> {
        ChannelKeys { codes: self.rows@, lo: self.ch_lo@, scale: self.ch_scale@ }
    }
}

impl<T: Scalar> QuantKeyCache<T> {
    /// Whether every token has `d` codes and every channel its parameters.
    pub open spec fn wf(&self) -> bool {
        &&& self.rows.wf()
        &&& self.rows.width() == self.d
        &&& self.rows.bits() == self.bits
        &&& self.ch_lo@.len() == self.d
        &&& self.ch_scale@.len() == self.d
        &&& packing::packable(self.d as nat, self.bits)
    }

    /// An empty cache of codes of eight bits.
    pub fn new(d: usize) -> (r: Self)
        requires
            scalar::lawful::<T>(),
            d * 8 <= usize::MAX,
        ensures
            r.wf(),
            r.d == d,
            r.bits == 8,
            r@ == no_keys::<T>(d as nat),
    {
        Self::with_bits(d, 8)
    }

    /// An empty cache of codes of `bits` bits.
    pub fn with_bits(d: usize, bits: u32) -> (r: Self)
        requires
            scalar::lawful::<T>(),
            packing::packable(d as nat, bits),
            d * bits <= usize::MAX,
        ensures
            r.wf(),
            r.d == d,
            r.bits == bits,
            r@ == no_keys::<T>(d as nat),
    {
        let mut ch_lo: Vec<T> = Vec::new();
        let mut ch_scale: Vec<T> = Vec::new();
        let mut c: usize = 0;
        while c < d
            invariant
                scalar::lawful::<T>(),
                c <= d,
                ch_lo@ == Seq::new(c as nat, |k: int| T::infinity_spec()),
                ch_scale@ == Seq::new(c as nat, |k: int| T::zero_spec()),
            decreases d - c,
        {
            ch_lo.push(scalar::infinity());
            ch_scale.push(scalar::zero());
            c += 1;
        }
        let r = QuantKeyCache { d, bits, rows: CodeRows::new(d, bits), ch_lo, ch_scale };
        assert(r@ =~= no_keys::<T>(d as nat));
        r
    }

    /// The number of tokens.
    pub fn len(&self) -> (r: usize)
        ensures
            r == self@.codes.len(),
    {
        self.rows.len()
    }

    /// Whether there are no tokens.
    pub fn is_empty(&self) -> (r: bool)
        ensures
            r == (self@.codes.len() == 0),
    {
        self.rows.len() == 0
    }

    /// Appends one token, after widening every channel to hold it.
    pub fn push_token(&mut self, k: &[T])
        requires
            scalar::lawful::<T>(),
            old(self).wf(),
            k@.len() == old(self).d,
            old(self)@.codes.len() < usize::MAX,
        ensures
            final(self).wf(),
            final(self).d == old(self).d,
            final(self).bits == old(self).bits,
            final(self)@ == old(self)@.pushed(k@, old(self).bits),
    {
        let ghost before = self@;
        let ghost after = self@.pushed(k@, self.bits);
        let bits: u32 = self.bits;
        let lv: T = quant::levels(bits);
        let mut codes: Vec<u8> = Vec::new();
        let d: usize = self.d;
        let mut c: usize = 0;
        while c < d
            invariant
                scalar::lawful::<T>(),
                lv == quant::levels_spec::<T>(bits),
                before == old(self)@,
                after == before.pushed(k@, bits),
                c <= d,
                d == k@.len(),
                self.d == d,
                self.bits == bits,
                self.rows == old(self).rows,
                old(self).wf(),
                d == old(self).d,
                bits == old(self).bits,
                self.wf(),
                codes@.len() == c,
                forall|j: int| 0 <= j < c ==> #[trigger] self.ch_lo@[j] == after.lo[j],
                forall|j: int| 0 <= j < c ==> #[trigger] self.ch_scale@[j] == after.scale[j],
                forall|j: int| c <= j < d ==> #[trigger] self.ch_lo@[j] == before.lo[j],
                forall|j: int| c <= j < d ==> #[trigger] self.ch_scale@[j] == before.scale[j],
                forall|j: int|
                    0 <= j < c ==> #[trigger] codes@[j] == quant::code_of(
                        k@[j],
                        after.lo[j],
                        coding_step(after.scale[j]),
                        bits,
                    ),
            decreases d - c,
        {
            let x: T = k[c];
            if scalar::below(x, self.ch_lo[c]) {
                self.ch_lo.set(c, x);
            }
            let lo: T = self.ch_lo[c];
            let range = scalar::minus(x, lo);
            if scalar::below(scalar::zero(), range) {
                let wider = scalar::over(range, lv);
                if scalar::below(self.ch_scale[c], wider) {
                    self.ch_scale.set(c, wider);
                }
            }
            let scale: T = self.ch_scale[c];
            let step: T = if scalar::below(scalar::zero(), scale) { scale } else { scalar::one() };
            codes.push(scalar::to_code(quant::level_of(x, lo, step, lv)));
            c += 1;
        }
        self.rows.push(codes.as_slice());
        proof {
            let last = codes@.map_values(|x: u8| packing::stored(x, bits));
            assert(last =~= after.codes.last());
            assert(self@ =~= after);
        }
    }

    /// Reads all tokens back, one per row, under the channels' present
    /// parameters.
    pub fn dequant_all(&self) -> (r: Matrix<T>)
        requires
            scalar::lawful::<T>(),
            self.wf(),
            self@.codes.len() * self.d <= usize::MAX,
        ensures
            r.wf(),
            r.rows == self@.codes.len(),
            r.cols == self.d,
            forall|t: int, c: int|
                0 <= t < self@.codes.len() && 0 <= c < self.d ==> #[trigger] r.at(t, c)
                    == self@.value(self.bits, t, c),
    {
        let t: usize = self.len();
        let mut out = zeros(t, self.d);
        self.dequant_tile(0..t, &mut out);
        out
    }

    /// Reads the tokens of a range back, into the first rows of `out`.
    pub fn dequant_tile(&self, r: Range<usize>, out: &mut Matrix<T>)
        requires
            scalar::lawful::<T>(),
            self.wf(),
            old(out).wf(),
            old(out).cols == self.d,
            span(r) <= old(out).rows,
            span(r) > 0 ==> r.end <= self@.codes.len(),
        ensures
            final(out).wf(),
            final(out).rows == old(out).rows,
            final(out).cols == old(out).cols,
            forall|i: int, c: int|
                0 <= i < span(r) && 0 <= c < self.d ==> #[trigger] final(out).at(i, c)
                    == self@.value(self.bits, r.start + i, c),
            forall|i: int, c: int|
                span(r) <= i < old(out).rows && 0 <= c < self.d ==> #[trigger] final(out).at(i, c)
                    == old(out).at(i, c),
    {
        let n: usize = if r.start < r.end { r.end - r.start } else { 0 };
        let mut i: usize = 0;
        while i < n
            invariant
                scalar::lawful::<T>(),
                self.wf(),
                n == span(r),
                i <= n,
                n > 0 ==> r.start + n <= self@.codes.len(),
                out.wf(),
                out.cols == self.d,
                n <= out.rows,
                out.rows == old(out).rows,
                out.cols == old(out).cols,
                forall|k: int, c: int|
                    0 <= k < i && 0 <= c < self.d ==> #[trigger] out.at(k, c) == self@.value(
                        self.bits,
                        r.start + k,
                        c,
                    ),
                forall|k: int, c: int|
                    i <= k < old(out).rows && 0 <= c < self.d ==> #[trigger] out.at(k, c) == old(
                        out,
                    ).at(k, c),
            decreases n - i,
        {
            let ghost before = *out;
            let t: usize = r.start + i;
            let src = self.rows.row(t);
            let dst = out.row_mut(i);
            packing::dequant_row_perchannel(
                src,
                self.d,
                self.bits,
                self.ch_lo.as_slice(),
                self.ch_scale.as_slice(),
                dst,
            );
            proof {
                let by = Seq::new(self.d as nat, |c: int| self@.value(self.bits, t as int, c));
                assert(dst@ =~= by);
                tensor::lemma_row_replaced(before, *out, i as int, by);
            }
            i += 1;
        }
    }

    /// The number of bytes held: the packed codes, and two parameters per
    /// channel.
    pub fn memory_bytes(&self) -> (r: usize)
        requires
            self.wf(),
            self@.codes.len() * quant::row_len(self.d as nat, self.bits) + self.d * 8
                <= usize::MAX,
        ensures
            r == self@.codes.len() * quant::row_len(self.d as nat, self.bits) + self.d * 8,
    {
        assert(self@.codes.len() * quant::row_len(self.d as nat, self.bits) >= 0)
            by (nonlinear_arith)
            requires
                self@.codes.len() >= 0,
                quant::row_len(self.d as nat, self.bits) >= 0,
        ;
        self.rows.byte_len() + self.d * 8
    }

    /// A copy.
    pub fn duplicate(&self) -> (r: Self)
        ensures
            r@ == self@,
            r.d == self.d,
            r.bits == self.bits,
            r.wf() == self.wf(),
    {
        QuantKeyCache {
            d: self.d,
            bits: self.bits,
            rows: self.rows.duplicate(),
            ch_lo: vstd::slice::slice_to_vec(self.ch_lo.as_slice()),
            ch_scale: vstd::slice::slice_to_vec(self.ch_scale.as_slice()),
        }
    }
}

/// The number of tokens in a block of keys.
pub const KEY_BLOCK: usize = 32;

/// A block of keys under the offset and step of each of its channels.
#[verifier::ext_equal]
pub struct KeyBlock<T> {
    pub codes: Seq<Seq<u8>>,
    pub lo: Seq<T>,
    pub scale: Seq<T>,
}

/// Column `c` of some rows.
pub open spec fn column<T>(rows: Seq<Seq<T>>, c: int) -> Seq<T> {
    Seq::new(rows.len(), |t: int| rows[t][c])
}

/// The rows quantized together, each of their `d` columns over its own range.
pub open spec fn key_block<T: Scalar>(rows: Seq<Seq<T>>, d: nat, bits: u32) -> KeyBlock<T> {
    let lo = Seq::new(d, |c: int| quant::least(column(rows, c)));
    let scale = Seq::new(d, |c: int| quant::group_step(column(rows, c), bits));
    KeyBlock {
        codes: Seq::new(
            rows.len(),
            |t: int|
                Seq::new(
                    d,
                    |c: int|
                        packing::stored(quant::code_of(rows[t][c], lo[c], scale[c], bits), bits),
                ),
        ),
        lo,
        scale,
    }
}

/// Keys in blocks, and those that do not fill a block yet.
#[verifier::ext_equal]
pub struct BlockKeys<T> {
    pub blocks: Seq<KeyBlock<T>>,
    pub pending: Seq<Seq<T>>,
}

impl<T: Scalar> BlockKeys<T> {
    /// The number of tokens.
    pub open spec fn count(self) -> nat {
        self.blocks.len() * 32 + self.pending.len()
    }

    /// The keys with `k` appended.
    pub open spec fn pushed(self, k: Seq<T>, bits: u32) -> BlockKeys<T> {
        let pending = self.pending.push(k);
        if pending.len() == 32 {
            BlockKeys {
                blocks: self.blocks.push(key_block(pending, k.len(), bits)),
                pending: Seq::empty(),
            }
        } else {
            BlockKeys { blocks: self.blocks, pending }
        }
    }

    /// What column `c` of token `t` reads back as.
    pub open spec fn value(self, t: int, c: int) -> T {
        if t < self.blocks.len() * 32 {
            let b = self.blocks[t / 32];
            quant::decoded(b.codes[t % 32][c], b.lo[c], b.scale[c])
        } else {
            self.pending[t - self.blocks.len() * 32][c]
        }
    }
}

/// A cache of key vectors in blocks. A block's channels get their offset and
/// step from the tokens of that block alone, and keep them; tokens that do not
/// fill a block yet are held as they came.
#[derive(Clone, Debug)]
pub struct BlockQuantKeyCache<T> {
    pub d: usize,
    pub bits: u32,
    pub rows: CodeRows,
    pub block_lo: Vec<T>,
    pub block_scale: Vec<T>,
    pub residual: Vec<T>,
    pub n_res: usize,
    pub n_finalized: usize,
}

impl<T: Scalar> View for BlockQuantKeyCache<T> {
    type V = BlockKeys<T>;

    open spec fn view(&self) -> BlockKeys<T> {
        BlockKeys {
            blocks: Seq::new(self.n_finalized as nat, |b: int| self.block(b)),
            pending: Seq::new(self.n_res as nat, |t: int| self.pending_row(t)),
        }
    }
}

impl<T: Scalar> BlockQuantKeyCache<T> {
    /// Block `b`.
    pub open spec fn block(&self, b: int) -> KeyBlock<T> {
        KeyBlock {
            codes: self.rows@.subrange(b * 32, b * 32 + 32),
            lo: self.block_lo@.subrange(b * self.d, b * self.d + self.d),
            scale: self.block_scale@.subrange(b * self.d, b * self.d + self.d),
        }
    }

    /// Row `t` of those that do not fill a block yet.
    pub open spec fn pending_row(&self, t: int) -> Seq<T> {
        self.residual@.subrange(t * self.d, t * self.d + self.d)
    }

    /// Whether every block is full, with parameters for every channel.
    pub open spec fn wf(&self) -> bool {
        &&& self.rows.wf()
        &&& self.rows.width() == self.d
        &&& self.rows.bits() == self.bits
        &&& self.rows@.len() == self.n_finalized * 32
        &&& self.block_lo@.len() == self.n_finalized * self.d
        &&& self.block_scale@.len() == self.n_finalized * self.d
        &&& self.residual@.len() == self.n_res * self.d
        &&& self.n_res < 32
        &&& self.n_finalized * 32 + self.n_res <= usize::MAX
        &&& packing::packable(self.d as nat, self.bits)
    }

    /// An empty cache of codes of `bits` bits.
    pub fn with_bits(d: usize, bits: u32) -> (r: Self)
        requires
            packing::packable(d as nat, bits),
            d * bits <= usize::MAX,
        ensures
            r.wf(),
            r.d == d,
            r.bits == bits,
            r@ == (BlockKeys::<T> { blocks: Seq::empty(), pending: Seq::empty() }),
    {
        let r = BlockQuantKeyCache {
            d,
            bits,
            rows: CodeRows::new(d, bits),
            block_lo: Vec::new(),
            block_scale: Vec::new(),
            residual: Vec::new(),
            n_res: 0,
            n_finalized: 0,
        };
        assert(0 * d == 0);
        assert(r@ =~= BlockKeys::<T> { blocks: Seq::empty(), pending: Seq::empty() });
        r
    }

    /// The number of tokens.
    pub fn len(&self) -> (r: usize)
        requires
            self.wf(),
        ensures
            r == self@.count(),
    {
        self.n_finalized * KEY_BLOCK + self.n_res
    }

    /// Whether there are no tokens.
    pub fn is_empty(&self) -> (r: bool)
        requires
            self.wf(),
        ensures
            r == (self@.count() == 0),
    {
        self.len() == 0
    }

    /// Appends one token; the one that fills a block has the block quantized.
    pub fn push_token(&mut self, k: &[T])
        requires
            scalar::lawful::<T>(),
            old(self).wf(),
            k@.len() == old(self).d,
            old(self)@.count() < usize::MAX,
        ensures
            final(self).wf(),
            final(self).d == old(self).d,
            final(self).bits == old(self).bits,
            final(self)@ == old(self)@.pushed(k@, old(self).bits),
    {
        let ghost before = *self;
        let d: usize = self.d;
        let mut c: usize = 0;
        while c < d
            invariant
                c <= d,
                d == k@.len(),
                before == *old(self),
                *self == (BlockQuantKeyCache { residual: self.residual, ..before }),
                self.residual@ == before.residual@ + k@.take(c as int),
            decreases d - c,
        {
            self.residual.push(k[c]);
            c += 1;
            assert(k@.take(c as int) =~= k@.take(c - 1).push(k@[c - 1]));
        }
        self.n_res = self.n_res + 1;
        proof {
            assert(k@.take(d as int) =~= k@);
            let n = before.n_res as int;
            assert((n + 1) * d == n * d + d) by (nonlinear_arith);
            assert forall|t: int| 0 <= t < n implies self.pending_row(t) == before.pending_row(
                t,
            ) by {
                lemma_rows_fit(t, n, d as int);
                assert(self.pending_row(t) =~= before.pending_row(t));
            }
            lemma_rows_fit(n, n + 1, d as int);
            assert(self.pending_row(n) =~= k@);
            assert(self@.pending =~= before@.pending.push(k@));
            assert forall|b: int| self.block(b) == before.block(b) by {}
            assert(self@.blocks =~= before@.blocks);
        }
        if self.n_res == KEY_BLOCK {
            self.finalize_block();
        }
    }

    /// Quantizes the full block that is pending.
    fn finalize_block(&mut self)
        requires
            scalar::lawful::<T>(),
            old(self).n_res == 32,
            old(self).rows.wf(),
            old(self).rows.width() == old(self).d,
            old(self).rows.bits() == old(self).bits,
            old(self).rows@.len() == old(self).n_finalized * 32,
            old(self).block_lo@.len() == old(self).n_finalized * old(self).d,
            old(self).block_scale@.len() == old(self).n_finalized * old(self).d,
            old(self).residual@.len() == old(self).n_res * old(self).d,
            old(self).n_finalized * 32 + 32 <= usize::MAX,
            packing::packable(old(self).d as nat, old(self).bits),
        ensures
            final(self).wf(),
            final(self).d == old(self).d,
            final(self).bits == old(self).bits,
            final(self)@.blocks == old(self)@.blocks.push(
                key_block(old(self)@.pending, old(self).d as nat, old(self).bits),
            ),
            final(self)@.pending == Seq::<Seq<T>>::empty(),
    {
        let ghost before = *self;
        let ghost pending = self@.pending;
        let (d, bits): (usize, u32) = (self.d, self.bits);
        let ghost made = key_block(pending, d as nat, bits);
        let lv: T = quant::levels(bits);
        let mut lo: Vec<T> = Vec::new();
        let mut scale: Vec<T> = Vec::new();
        let mut c: usize = 0;
        while c < d
            invariant
                scalar::lawful::<T>(),
                *self == before,
                before.n_res == 32,
                before.residual@.len() == before.n_res * before.d,
                d == before.d,
                lv == quant::levels_spec::<T>(bits),
                pending == before@.pending,
                made == key_block(pending, d as nat, bits),
                c <= d,
                lo@ == made.lo.take(c as int),
                scale@ == made.scale.take(c as int),
            decreases d - c,
        {
            let mut channel: Vec<T> = Vec::new();
            let mut t: usize = 0;
            while t < 32
                invariant
                    *self == before,
                    before.n_res == 32,
                    before.residual@.len() == before.n_res * before.d,
                    d == before.d,
                    pending == before@.pending,
                    c < d,
                    t <= 32,
                    channel@ == column(pending, c as int).take(t as int),
                decreases 32 - t,
            {
                proof {
                    tensor::lemma_cell_in_bounds(t as int, c as int, 32, d as int);
                    assert(self.residual.len() == self.residual@.len());
                    assert(pending[t as int] == before.pending_row(t as int));
                }
                channel.push(self.residual[t * d + c]);
                t += 1;
                assert(channel@ =~= column(pending, c as int).take(t as int));
            }
            assert(channel@ =~= column(pending, c as int));
            let (low, high) = quant::range_of(channel.as_slice());
            lo.push(low);
            scale.push(quant::step_of(low, high, lv));
            c += 1;
            assert(lo@ =~= made.lo.take(c as int));
            assert(scale@ =~= made.scale.take(c as int));
        }
        assert(lo@ =~= made.lo);
        assert(scale@ =~= made.scale);
        let mut t: usize = 0;
        while t < 32
            invariant
                scalar::lawful::<T>(),
                *self == (BlockQuantKeyCache { rows: self.rows, ..before }),
                self.rows.wf(),
                self.rows.width() == d,
                self.rows.bits() == bits,
                before.n_res == 32,
                before.residual@.len() == before.n_res * before.d,
                before.rows@.len() == before.n_finalized * 32,
                before.n_finalized * 32 + 32 <= usize::MAX,
                d == before.d,
                bits == before.bits,
                lv == quant::levels_spec::<T>(bits),
                pending == before@.pending,
                made == key_block(pending, d as nat, bits),
                lo@ == made.lo,
                scale@ == made.scale,
                t <= 32,
                self.rows@ == before.rows@ + made.codes.take(t as int),
            decreases 32 - t,
        {
            let mut codes: Vec<u8> = Vec::new();
            let mut c: usize = 0;
            while c < d
                invariant
                    scalar::lawful::<T>(),
                    *self == (BlockQuantKeyCache { rows: self.rows, ..before }),
                    before.n_res == 32,
                    before.residual@.len() == before.n_res * before.d,
                    d == before.d,
                    bits == before.bits,
                    lv == quant::levels_spec::<T>(bits),
                    pending == before@.pending,
                    made == key_block(pending, d as nat, bits),
                    lo@ == made.lo,
                    scale@ == made.scale,
                    t < 32,
                    c <= d,
                    codes@.len() == c,
                    forall|j: int|
                        0 <= j < c ==> #[trigger] codes@[j] == quant::code_of(
                            pending[t as int][j],
                            made.lo[j],
                            made.scale[j],
                            bits,
                        ),
                decreases d - c,
            {
                proof {
                    tensor::lemma_cell_in_bounds(t as int, c as int, 32, d as int);
                    assert(self.residual.len() == self.residual@.len());
                    assert(pending[t as int] == before.pending_row(t as int));
                }
                let x: T = self.residual[t * d + c];
                codes.push(scalar::to_code(quant::level_of(x, lo[c], scale[c], lv)));
                c += 1;
            }
            let ghost sofar = self.rows@;
            self.rows.push(codes.as_slice());
            proof {
                let last = codes@.map_values(|x: u8| packing::stored(x, bits));
                assert(last =~= made.codes[t as int]);
                assert(made.codes.take(t + 1) =~= made.codes.take(t as int).push(last));
                assert(self.rows@ =~= before.rows@ + made.codes.take(t + 1));
            }
            t += 1;
        }
        self.block_lo.append(&mut lo);
        self.block_scale.append(&mut scale);
        self.residual.clear();
        self.n_res = 0;
        self.n_finalized = self.n_finalized + 1;
        proof {
            let n = before.n_finalized as int;
            assert(made.codes.take(32) =~= made.codes);
            assert((n + 1) * d == n * d + d) by (nonlinear_arith);
            assert(0 * d == 0);
            assert forall|b: int| 0 <= b < n implies self.block(b) == before.block(b) by {
                lemma_rows_fit(b, n, d as int);
                lemma_rows_fit(b, n, 32);
                assert(self.block(b) =~= before.block(b));
            }
            lemma_rows_fit(n, n + 1, d as int);
            assert(self.block(n) =~= made);
            assert(self@.blocks =~= before@.blocks.push(made));
            assert(self@.pending =~= Seq::<Seq<T>>::empty());
        }
    }

    /// Reads all tokens back, one per row.
    pub fn dequant_all(&self) -> (r: Matrix<T>)
        requires
            scalar::lawful::<T>(),
            self.wf(),
            self@.count() * self.d <= usize::MAX,
        ensures
            r.wf(),
            r.rows == self@.count(),
            r.cols == self.d,
            forall|t: int, c: int|
                0 <= t < self@.count() && 0 <= c < self.d ==> #[trigger] r.at(t, c) == self@.value(
                    t,
                    c,
                ),
    {
        let t: usize = self.len();
        let d: usize = self.d;
        let finalized: usize = self.n_finalized * KEY_BLOCK;
        let mut out = zeros(t, d);
        let mut g: usize = 0;
        while g < t
            invariant
                scalar::lawful::<T>(),
                self.wf(),
                t == self@.count(),
                d == self.d,
                finalized == self.n_finalized * 32,
                g <= t,
                out.wf(),
                out.rows == t,
                out.cols == d,
                forall|k: int, c: int|
                    0 <= k < g && 0 <= c < d ==> #[trigger] out.at(k, c) == self@.value(k, c),
            decreases t - g,
        {
            let ghost before = out;
            let ghost by = Seq::new(d as nat, |c: int| self@.value(g as int, c));
            if g < finalized {
                let b: usize = g / KEY_BLOCK;
                let src = self.rows.row(g);
                let dst = out.row_mut(g);
                proof {
                    assert(self@.blocks[b as int] == self.block(b as int));
                    assert(self@.blocks[b as int].codes[g as int % 32] == self.rows@[g as int]);
                    packing::lemma_row_len(d as nat, self.bits);
                }
                let mut c: usize = 0;
                while c < d
                    invariant
                        scalar::lawful::<T>(),
                        self.wf(),
                        d == self.d,
                        finalized == self.n_finalized * 32,
                        g < finalized,
                        b == g / 32,
                        c <= d,
                        dst@.len() == d,
                        src@.len() == quant::row_len(d as nat, self.bits),
                        quant::row_len(d as nat, self.bits) == if self.bits == 4 {
                            math::ceil_div(d as nat, 2)
                        } else {
                            d as nat
                        },
                        forall|j: int|
                            0 <= j < d ==> #[trigger] packing::code_at(src@, self.bits, j)
                                == self@.blocks[b as int].codes[g as int % 32][j],
                        forall|j: int|
                            0 <= j < c ==> #[trigger] dst@[j] == self@.value(g as int, j),
                    decreases d - c,
                {
                    proof {
                        math::lemma_div_below_ceil(c as nat, d as nat, 2);
                        tensor::lemma_cell_in_bounds(
                            b as int,
                            c as int,
                            self.n_finalized as int,
                            d as int,
                        );
                        assert(self.block_lo.len() == self.block_lo@.len());
                        assert(self@.blocks[b as int] == self.block(b as int));
                    }
                    let code: u8 = packing::unpack_code(src, self.bits, c);
                    dst[c] = quant::decode(
                        code,
                        self.block_lo[b * d + c],
                        self.block_scale[b * d + c],
                    );
                    c += 1;
                }
                assert(dst@ =~= by);
            } else {
                let at: usize = g - finalized;
                let dst = out.row_mut(g);
                let mut c: usize = 0;
                while c < d
                    invariant
                        self.wf(),
                        t == self@.count(),
                        d == self.d,
                        finalized == self.n_finalized * 32,
                        finalized <= g < t,
                        at == g - finalized,
                        c <= d,
                        dst@.len() == d,
                        forall|j: int|
                            0 <= j < c ==> #[trigger] dst@[j] == self@.value(g as int, j),
                    decreases d - c,
                {
                    proof {
                        tensor::lemma_cell_in_bounds(
                            at as int,
                            c as int,
                            self.n_res as int,
                            d as int,
                        );
                        assert(self.residual.len() == self.residual@.len());
                        assert(self@.pending[at as int] == self.pending_row(at as int));
                    }
                    dst[c] = self.residual[at * d + c];
                    c += 1;
                }
                assert(dst@ =~= by);
            }
            proof {
                tensor::lemma_row_replaced(before, out, g as int, by);
            }
            g += 1;
        }
        out
    }

    /// The number of bytes held: the packed codes, two parameters for every
    /// channel of every block, and four bytes per element that is pending.
    pub fn memory_bytes(&self) -> (r: usize)
        requires
            self.wf(),
            self@.blocks.len() * 32 * quant::row_len(self.d as nat, self.bits)
                + self@.blocks.len() * self.d * 8 + self@.pending.len() * self.d * 4 <= usize::MAX,
        ensures
            r == self@.blocks.len() * 32 * quant::row_len(self.d as nat, self.bits)
                + self@.blocks.len() * self.d * 8 + self@.pending.len() * self.d * 4,
    {
        proof {
            let rl = quant::row_len(self.d as nat, self.bits) as int;
            let n = self.n_finalized as int;
            assert(n * 32 * rl >= 0) by (nonlinear_arith)
                requires
                    n >= 0,
                    rl >= 0,
            ;
            assert(n * self.d >= 0) by (nonlinear_arith)
                requires
                    n >= 0,
            ;
            assert(self.n_res * self.d >= 0) by (nonlinear_arith);
        }
        self.rows.byte_len() + self.block_lo.len() * 8 + self.residual.len() * 4
    }

    /// A copy.
    pub fn duplicate(&self) -> (r: Self)
        ensures
            r@ == self@,
            r.d == self.d,
            r.bits == self.bits,
            r.wf() == self.wf(),
    {
        let r = BlockQuantKeyCache {
            d: self.d,
            bits: self.bits,
            rows: self.rows.duplicate(),
            block_lo: vstd::slice::slice_to_vec(self.block_lo.as_slice()),
            block_scale: vstd::slice::slice_to_vec(self.block_scale.as_slice()),
            residual: vstd::slice::slice_to_vec(self.residual.as_slice()),
            n_res: self.n_res,
            n_finalized: self.n_finalized,
        };
        assert(r@.blocks =~= self@.blocks);
        assert(r@.pending =~= self@.pending);
        r
    }
}

/// A row among the first `n` of `w` elements each lies within them.
proof fn lemma_rows_fit(t: int, n: int, w: int)
    requires
        0 <= t < n,
        0 <= w,
    ensures
        0 <= t * w,
        t * w + w <= n * w,
{
    assert((t + 1) * w <= n * w) by (nonlinear_arith)
        requires
            t + 1 <= n,
            0 <= w,
    ;
    assert((t + 1) * w == t * w + w) by (nonlinear_arith);
    assert(0 <= t * w) by (nonlinear_arith)
        requires
            0 <= t,
            0 <= w,
    ;
}

/// A token of a value cache reads back as the code of each of its elements
/// under the token's own range, whatever came before it or comes after.
pub proof fn law_value_token_reads_back<T: Scalar>(
    before: Seq<ValueToken<T>>,
    v: Seq<T>,
    bits: u32,
    after: Seq<ValueToken<T>>,
    c: int,
)
    requires
        0 <= c < v.len(),
    ensures
        (before.push(value_token(v, bits)) + after)[before.len() as int].value(bits, c)
            == packing::read_back(
            packing::stored(
                quant::code_of(v[c], quant::least(v), quant::group_step(v, bits), bits),
                bits,
            ),
            v.len() as int,
            bits,
            c,
            quant::least(v),
            quant::group_step(v, bits),
        ),
{
}

/// A push to a value cache leaves what every earlier token reads back as.
pub proof fn law_value_push_keeps_tokens<T: Scalar>(
    tokens: Seq<ValueToken<T>>,
    v: Seq<T>,
    bits: u32,
    t: int,
    c: int,
)
    requires
        0 <= t < tokens.len(),
    ensures
        tokens.push(value_token(v, bits))[t].value(bits, c) == tokens[t].value(bits, c),
{
}

/// A push to a key cache leaves every earlier code, and leaves what a channel's
/// earlier tokens read back as unless it widens that channel.
pub proof fn law_key_push_keeps_codes<T: Scalar>(
    keys: ChannelKeys<T>,
    k: Seq<T>,
    bits: u32,
    t: int,
    c: int,
)
    requires
        k.len() == keys.lo.len(),
        0 <= t < keys.codes.len(),
        0 <= c < k.len(),
    ensures
        keys.pushed(k, bits).codes[t] == keys.codes[t],
        keys.pushed(k, bits).lo[c] == keys.lo[c] && keys.pushed(k, bits).scale[c] == keys.scale[c]
            ==> keys.pushed(k, bits).value(bits, t, c) == keys.value(bits, t, c),
        !k[c].below_spec(keys.lo[c]) && !T::zero_spec().below_spec(k[c].minus_spec(keys.lo[c]))
            ==> keys.pushed(k, bits).value(bits, t, c) == keys.value(bits, t, c),
{
}

/// A push to a block cache adds one token.
pub proof fn law_block_push_adds_one<T: Scalar>(keys: BlockKeys<T>, k: Seq<T>, bits: u32)
    requires
        keys.pending.len() < 32,
    ensures
        keys.pushed(k, bits).count() == keys.count() + 1,
        keys.pushed(k, bits).pending.len() < 32,
{
}

/// A block that has filled up is frozen: no later push changes what its tokens
/// read back as.
pub proof fn law_blocks_are_frozen<T: Scalar>(
    keys: BlockKeys<T>,
    k: Seq<T>,
    bits: u32,
    t: int,
    c: int,
)
    requires
        0 <= t < keys.blocks.len() * 32,
    ensures
        keys.pushed(k, bits).value(t, c) == keys.value(t, c),
{
}

/// A token that does not fill its block reads back exactly, and so do the
/// tokens that wait with it.
pub proof fn law_pending_tokens_are_exact<T: Scalar>(
    keys: BlockKeys<T>,
    k: Seq<T>,
    bits: u32,
    t: int,
    c: int,
)
    requires
        keys.pending.len() < 31,
        keys.blocks.len() * 32 <= t <= keys.count(),
    ensures
        keys.pushed(k, bits).value(t, c) == if t == keys.count() {
            k[c]
        } else {
            keys.value(t, c)
        },
{
}

/// A push to a block cache leaves the tokens of full blocks as they are. Only
/// the push that makes the count a multiple of 32 may change those that wait;
/// any other leaves them too, and the new token reads back exactly.
pub proof fn law_block_push_keeps_rows<T: Scalar>(
    keys: BlockKeys<T>,
    k: Seq<T>,
    bits: u32,
    t: int,
    c: int,
)
    requires
        keys.pending.len() < 32,
        0 <= t <= keys.count(),
    ensures
        keys.pushed(k, bits).count() == keys.count() + 1,
        t < keys.count() as int / 32 * 32 ==> keys.pushed(k, bits).value(t, c) == keys.value(t, c),
        (keys.count() + 1) % 32 != 0 ==> keys.pushed(k, bits).value(t, c) == if t == keys.count() {
            k[c]
        } else {
            keys.value(t, c)
        },
{
    if t < keys.blocks.len() * 32 {
        law_blocks_are_frozen(keys, k, bits, t, c);
    } else if keys.pending.len() < 31 {
        law_pending_tokens_are_exact(keys, k, bits, t, c);
    }
}

/// Every token of the block that a push fills reads back under the very offset
/// and step that it was coded with.
pub proof fn law_filled_block_is_consistent<T: Scalar>(
    keys: BlockKeys<T>,
    k: Seq<T>,
    bits: u32,
    t: int,
    c: int,
)
    requires
        keys.pending.len() == 31,
        0 <= t < 32,
        0 <= c < k.len(),
    ensures
        ({
            let channel = column(keys.pending.push(k), c);
            let lo = quant::least(channel);
            let scale = quant::group_step(channel, bits);
            keys.pushed(k, bits).value(keys.blocks.len() * 32 + t, c) == quant::decoded(
                packing::stored(quant::code_of(channel[t], lo, scale, bits), bits),
                lo,
                scale,
            )
        }),
{
    let all = keys.pushed(k, bits);
    let at = keys.blocks.len() * 32 + t;
    assert(at / 32 == keys.blocks.len());
    assert(at % 32 == t);
    assert(all.blocks[at / 32] == key_block(keys.pending.push(k), k.len(), bits));
}

/// A range holds what lies from its start on before its end.
pub proof fn law_range_ends_before_its_end(r: Range<usize>)
    ensures
        r.start <= r.end ==> span(r) == r.end - r.start,
        r.start > r.end ==> span(r) == 0,
{
}

} // verus!
