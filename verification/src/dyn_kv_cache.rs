//! A key or value cache that is kept in low precision and read back in full.
//!
//! It stays a cache: whatever reads it sees the past and the new tokens, and
//! the symbol that stands for the past length still resolves.

use vstd::prelude::*;

use crate::dims::DimLike;
use crate::datum::DatumType;
use crate::dims;
use crate::exact;
use crate::exact::Reading;
use crate::fact::TypedFact;
use crate::kv_cache::{BlockKeys, BlockQuantKeyCache, QuantValueCache, ValueToken};
use crate::graph::OutletId;
use crate::kv_cache;
use crate::kv_sdpa;
use crate::math;
use crate::nnef;
use crate::nnef::{Attribute, AttributeValue, Invocation, Primitive, ReadError, TypeName};
use crate::packing;
use crate::quant;
use crate::scalar::Scalar;
use crate::scalar;
use crate::spread;
use crate::tensor::{Matrix, NdArray};
use crate::tensor;
use crate::text;

verus! {

/// What one head has cached.
pub enum HeadTokens<T> {
    Key(BlockKeys<T>),
    Value(Seq<ValueToken<T>>),
}

impl<T: Scalar> HeadTokens<T> {
    /// Nothing, as keys or as values.
    pub open spec fn none(per_channel: bool) -> Self {
        if per_channel {
            HeadTokens::Key(BlockKeys { blocks: Seq::empty(), pending: Seq::empty() })
        } else {
            HeadTokens::Value(Seq::empty())
        }
    }

    /// The number of tokens.
    pub open spec fn count(self) -> nat {
        match self {
            HeadTokens::Key(k) => k.count(),
            HeadTokens::Value(v) => v.len(),
        }
    }

    /// The tokens with one more.
    pub open spec fn pushed(self, row: Seq<T>, bits: u32) -> Self {
        match self {
            HeadTokens::Key(k) => HeadTokens::Key(k.pushed(row, bits)),
            HeadTokens::Value(v) => HeadTokens::Value(v.push(kv_cache::value_token(row, bits))),
        }
    }

    /// What column `c` of token `t` reads back as.
    pub open spec fn value(self, bits: u32, t: int, c: int) -> T {
        match self {
            HeadTokens::Key(k) => k.value(t, c),
            HeadTokens::Value(v) => v[t].value(bits, c),
        }
    }

    /// What all tokens read back as, each in `d` columns.
    pub open spec fn rows(self, bits: u32, d: nat) -> Seq<Seq<T>> {
        Seq::new(self.count(), |t: int| Seq::new(d, |c: int| self.value(bits, t, c)))
    }

    /// The tokens after some rows were appended.
    pub open spec fn fed(self, rows: Seq<Seq<T>>, bits: u32) -> Self
        decreases rows.len(),
    {
        if rows.len() == 0 {
            self
        } else {
            self.fed(rows.drop_last(), bits).pushed(rows.last(), bits)
        }
    }

    /// Whether no more than 31 keys wait for their block.
    pub open spec fn settled(self) -> bool {
        match self {
            HeadTokens::Key(k) => k.pending.len() < 32,
            HeadTokens::Value(v) => true,
        }
    }
}

/// Appending rows adds that many tokens.
pub proof fn law_feeding_adds_tokens<T: Scalar>(
    tokens: HeadTokens<T>,
    rows: Seq<Seq<T>>,
    bits: u32,
)
    requires
        tokens.settled(),
    ensures
        tokens.fed(rows, bits).count() == tokens.count() + rows.len(),
        tokens.fed(rows, bits).settled(),
        tokens is Key == tokens.fed(rows, bits) is Key,
    decreases rows.len(),
{
    if rows.len() > 0 {
        law_feeding_adds_tokens(tokens, rows.drop_last(), bits);
    }
}

/// Appending rows in two steps is appending them at once.
pub proof fn law_feeding_in_steps<T: Scalar>(
    tokens: HeadTokens<T>,
    first: Seq<Seq<T>>,
    second: Seq<Seq<T>>,
    bits: u32,
)
    ensures
        tokens.fed(first, bits).fed(second, bits) == tokens.fed(first + second, bits),
    decreases second.len(),
{
    if second.len() == 0 {
        assert(first + second =~= first);
    } else {
        law_feeding_in_steps(tokens, first, second.drop_last(), bits);
        assert((first + second).drop_last() =~= first + second.drop_last());
    }
}

/// Every value reads back as its own codes say, however many came after it.
pub proof fn law_values_accumulate<T: Scalar>(
    tokens: Seq<ValueToken<T>>,
    rows: Seq<Seq<T>>,
    bits: u32,
    t: int,
    c: int,
)
    requires
        0 <= t < tokens.len() + rows.len(),
    ensures
        HeadTokens::Value(tokens).fed(rows, bits) is Value,
        HeadTokens::Value(tokens).fed(rows, bits)->Value_0.len() == tokens.len() + rows.len(),
        HeadTokens::Value(tokens).fed(rows, bits).value(bits, t, c) == if t < tokens.len() {
            tokens[t].value(bits, c)
        } else {
            kv_cache::value_token(rows[t - tokens.len()], bits).value(bits, c)
        },
    decreases rows.len(),
{
    if rows.len() > 0 {
        let last = tokens.len() + rows.len() - 1;
        if t < last {
            law_values_accumulate(tokens, rows.drop_last(), bits, t, c);
        } else if last > 0 {
            law_values_accumulate(tokens, rows.drop_last(), bits, 0, c);
        } else {
            assert(rows.drop_last().len() == 0);
            assert(HeadTokens::Value(tokens).fed(rows.drop_last(), bits) == HeadTokens::Value(
                tokens,
            ));
        }
    }
}

/// Keys whose block has filled up read back the same, however many come after.
pub proof fn law_full_blocks_stay<T: Scalar>(
    keys: BlockKeys<T>,
    rows: Seq<Seq<T>>,
    bits: u32,
    t: int,
    c: int,
)
    requires
        0 <= t < keys.blocks.len() * 32,
    ensures
        HeadTokens::Key(keys).fed(rows, bits) is Key,
        HeadTokens::Key(keys).fed(rows, bits)->Key_0.blocks.len() >= keys.blocks.len(),
        HeadTokens::Key(keys).fed(rows, bits).value(bits, t, c) == keys.value(t, c),
    decreases rows.len(),
{
    if rows.len() > 0 {
        law_full_blocks_stay(keys, rows.drop_last(), bits, t, c);
        let before = HeadTokens::Key(keys).fed(rows.drop_last(), bits)->Key_0;
        kv_cache::law_blocks_are_frozen(before, rows.last(), bits, t, c);
    }
}

/// What a head holds of the keys that it was fed: full blocks, each made of its
/// own 32 keys, and the others as they came.
proof fn lemma_fed_keys<T: Scalar>(rows: Seq<Seq<T>>, d: nat, bits: u32)
    requires
        forall|t: int| 0 <= t < rows.len() ==> (#[trigger] rows[t]).len() == d,
    ensures
        HeadTokens::none(true).fed(rows, bits) is Key,
        ({
            let k = HeadTokens::none(true).fed(rows, bits)->Key_0;
            let n = k.blocks.len() as int;
            &&& n == rows.len() as int / 32
            &&& k.pending == rows.skip(n * 32)
            &&& forall|b: int|
                0 <= b < n ==> #[trigger] k.blocks[b] == kv_cache::key_block(
                    rows.subrange(b * 32, b * 32 + 32),
                    d,
                    bits,
                )
        }),
    decreases rows.len(),
{
    if rows.len() == 0 {
        assert(rows.skip(0) =~= Seq::empty());
    } else {
        let rest = rows.drop_last();
        assert forall|t: int| 0 <= t < rest.len() implies (#[trigger] rest[t]).len() == d by {
            assert(rest[t] == rows[t]);
        }
        lemma_fed_keys(rest, d, bits);
        let before = HeadTokens::none(true).fed(rest, bits)->Key_0;
        let after = before.pushed(rows.last(), bits);
        let n = before.blocks.len() as int;
        assert(rows[rows.len() - 1].len() == d);
        let pending = before.pending.push(rows.last());
        assert(pending =~= rows.skip(n * 32));
        assert forall|b: int| 0 <= b < n implies #[trigger] after.blocks[b] == kv_cache::key_block(
            rows.subrange(b * 32, b * 32 + 32),
            d,
            bits,
        ) by {
            assert(before.blocks[b] == after.blocks[b]);
            assert(rest.subrange(b * 32, b * 32 + 32) =~= rows.subrange(b * 32, b * 32 + 32));
        }
        if pending.len() == 32 {
            assert(pending =~= rows.subrange(n * 32, n * 32 + 32));
            assert(rows.skip((n + 1) * 32) =~= Seq::empty());
        }
    }
}

/// The 32 tokens of the block that the token at `t` falls in.
pub open spec fn block_of<T>(rows: Seq<Seq<T>>, t: int) -> Seq<Seq<T>> {
    let b = t / 32;
    rows.subrange(b * 32, b * 32 + 32)
}

/// How near column `c` of the token at `t` reads back to what was fed: a key
/// within half the step of its block, or exactly while its block is not full;
/// a value within half its own step.
pub open spec fn near<T: Scalar>(
    f: Reading<T>,
    per_channel: bool,
    rows: Seq<Seq<T>>,
    bits: u32,
    t: int,
    c: int,
    y: T,
) -> bool {
    if !per_channel {
        f.within_half(y, rows[t][c], f.range_step(rows[t], bits))
    } else if t < rows.len() as int / 32 * 32 {
        f.within_half(
            y,
            rows[t][c],
            f.range_step(kv_cache::column(block_of(rows, t), c), bits),
        )
    } else {
        y == rows[t][c]
    }
}

/// A head keeps every token that it was fed, in order, and each reads back near
/// what was fed.
pub proof fn law_fed_head_reads_back<T: Scalar>(
    f: Reading<T>,
    per_channel: bool,
    rows: Seq<Seq<T>>,
    d: nat,
    bits: u32,
    t: int,
    c: int,
)
    requires
        f.exact(),
        bits == 4 || bits == 8,
        exact::real_rows(f, rows, d),
        0 <= t < rows.len(),
        0 <= c < d,
    ensures
        HeadTokens::none(per_channel).fed(rows, bits).count() == rows.len(),
        near(
            f,
            per_channel,
            rows,
            bits,
            t,
            c,
            HeadTokens::none(per_channel).fed(rows, bits).value(bits, t, c),
        ),
{
    let none = HeadTokens::<T>::none(per_channel);
    law_feeding_adds_tokens(none, rows, bits);
    assert(rows[t].len() == d && f.all(rows[t]));
    if per_channel {
        assert forall|u: int| 0 <= u < rows.len() implies (#[trigger] rows[u]).len() == d by {}
        lemma_fed_keys(rows, d, bits);
        let k = none.fed(rows, bits)->Key_0;
        let n = k.blocks.len() as int;
        if t < n * 32 {
            let b = t / 32;
            let block = block_of(rows, t);
            assert(0 <= b < n);
            assert(k.blocks[b] == kv_cache::key_block(block, d, bits));
            let column = kv_cache::column(block, c);
            assert forall|u: int| 0 <= u < column.len() implies f.is(#[trigger] column[u]) by {
                assert(f.all(rows[b * 32 + u]));
                assert(f.is(rows[b * 32 + u][c]));
            }
            exact::law_block_is_within_half_a_step(f, block, d, bits, t % 32, c);
            assert(block[t % 32] == rows[t]);
        } else {
            assert(k.pending[t - n * 32] == rows[t]);
        }
    } else {
        law_values_accumulate(Seq::<ValueToken<T>>::empty(), rows, bits, t, c);
        exact::law_value_is_within_half_a_step(f, rows[t], bits, c);
    }
}

/// The packed store of one head: keys in blocks per channel, values per token.
#[derive(Clone, Debug)]
pub enum HeadCache<T> {
    Key(BlockQuantKeyCache<T>),
    Value(QuantValueCache<T>),
}

impl<T: Scalar> View for HeadCache<T> {
    type V = HeadTokens<T>;

    open spec fn view(&self) -> HeadTokens<T> {
        match self {
            HeadCache::Key(c) => HeadTokens::Key(c@),
            HeadCache::Value(c) => HeadTokens::Value(c@),
        }
    }
}

impl<T: Scalar> HeadCache<T> {
    /// Whether the store is valid.
    pub open spec fn wf(&self) -> bool {
        match self {
            HeadCache::Key(c) => c.wf(),
            HeadCache::Value(c) => c.wf(),
        }
    }

    /// The width of the vectors.
    pub open spec fn width(&self) -> usize {
        match self {
            HeadCache::Key(c) => c.d,
            HeadCache::Value(c) => c.d,
        }
    }

    /// The number of bits per code.
    pub open spec fn bits(&self) -> u32 {
        match self {
            HeadCache::Key(c) => c.bits,
            HeadCache::Value(c) => c.bits,
        }
    }

    /// Whether this is a valid store of vectors of width `d` in codes of `bits` bits.
    pub open spec fn fits(&self, d: usize, bits: u32) -> bool {
        self.wf() && self.width() == d && self.bits() == bits
    }

    /// The number of bytes held.
    pub open spec fn bytes(&self) -> nat {
        match self {
            HeadCache::Key(c) => (c@.blocks.len() * 32 * quant::row_len(c.d as nat, c.bits)
                + c@.blocks.len() * c.d * 8 + c@.pending.len() * c.d * 4) as nat,
            HeadCache::Value(c) => c@.len() * quant::row_len(c.d as nat, c.bits) + c@.len() * 8,
        }
    }

    /// An empty store.
    pub fn new(per_channel: bool, d: usize, bits: u32) -> (r: Self)
        requires
            packing::packable(d as nat, bits),
            d * bits <= usize::MAX,
        ensures
            r.fits(d, bits),
            r@ == HeadTokens::<T>::none(per_channel),
    {
        if per_channel {
            HeadCache::Key(BlockQuantKeyCache::with_bits(d, bits))
        } else {
            HeadCache::Value(QuantValueCache::with_bits(d, bits))
        }
    }

    /// Appends one token.
    pub fn push(&mut self, row: &[T])
        requires
            scalar::lawful::<T>(),
            old(self).wf(),
            row@.len() == old(self).width(),
            old(self)@.count() < usize::MAX,
        ensures
            final(self).fits(old(self).width(), old(self).bits()),
            final(self)@ == old(self)@.pushed(row@, old(self).bits()),
    {
        match self {
            HeadCache::Key(c) => c.push_token(row),
            HeadCache::Value(c) => c.push_token(row),
        }
    }

    /// Reads all tokens back, one per row.
    pub fn dequant_all(&self) -> (r: Matrix<T>)
        requires
            scalar::lawful::<T>(),
            self.wf(),
            self@.count() * self.width() <= usize::MAX,
        ensures
            r.wf(),
            r.rows == self@.count(),
            r.cols == self.width(),
            forall|t: int, c: int|
                0 <= t < self@.count() && 0 <= c < self.width() ==> #[trigger] r.at(t, c)
                    == self@.value(self.bits(), t, c),
    {
        match self {
            HeadCache::Key(c) => c.dequant_all(),
            HeadCache::Value(c) => c.dequant_all(),
        }
    }

    /// The number of tokens.
    pub fn len(&self) -> (r: usize)
        requires
            self.wf(),
        ensures
            r == self@.count(),
    {
        match self {
            HeadCache::Key(c) => c.len(),
            HeadCache::Value(c) => c.len(),
        }
    }

    /// The number of bytes held.
    pub fn memory_bytes(&self) -> (r: usize)
        requires
            self.wf(),
            self.bytes() <= usize::MAX,
        ensures
            r == self.bytes(),
    {
        match self {
            HeadCache::Key(c) => {
                proof {
                    let n = c@.blocks.len() as int;
                    let rl = quant::row_len(c.d as nat, c.bits) as int;
                    assert(n * 32 * rl >= 0) by (nonlinear_arith)
                        requires
                            n >= 0,
                            rl >= 0,
                    ;
                    assert(n * c.d * 8 >= 0) by (nonlinear_arith)
                        requires
                            n >= 0,
                    ;
                    let p = c@.pending.len() as int;
                    assert(p * c.d * 4 >= 0) by (nonlinear_arith)
                        requires
                            p >= 0,
                    ;
                }
                c.memory_bytes()
            },
            HeadCache::Value(c) => c.memory_bytes(),
        }
    }

    /// A copy.
    pub fn duplicate(&self) -> (r: Self)
        ensures
            r@ == self@,
            r.width() == self.width(),
            r.bits() == self.bits(),
            r.wf() == self.wf(),
    {
        match self {
            HeadCache::Key(c) => HeadCache::Key(c.duplicate()),
            HeadCache::Value(c) => HeadCache::Value(c.duplicate()),
        }
    }
}

/// Why a cache refuses what it is given.
#[derive(Clone, Copy, Debug, PartialEq, Eq, Structural)]
pub enum CacheError {
    /// There is not exactly one input.
    InputCount,
    /// The tensor is not of rank 4.
    Rank,
    /// The sequence axis is not the third.
    Axis,
    /// Batch, heads or width differ from what is cached.
    ShapeChanged,
    /// More than one symbol of the past's shape is unresolved.
    Symbols,
    /// There is no tensor left to start from.
    NoInitializer,
}

/// A symbol that got a value.
#[derive(Clone, Copy, Debug, PartialEq, Eq, Structural)]
pub struct Binding {
    pub symbol: u64,
    pub value: i64,
}

/// What became of an attempt to start from a tensor: the symbol that it bound,
/// if any, and whether the tensor was taken.
#[derive(Clone, Copy, Debug, PartialEq, Eq)]
pub struct Loaded {
    pub bound: Option<Binding>,
    pub taken: Result<(), CacheError>,
}

/// A cache that grows along one axis and is kept in low precision: keys per
/// channel, or values per token.
#[derive(Debug)]
pub struct QuantizedDynKeyValueCache<D> {
    pub name: String,
    pub axis: usize,
    pub bits: u32,
    pub per_channel: bool,
    pub past_sequence_fact: TypedFact<D>,
    pub input_sequence_fact: TypedFact<D>,
}

impl<D: DimLike> QuantizedDynKeyValueCache<D> {
    /// The operator's name.
    pub fn name(&self) -> (r: &'static str)
        ensures
            r@ == "QuantizedDynKeyValueCache"@,
    {
        "QuantizedDynKeyValueCache"
    }

    /// One line about the operator.
    pub fn info(&self) -> (r: Vec<String>)
        ensures
            r@.len() == 1,
            r@[0]@ == "bits="@ + text::decimal(self.bits as nat) + ", per_channel="@ + text::truth(
                self.per_channel,
            ) + ", axis="@ + text::decimal(self.axis as nat),
    {
        let mut s = "bits=".to_owned();
        text::push_decimal(&mut s, self.bits as usize);
        s.append(", per_channel=");
        text::push_truth(&mut s, self.per_channel);
        s.append(", axis=");
        text::push_decimal(&mut s, self.axis);
        let mut r: Vec<String> = Vec::new();
        r.push(s);
        r
    }

    /// The result depends on what was cached before.
    pub fn is_stateless(&self) -> (r: bool)
        ensures
            !r,
    {
        false
    }

    /// A state that has cached nothing yet.
    pub fn state<T: Scalar>(&self) -> (r: QuantizedDynKvCacheState<T, D>)
        requires
            dims::lawful::<D>(),
        ensures
            r.wf(),
            r.name@ == self.name@,
            r.axis == self.axis,
            r.bits == self.bits,
            r.per_channel == self.per_channel,
            r.past_sequence_fact@ == self.past_sequence_fact@,
            r.heads() == Seq::<HeadTokens<T>>::empty(),
            r.lead_shape@ == Seq::<usize>::empty(),
            r.d == 0,
            r.len == 0,
    {
        let r = QuantizedDynKvCacheState {
            name: self.name.clone(),
            axis: self.axis,
            bits: self.bits,
            per_channel: self.per_channel,
            past_sequence_fact: self.past_sequence_fact.duplicate(),
            caches: Vec::new(),
            lead_shape: Vec::new(),
            d: 0,
            len: 0,
        };
        assert(r.heads() =~= Seq::<HeadTokens<T>>::empty());
        r
    }

    /// The output is like the input, with past and new tokens on the sequence
    /// axis.
    pub fn output_facts(&self, inputs: &[&TypedFact<D>]) -> (r: Result<
        Vec<TypedFact<D>>,
        CacheError,
    >)
        requires
            dims::lawful::<D>(),
            inputs@.len() == 1 ==> self.axis < inputs@[0].shape@.len(),
            inputs@.len() == 1 ==> self.axis < self.past_sequence_fact.shape@.len(),
            inputs@.len() == 1 ==> self.axis < self.input_sequence_fact.shape@.len(),
        ensures
            inputs@.len() != 1 ==> r == Err::<Vec<TypedFact<D>>, CacheError>(
                CacheError::InputCount,
            ),
            inputs@.len() == 1 ==> {
                &&& r is Ok
                &&& r->Ok_0@.len() == 1
                &&& r->Ok_0@[0].datum_type == inputs@[0].datum_type
                &&& r->Ok_0@[0].shape@ == inputs@[0].shape@.update(
                    self.axis as int,
                    self.past_sequence_fact.shape@[self.axis as int].sum_spec(
                        self.input_sequence_fact.shape@[self.axis as int],
                    ),
                )
            },
    {
        if inputs.len() != 1 {
            return Err(CacheError::InputCount);
        }
        let mut fact = inputs[0].duplicate();
        let total = dims::sum(
            &self.past_sequence_fact.shape[self.axis],
            &self.input_sequence_fact.shape[self.axis],
        );
        fact.shape.set(self.axis, total);
        let mut r: Vec<TypedFact<D>> = Vec::new();
        r.push(fact);
        Ok(r)
    }
}

/// The running state of [`QuantizedDynKeyValueCache`].
#[derive(Debug)]
pub struct QuantizedDynKvCacheState<T, D> {
    pub name: String,
    pub axis: usize,
    pub bits: u32,
    pub per_channel: bool,
    pub past_sequence_fact: TypedFact<D>,
    pub caches: Vec<HeadCache<T>>,
    /// The extents before the sequence axis: batch and heads.
    pub lead_shape: Vec<usize>,
    /// The width of the cached vectors.
    pub d: usize,
    /// The number of tokens cached.
    pub len: usize,
}

/// The symbols among some dimensions that have no value yet.
pub open spec fn unresolved<D: DimLike>(shape: Seq<D>, resolved: Seq<u64>) -> Seq<u64>
    decreases shape.len(),
{
    if shape.len() == 0 {
        Seq::empty()
    } else {
        let before = unresolved(shape.drop_last(), resolved);
        match shape.last().symbol_spec() {
            Some(s) if !resolved.contains(s) => before.push(s),
            _ => before,
        }
    }
}

/// What a length binds, given the symbols that have a value.
pub open spec fn binding<D: DimLike>(shape: Seq<D>, resolved: Seq<u64>, len: usize) -> Result<
    Option<Binding>,
    CacheError,
> {
    let open = unresolved(shape, resolved);
    if open.len() == 0 {
        Ok(None)
    } else if open.len() == 1 {
        Ok(Some(Binding { symbol: open[0], value: len as i64 }))
    } else {
        Err(CacheError::Symbols)
    }
}

/// Whether a symbol is among some.
fn is_among(symbol: u64, among: &[u64]) -> (r: bool)
    ensures
        r == among@.contains(symbol),
{
    let mut i: usize = 0;
    while i < among.len()
        invariant
            i <= among@.len(),
            forall|k: int| 0 <= k < i ==> among@[k] != symbol,
        decreases among@.len() - i,
    {
        if among[i] == symbol {
            return true;
        }
        i += 1;
    }
    false
}

impl<T: Scalar, D: DimLike> QuantizedDynKvCacheState<T, D> {
    /// What every head has cached.
    pub open spec fn heads(&self) -> Seq<HeadTokens<T>> {
        Seq::new(self.caches@.len(), |i: int| self.caches@[i]@)
    }

    /// Whether there is a valid store for every head, and each holds all tokens.
    pub open spec fn wf(&self) -> bool {
        &&& self.lead_shape@.len() == 0 || self.lead_shape@.len() == 2
        &&& self.lead_shape@.len() == 0 ==> self.caches@.len() == 0 && self.len == 0 && self.d == 0
        &&& self.lead_shape@.len() == 2 ==> self.caches@.len() == self.lead_shape@[0]
            * self.lead_shape@[1]
        &&& forall|i: int|
            0 <= i < self.caches@.len() ==> {
                &&& (#[trigger] self.caches@[i]).fits(self.d, self.bits)
                &&& self.caches@[i]@.count() == self.len
                &&& self.caches@[i]@.settled()
                &&& self.caches@[i]@ is Key == self.per_channel
            }
    }

    /// The fields that no call changes.
    pub open spec fn same_setup(&self, other: &Self) -> bool {
        &&& self.name == other.name
        &&& self.axis == other.axis
        &&& self.bits == other.bits
        &&& self.per_channel == other.per_channel
        &&& self.past_sequence_fact == other.past_sequence_fact
    }

    /// The name under which the past is known, and what is known of it.
    pub fn init_tensor_fact(&self) -> (r: Option<(String, TypedFact<D>)>)
        requires
            dims::lawful::<D>(),
        ensures
            match r {
                Some((name, fact)) => name@ == self.name@ && fact@ == self.past_sequence_fact@,
                None => false,
            },
    {
        Some((self.name.clone(), self.past_sequence_fact.duplicate()))
    }

    /// There is something to start from.
    pub fn has_init_tensor_fact(&self) -> (r: bool)
        ensures
            r,
    {
        true
    }

    /// Binds the one symbol of the past's shape that has no value to `len`.
    pub fn bind_past(&self, resolved: &[u64], len: usize) -> (r: Result<Option<Binding>, CacheError>)
        requires
            dims::lawful::<D>(),
        ensures
            r == binding(self.past_sequence_fact.shape@, resolved@, len),
    {
        let shape = &self.past_sequence_fact.shape;
        let mut open: Vec<u64> = Vec::new();
        let mut i: usize = 0;
        assert(shape@.take(0) =~= Seq::<D>::empty());
        while i < shape.len()
            invariant
                dims::lawful::<D>(),
                i <= shape@.len(),
                open@ == unresolved(shape@.take(i as int), resolved@),
            decreases shape@.len() - i,
        {
            proof {
                assert(shape@.take(i + 1).drop_last() =~= shape@.take(i as int));
                assert(shape@.take(i + 1).last() == shape@[i as int]);
            }
            if let Some(s) = dims::symbol(&shape[i]) {
                if !is_among(s, resolved) {
                    open.push(s);
                }
            }
            i += 1;
        }
        assert(shape@.take(i as int) =~= shape@);
        if open.len() == 0 {
            return Ok(None);
        }
        if open.len() != 1 {
            return Err(CacheError::Symbols);
        }
        Ok(Some(Binding { symbol: open[0], value: len as i64 }))
    }

    /// Binds the past's length to the number of tokens cached.
    pub fn resolve_symbols(&self, resolved: &[u64]) -> (r: Result<Option<Binding>, CacheError>)
        requires
            dims::lawful::<D>(),
        ensures
            r == binding(self.past_sequence_fact.shape@, resolved@, self.len),
    {
        self.bind_past(resolved, self.len)
    }

    /// What a tensor is refused for, if anything.
    pub open spec fn refusal(&self, x: &NdArray<T>) -> Option<CacheError> {
        if !x.is_rank4() {
            Some(CacheError::Rank)
        } else if self.axis != 2 {
            Some(CacheError::Axis)
        } else if self.caches@.len() > 0 && !(x.shape@[3] == self.d && self.lead_shape@
            == x.shape@.take(2)) {
            Some(CacheError::ShapeChanged)
        } else {
            None
        }
    }

    /// What the heads of a tensor are appended to.
    pub open spec fn start(&self, x: &NdArray<T>) -> Seq<HeadTokens<T>> {
        if self.caches@.len() == 0 {
            Seq::new(
                (x.shape@[0] * x.shape@[1]) as nat,
                |i: int| HeadTokens::none(self.per_channel),
            )
        } else {
            self.heads()
        }
    }

    /// What every head has cached once a tensor is taken in.
    pub open spec fn heads_fed(&self, x: &NdArray<T>) -> Seq<HeadTokens<T>> {
        let h = x.shape@[1] as int;
        let start = self.start(x);
        Seq::new(
            start.len(),
            |i: int|
                start[i].fed(kv_sdpa::head_rows(x, i / h, i % h, x.shape@[2] as int), self.bits),
        )
    }

    /// Whether a tensor that is not refused can be taken in.
    pub open spec fn takes(&self, x: &NdArray<T>) -> bool {
        &&& x.wf()
        &&& self.len + x.shape@[2] <= usize::MAX
        &&& x.shape@[0] * x.shape@[1] <= usize::MAX
        &&& self.caches@.len() == 0 && x.shape@[0] * x.shape@[1] > 0 ==> {
            &&& packing::packable(x.shape@[3] as nat, self.bits)
            &&& x.shape@[3] * self.bits <= usize::MAX
            &&& self.len == 0
        }
    }

    /// Appends every token of a tensor to the store of its head.
    pub fn ingest(&mut self, x: &NdArray<T>) -> (r: Result<(), CacheError>)
        requires
            scalar::lawful::<T>(),
            old(self).wf(),
            old(self).refusal(x) is None ==> old(self).takes(x),
        ensures
            final(self).wf(),
            final(self).same_setup(old(self)),
            match old(self).refusal(x) {
                Some(e) => r == Err::<(), CacheError>(e) && *final(self) == *old(self),
                None => {
                    &&& r == Ok::<(), CacheError>(())
                    &&& final(self).d == x.shape@[3]
                    &&& final(self).lead_shape@ == x.shape@.take(2)
                    &&& final(self).len == old(self).len + x.shape@[2]
                    &&& final(self).heads() == old(self).heads_fed(x)
                },
            },
    {
        if x.shape.len() != 4 {
            return Err(CacheError::Rank);
        }
        if self.axis != 2 {
            return Err(CacheError::Axis);
        }
        let (b, h, s, d): (usize, usize, usize, usize) = (
            x.shape[0],
            x.shape[1],
            x.shape[2],
            x.shape[3],
        );
        proof {
            assert(x.shape@.take(2) =~= seq![b, h]);
            assert(0 <= b * h) by (nonlinear_arith);
        }
        if self.caches.len() != 0 && (d != self.d || self.lead_shape[0] != b || self.lead_shape[1]
            != h) {
            return Err(CacheError::ShapeChanged);
        }
        let bits: u32 = self.bits;
        let per_channel: bool = self.per_channel;
        let heads: usize = b * h;
        let ghost start = self.start(x);
        if self.caches.len() == 0 {
            self.d = d;
            let mut lead: Vec<usize> = Vec::new();
            lead.push(b);
            lead.push(h);
            let mut i: usize = 0;
            while i < heads
                invariant
                    heads > 0 ==> packing::packable(d as nat, bits),
                    heads > 0 ==> d * bits <= usize::MAX,
                    i <= heads,
                    *self == (QuantizedDynKvCacheState { d, caches: self.caches, ..*old(self) }),
                    self.caches@.len() == i,
                    forall|j: int|
                        0 <= j < i ==> {
                            &&& (#[trigger] self.caches@[j]).fits(d, bits)
                            &&& self.caches@[j]@ == HeadTokens::<T>::none(per_channel)
                        },
                decreases heads - i,
            {
                self.caches.push(HeadCache::new(per_channel, d, bits));
                i += 1;
            }
            self.lead_shape = lead;
        }
        assert(self.heads() =~= start);
        assert(self.lead_shape@ =~= seq![b, h]);
        let ghost fed = old(self).heads_fed(x);
        let mut i: usize = 0;
        while i < heads
            invariant
                scalar::lawful::<T>(),
                x.wf(),
                x.is_rank4(),
                b == x.shape@[0],
                h == x.shape@[1],
                s == x.shape@[2],
                d == x.shape@[3],
                heads == b * h,
                i <= heads,
                self.caches@.len() == heads,
                self.d == d,
                self.bits == bits,
                bits == old(self).bits,
                self.per_channel == per_channel,
                self.len == old(self).len,
                self.len + s <= usize::MAX,
                self.lead_shape@ == seq![b, h],
                self.same_setup(old(self)),
                start == old(self).start(x),
                start.len() == heads,
                fed == old(self).heads_fed(x),
                forall|j: int|
                    0 <= j < heads ==> {
                        &&& (#[trigger] self.caches@[j]).fits(d, bits)
                        &&& self.caches@[j]@.settled()
                        &&& self.caches@[j]@ is Key == per_channel
                        &&& self.caches@[j]@ == if j < i {
                            fed[j]
                        } else {
                            start[j]
                        }
                        &&& self.caches@[j]@.count() == if j < i {
                            self.len + s
                        } else {
                            self.len as int
                        }
                    },
            decreases heads - i,
        {
            proof {
                kv_sdpa::lemma_head_of(i as int, b as int, h as int);
            }
            let (bi, hi): (usize, usize) = (i / h, i % h);
            let ghost rows = kv_sdpa::head_rows(x, bi as int, hi as int, s as int);
            assert(self.caches@[i as int]@ == start[i as int]);
            let mut t: usize = 0;
            assert(rows.take(0) =~= Seq::<Seq<T>>::empty());
            let ghost before = *self;
            while t < s
                invariant
                    scalar::lawful::<T>(),
                    x.wf(),
                    x.is_rank4(),
                    b == x.shape@[0],
                    h == x.shape@[1],
                    s == x.shape@[2],
                    d == x.shape@[3],
                    bi < b,
                    hi < h,
                    i < heads,
                    t <= s,
                    rows == kv_sdpa::head_rows(x, bi as int, hi as int, s as int),
                    before.caches@.len() == heads,
                    self.caches@.len() == heads,
                    *self == (QuantizedDynKvCacheState { caches: self.caches, ..before }),
                    forall|j: int|
                        0 <= j < heads && j != i ==> #[trigger] self.caches@[j]
                            == before.caches@[j],
                    self.caches@[i as int].fits(d, bits),
                    self.caches@[i as int]@ == start[i as int].fed(rows.take(t as int), bits),
                    start[i as int].settled(),
                    start[i as int].count() + s <= usize::MAX,
                decreases s - t,
            {
                let ghost now = *self;
                let row = x.row4_ref(bi, hi, t);
                proof {
                    law_feeding_adds_tokens(start[i as int], rows.take(t as int), bits);
                    assert(rows.take(t + 1).drop_last() =~= rows.take(t as int));
                    assert(rows.take(t + 1).last() == row@);
                }
                let cache = &mut self.caches[i];
                cache.push(row);
                t += 1;
            }
            proof {
                assert(rows.take(s as int) =~= rows);
                law_feeding_adds_tokens(start[i as int], rows, bits);
                assert(fed[i as int] == start[i as int].fed(rows, bits));
            }
            i += 1;
        }
        self.len = self.len + s;
        assert(self.heads() =~= fed);
        Ok(())
    }

    /// Starts from a tensor: its length is bound to the past's symbol, and its
    /// tokens are cached.
    pub fn load_from(&mut self, resolved: &[u64], init: Option<&NdArray<T>>) -> (r: Loaded)
        requires
            scalar::lawful::<T>(),
            dims::lawful::<D>(),
            old(self).wf(),
            init is Some ==> old(self).axis < init->0.shape@.len(),
            init is Some && old(self).refusal(init->0) is None ==> old(self).takes(init->0),
        ensures
            final(self).wf(),
            final(self).same_setup(old(self)),
            match init {
                None => {
                    &&& *final(self) == *old(self)
                    &&& r.bound is None
                    &&& r.taken == Err::<(), CacheError>(CacheError::NoInitializer)
                },
                Some(x) => match binding(
                    old(self).past_sequence_fact.shape@,
                    resolved@,
                    x.shape@[old(self).axis as int],
                ) {
                    Err(e) => {
                        &&& *final(self) == *old(self)
                        &&& r.bound is None
                        &&& r.taken == Err::<(), CacheError>(e)
                    },
                    Ok(bound) => {
                        &&& r.bound == bound
                        &&& match old(self).refusal(x) {
                            Some(e) => r.taken == Err::<(), CacheError>(e) && *final(self) == *old(
                                self,
                            ),
                            None => {
                                &&& r.taken == Ok::<(), CacheError>(())
                                &&& final(self).d == x.shape@[3]
                                &&& final(self).lead_shape@ == x.shape@.take(2)
                                &&& final(self).len == old(self).len + x.shape@[2]
                                &&& final(self).heads() == old(self).heads_fed(x)
                            },
                        }
                    },
                },
            },
    {
        match init {
            None => Loaded { bound: None, taken: Err(CacheError::NoInitializer) },
            Some(x) => match self.bind_past(resolved, x.shape[self.axis]) {
                Err(e) => Loaded { bound: None, taken: Err(e) },
                Ok(bound) => {
                    let taken = self.ingest(x);
                    Loaded { bound, taken }
                },
            },
        }
    }

    /// The shape of all that is cached.
    pub open spec fn full_shape(&self) -> Seq<usize> {
        self.lead_shape@ + seq![self.len, self.d]
    }

    /// Whether a tensor is all that is cached, read back.
    pub open spec fn reads_back(&self, x: &NdArray<T>) -> bool {
        &&& x.wf()
        &&& x.shape@ == self.full_shape()
        &&& forall|i: int, t: int, c: int|
            0 <= i < self.caches@.len() && 0 <= t < self.len && 0 <= c < self.d
                ==> #[trigger] x.data@[(i * self.len + t) * self.d + c] == self.heads()[i].value(
                self.bits,
                t,
                c,
            )
    }

    /// Reads all that is cached back, `[batch, heads, tokens, width]`.
    pub fn dequantized(&self) -> (r: NdArray<T>)
        requires
            scalar::lawful::<T>(),
            self.wf(),
            self.caches@.len() * self.len * self.d <= usize::MAX,
        ensures
            self.reads_back(&r),
    {
        let (n, d): (usize, usize) = (self.len, self.d);
        let ghost area = n * d;
        let mut data: Vec<T> = Vec::new();
        let mut i: usize = 0;
        proof {
            assert(0 * area == 0);
        }
        while i < self.caches.len()
            invariant
                scalar::lawful::<T>(),
                self.wf(),
                n == self.len,
                d == self.d,
                area == n * d,
                self.caches@.len() * self.len * self.d <= usize::MAX,
                i <= self.caches@.len(),
                data@.len() == i * area,
                forall|k: int, t: int, c: int|
                    0 <= k < i && 0 <= t < n && 0 <= c < d ==> #[trigger] data@[(k * n + t) * d + c]
                        == self.heads()[k].value(self.bits, t, c),
            decreases self.caches@.len() - i,
        {
            proof {
                let m = self.caches@.len() as int;
                assert(n * d <= m * n * d) by (nonlinear_arith)
                    requires
                        m >= 1,
                ;
                assert(self.heads()[i as int] == self.caches@[i as int]@);
            }
            let ghost before = data@;
            let head = self.caches[i].dequant_all();
            crate::attention::append_all(&mut data, head.data.as_slice());
            proof {
                assert((i + 1) * area == i * area + area) by (nonlinear_arith);
                assert forall|k: int, t: int, c: int|
                    0 <= k < i + 1 && 0 <= t < n && 0 <= c < d implies #[trigger] data@[(k * n + t)
                    * d + c] == self.heads()[k].value(self.bits, t, c) by {
                    assert((k * n + t) * d + c == k * area + (t * d + c)) by (nonlinear_arith)
                        requires
                            area == n * d,
                    ;
                    tensor::lemma_cell_in_bounds(t, c, n as int, d as int);
                    if k < i {
                        assert((k + 1) * area <= i * area) by (nonlinear_arith)
                            requires
                                k + 1 <= i,
                                area >= 0,
                        ;
                        assert((k + 1) * area == k * area + area) by (nonlinear_arith);
                        assert(0 <= k * area) by (nonlinear_arith)
                            requires
                                0 <= k,
                                area >= 0,
                        ;
                        assert(before[(k * n + t) * d + c] == self.heads()[k].value(
                            self.bits,
                            t,
                            c,
                        ));
                    } else {
                        assert(head.at(t, c) == self.heads()[k].value(self.bits, t, c));
                    }
                }
            }
            i += 1;
        }
        let mut shape = vstd::slice::slice_to_vec(self.lead_shape.as_slice());
        shape.push(n);
        shape.push(d);
        let r = NdArray { shape, data };
        proof {
            assert(r.shape@ =~= self.full_shape());
            let full = self.full_shape();
            if self.lead_shape@.len() == 2 {
                tensor::lemma_volume4(full);
                let (b, h) = (full[0] as int, full[1] as int);
                assert(b * h * n * d == (b * h) * area) by (nonlinear_arith)
                    requires
                        area == n * d,
                ;
            } else {
                reveal_with_fuel(tensor::volume, 3);
                assert(full.drop_last().last() == n);
                assert(full.drop_last().drop_last().len() == 0);
                assert(area == 0) by (nonlinear_arith)
                    requires
                        area == n * d,
                        n == 0,
                ;
                assert(tensor::volume(full) == 0);
            }
        }
        r
    }

    /// Hands out all that is cached, to start from later.
    pub fn save_to(&self) -> (r: NdArray<T>)
        requires
            scalar::lawful::<T>(),
            self.wf(),
            self.caches@.len() * self.len * self.d <= usize::MAX,
        ensures
            self.reads_back(&r),
    {
        self.dequantized()
    }

    /// Caches the tokens of the input, then reads everything back.
    pub fn eval(&mut self, inputs: &[NdArray<T>]) -> (r: Result<NdArray<T>, CacheError>)
        requires
            scalar::lawful::<T>(),
            old(self).wf(),
            inputs@.len() == 1 && old(self).refusal(&inputs@[0]) is None ==> {
                let x = &inputs@[0];
                &&& old(self).takes(x)
                &&& x.shape@[0] * x.shape@[1] * (old(self).len + x.shape@[2]) * x.shape@[3]
                    <= usize::MAX
            },
        ensures
            final(self).wf(),
            final(self).same_setup(old(self)),
            inputs@.len() != 1 ==> r == Err::<NdArray<T>, CacheError>(CacheError::InputCount)
                && *final(self) == *old(self),
            inputs@.len() == 1 ==> {
                let x = &inputs@[0];
                match old(self).refusal(x) {
                    Some(e) => r == Err::<NdArray<T>, CacheError>(e) && *final(self) == *old(self),
                    None => {
                        &&& final(self).d == x.shape@[3]
                        &&& final(self).lead_shape@ == x.shape@.take(2)
                        &&& final(self).len == old(self).len + x.shape@[2]
                        &&& final(self).heads() == old(self).heads_fed(x)
                        &&& r is Ok
                        &&& final(self).reads_back(&r->Ok_0)
                    },
                }
            },
    {
        if inputs.len() != 1 {
            return Err(CacheError::InputCount);
        }
        match self.ingest(&inputs[0]) {
            Err(e) => Err(e),
            Ok(_) => {
                assert(self.caches@.len() == inputs@[0].shape@[0] * inputs@[0].shape@[1]);
                Ok(self.dequantized())
            },
        }
    }

    /// The number of bytes that the first `n` heads hold.
    pub open spec fn bytes_of(&self, n: nat) -> nat
        decreases n,
    {
        if n == 0 {
            0
        } else {
            self.bytes_of((n - 1) as nat) + self.caches@[n - 1].bytes()
        }
    }

    /// The number of bytes that all heads hold.
    pub fn resident_bytes(&self) -> (r: usize)
        requires
            self.wf(),
            self.bytes_of(self.caches@.len()) <= usize::MAX,
        ensures
            r == self.bytes_of(self.caches@.len()),
    {
        let mut total: usize = 0;
        let mut i: usize = 0;
        while i < self.caches.len()
            invariant
                self.wf(),
                self.bytes_of(self.caches@.len()) <= usize::MAX,
                i <= self.caches@.len(),
                total == self.bytes_of(i as nat),
            decreases self.caches@.len() - i,
        {
            proof {
                self.lemma_bytes_grow((i + 1) as nat, self.caches@.len());
            }
            total += self.caches[i].memory_bytes();
            i += 1;
        }
        total
    }

    /// More heads hold no fewer bytes.
    proof fn lemma_bytes_grow(&self, i: nat, j: nat)
        requires
            i <= j,
        ensures
            self.bytes_of(i) <= self.bytes_of(j),
        decreases j,
    {
        if i < j {
            self.lemma_bytes_grow(i, (j - 1) as nat);
        }
    }

    /// A copy at rest.
    pub fn freeze(&self) -> (r: FrozenQuantizedDynKvCacheState<T, D>)
        requires
            dims::lawful::<D>(),
        ensures
            holds_same(&r, self),
    {
        FrozenQuantizedDynKvCacheState {
            name: self.name.clone(),
            axis: self.axis,
            bits: self.bits,
            per_channel: self.per_channel,
            past_sequence_fact: self.past_sequence_fact.duplicate(),
            caches: copy_caches(&self.caches),
            lead_shape: vstd::slice::slice_to_vec(self.lead_shape.as_slice()),
            d: self.d,
            len: self.len,
        }
    }
}

/// A state at rest.
#[derive(Debug)]
pub struct FrozenQuantizedDynKvCacheState<T, D> {
    pub name: String,
    pub axis: usize,
    pub bits: u32,
    pub per_channel: bool,
    pub past_sequence_fact: TypedFact<D>,
    pub caches: Vec<HeadCache<T>>,
    pub lead_shape: Vec<usize>,
    pub d: usize,
    pub len: usize,
}

/// Whether the stores are copies of one another.
pub open spec fn same_caches<T: Scalar>(a: Seq<HeadCache<T>>, b: Seq<HeadCache<T>>) -> bool {
    &&& a.len() == b.len()
    &&& forall|i: int|
        0 <= i < a.len() ==> {
            &&& (#[trigger] a[i])@ == b[i]@
            &&& a[i].width() == b[i].width()
            &&& a[i].bits() == b[i].bits()
            &&& a[i].wf() == b[i].wf()
        }
}

/// Whether a frozen state holds what a running one does.
pub open spec fn holds_same<T: Scalar, D: DimLike>(
    f: &FrozenQuantizedDynKvCacheState<T, D>,
    s: &QuantizedDynKvCacheState<T, D>,
) -> bool {
    &&& f.name@ == s.name@
    &&& f.axis == s.axis
    &&& f.bits == s.bits
    &&& f.per_channel == s.per_channel
    &&& f.past_sequence_fact@ == s.past_sequence_fact@
    &&& f.lead_shape@ == s.lead_shape@
    &&& f.d == s.d
    &&& f.len == s.len
    &&& same_caches(f.caches@, s.caches@)
}

fn copy_caches<T: Scalar>(a: &Vec<HeadCache<T>>) -> (r: Vec<HeadCache<T>>)
    ensures
        same_caches(r@, a@),
{
    let mut r: Vec<HeadCache<T>> = Vec::new();
    let mut i: usize = 0;
    while i < a.len()
        invariant
            i <= a@.len(),
            same_caches(r@, a@.take(i as int)),
        decreases a@.len() - i,
    {
        let ghost before = r@;
        r.push(a[i].duplicate());
        i += 1;
        assert forall|j: int| 0 <= j < i implies {
            &&& (#[trigger] r@[j])@ == a@.take(i as int)[j]@
            &&& r@[j].width() == a@.take(i as int)[j].width()
            &&& r@[j].bits() == a@.take(i as int)[j].bits()
            &&& r@[j].wf() == a@.take(i as int)[j].wf()
        } by {
            if j < i - 1 {
                assert(before[j]@ == a@.take(i - 1)[j]@);
            }
        }
    }
    assert(a@.take(i as int) =~= a@);
    r
}

impl<T: Scalar, D: DimLike> FrozenQuantizedDynKvCacheState<T, D> {
    /// A running copy.
    pub fn unfreeze(&self) -> (r: QuantizedDynKvCacheState<T, D>)
        requires
            dims::lawful::<D>(),
        ensures
            holds_same(self, &r),
    {
        QuantizedDynKvCacheState {
            name: self.name.clone(),
            axis: self.axis,
            bits: self.bits,
            per_channel: self.per_channel,
            past_sequence_fact: self.past_sequence_fact.duplicate(),
            caches: copy_caches(&self.caches),
            lead_shape: vstd::slice::slice_to_vec(self.lead_shape.as_slice()),
            d: self.d,
            len: self.len,
        }
    }
}

/// Freezing and unfreezing gives a state that goes on just as the first would:
/// it is as valid, has the same tokens cached, refuses the same tensors and
/// takes the others in alike.
pub proof fn law_unfrozen_goes_on<T: Scalar, D: DimLike>(
    s: &QuantizedDynKvCacheState<T, D>,
    f: &FrozenQuantizedDynKvCacheState<T, D>,
    r: &QuantizedDynKvCacheState<T, D>,
    x: &NdArray<T>,
)
    requires
        holds_same(f, s),
        holds_same(f, r),
        s.wf(),
    ensures
        r.wf(),
        r.heads() == s.heads(),
        r.full_shape() == s.full_shape(),
        r.refusal(x) == s.refusal(x),
        r.takes(x) == s.takes(x),
        r.heads_fed(x) == s.heads_fed(x),
{
    let n = s.caches@.len() as int;
    assert forall|i: int| 0 <= i < n implies {
        &&& (#[trigger] r.caches@[i]).fits(r.d, r.bits)
        &&& r.caches@[i]@ == s.caches@[i]@
    } by {
        assert(f.caches@[i]@ == s.caches@[i]@);
    }
    assert(r.heads() =~= s.heads());
    assert(r.start(x) =~= s.start(x));
    assert(r.heads_fed(x) =~= s.heads_fed(x));
}

/// The tokens of one head in some tensors, one behind the other: what a
/// concatenation of the tensors on the axis of their tokens holds for it.
pub open spec fn concatenated<T: Scalar>(inputs: Seq<NdArray<T>>, i: int) -> Seq<Seq<T>>
    decreases inputs.len(),
{
    if inputs.len() == 0 {
        Seq::empty()
    } else {
        let x = &inputs.last();
        let h = x.shape@[1] as int;
        concatenated(inputs.drop_last(), i) + kv_sdpa::head_rows(
            x,
            i / h,
            i % h,
            x.shape@[2] as int,
        )
    }
}

/// Whether some states follow one another as tensors of the same batch and heads
/// are taken in, one by one, from a state that was fed nothing.
pub open spec fn follow<T: Scalar, D: DimLike>(
    states: Seq<QuantizedDynKvCacheState<T, D>>,
    inputs: Seq<NdArray<T>>,
) -> bool {
    &&& states.len() == inputs.len() + 1
    &&& states[0].caches@.len() == 0
    &&& forall|j: int|
        0 <= j < inputs.len() ==> {
            &&& (#[trigger] inputs[j]).shape@[0] == inputs[0].shape@[0]
            &&& inputs[j].shape@[1] == inputs[0].shape@[1]
            &&& states[j + 1].heads() == states[j].heads_fed(&inputs[j])
            &&& states[j + 1].bits == states[j].bits
            &&& states[j + 1].per_channel == states[j].per_channel
        }
}

/// Every head has been fed its tokens of every tensor, in order.
pub proof fn law_calls_add_up<T: Scalar, D: DimLike>(
    states: Seq<QuantizedDynKvCacheState<T, D>>,
    inputs: Seq<NdArray<T>>,
    i: int,
)
    requires
        follow(states, inputs),
        inputs.len() > 0,
        0 <= i < inputs[0].shape@[0] * inputs[0].shape@[1],
    ensures
        states.last().caches@.len() == inputs[0].shape@[0] * inputs[0].shape@[1],
        states.last().heads()[i] == HeadTokens::none(states.last().per_channel).fed(
            concatenated(inputs, i),
            states.last().bits,
        ),
    decreases inputs.len(),
{
    let n = inputs.len() - 1;
    let x = &inputs.last();
    let h = x.shape@[1] as int;
    let (was, is) = (&states[n], &states.last());
    let rest = inputs.drop_last();
    let none = HeadTokens::<T>::none(is.per_channel);
    let new = kv_sdpa::head_rows(x, i / h, i % h, x.shape@[2] as int);
    assert(inputs[n] == *x);
    assert(is.heads() == was.heads_fed(x));
    if n > 0 {
        let before = states.drop_last();
        assert forall|j: int| 0 <= j < rest.len() implies {
            &&& (#[trigger] rest[j]).shape@[0] == rest[0].shape@[0]
            &&& rest[j].shape@[1] == rest[0].shape@[1]
            &&& before[j + 1].heads() == before[j].heads_fed(&rest[j])
            &&& before[j + 1].bits == before[j].bits
            &&& before[j + 1].per_channel == before[j].per_channel
        } by {
            assert(rest[j] == inputs[j]);
        }
        law_calls_add_up(before, rest, i);
        assert(before.last() == *was);
    }
    assert(was.start(x)[i] == none.fed(concatenated(rest, i), is.bits));
    law_feeding_in_steps(none, concatenated(rest, i), new, is.bits);
    assert(is.heads()[i] == was.start(x)[i].fed(new, was.bits));
    assert(is.heads().len() == is.caches@.len());
}

/// After any tensors, what a call gives back is near their concatenation: every
/// token of every head is there, in order, and each element is within half a step
/// of what was fed, or equal to it while the block of its key is not full.
pub proof fn law_output_is_near_the_concatenation<T: Scalar, D: DimLike>(
    f: Reading<T>,
    states: Seq<QuantizedDynKvCacheState<T, D>>,
    inputs: Seq<NdArray<T>>,
    out: &NdArray<T>,
    i: int,
    t: int,
    c: int,
)
    requires
        f.exact(),
        follow(states, inputs),
        inputs.len() > 0,
        0 <= i < inputs[0].shape@[0] * inputs[0].shape@[1],
        states.last().wf(),
        states.last().bits == 4 || states.last().bits == 8,
        states.last().reads_back(out),
        exact::real_rows(f, concatenated(inputs, i), states.last().d as nat),
        0 <= t < concatenated(inputs, i).len(),
        0 <= c < states.last().d,
    ensures
        states.last().len == concatenated(inputs, i).len(),
        out.shape@ == states.last().full_shape(),
        near(
            f,
            states.last().per_channel,
            concatenated(inputs, i),
            states.last().bits,
            t,
            c,
            out.data@[(i * states.last().len + t) * states.last().d + c],
        ),
{
    let s = states.last();
    let rows = concatenated(inputs, i);
    law_calls_add_up(states, inputs, i);
    law_fed_head_reads_back(f, s.per_channel, rows, s.d as nat, s.bits, t, c);
    assert(s.caches@[i]@.count() == s.len);
    assert(s.heads()[i] == s.caches@[i]@);
}

/// After any tensors, what a call gives back is on marks: that of a value lies on
/// the nearest of 16 or 256 marks from the least element of its token to the
/// greatest, that of a key in a full block on the nearest from the least element of
/// its channel in that block to the greatest. Keys behind the last full block are
/// given back as they came.
pub proof fn law_output_is_on_the_nearest_marks<T: Scalar, D: DimLike>(
    f: Reading<T>,
    states: Seq<QuantizedDynKvCacheState<T, D>>,
    inputs: Seq<NdArray<T>>,
    out: &NdArray<T>,
    i: int,
    t: int,
    c: int,
    least: int,
    most: int,
)
    requires
        f.exact(),
        follow(states, inputs),
        inputs.len() > 0,
        0 <= i < inputs[0].shape@[0] * inputs[0].shape@[1],
        states.last().wf(),
        states.last().bits == 4 || states.last().bits == 8,
        states.last().reads_back(out),
        exact::real_rows(f, concatenated(inputs, i), states.last().d as nat),
        0 <= t < concatenated(inputs, i).len(),
        0 <= c < states.last().d,
        ({
            let rows = concatenated(inputs, i);
            if states.last().per_channel {
                let b = t / 32 * 32;
                b + 32 <= rows.len() ==> {
                    &&& b <= least < b + 32
                    &&& b <= most < b + 32
                    &&& forall|u: int|
                        b <= u < b + 32 ==> f.of(rows[least][c]) <= f.of((#[trigger] rows[u])[c])
                            <= f.of(rows[most][c])
                }
            } else {
                spread::reaches(f, rows[t], least, most)
            }
        }),
    ensures
        ({
            let s = states.last();
            let rows = concatenated(inputs, i);
            let y = out.data@[(i * s.len + t) * s.d + c];
            let top = if s.bits == 4 {
                15
            } else {
                255int
            };
            if !s.per_channel {
                spread::on_nearest_mark(
                    f.of(rows[t][least]),
                    f.of(rows[t][most]),
                    top,
                    f.of(rows[t][c]),
                    f.of(y),
                )
            } else if t / 32 * 32 + 32 <= rows.len() {
                spread::on_nearest_mark(
                    f.of(rows[least][c]),
                    f.of(rows[most][c]),
                    top,
                    f.of(rows[t][c]),
                    f.of(y),
                )
            } else {
                y == rows[t][c]
            }
        }),
{
    let s = states.last();
    let rows = concatenated(inputs, i);
    let d = s.d as nat;
    law_calls_add_up(states, inputs, i);
    law_fed_head_reads_back(f, s.per_channel, rows, d, s.bits, t, c);
    assert(s.caches@[i]@.count() == s.len);
    assert(s.heads()[i] == s.caches@[i]@);
    assert(rows[t].len() == d && f.all(rows[t]));
    if s.per_channel {
        assert forall|u: int| 0 <= u < rows.len() implies (#[trigger] rows[u]).len() == d by {}
        lemma_fed_keys(rows, d, s.bits);
        let k = HeadTokens::none(true).fed(rows, s.bits)->Key_0;
        let b = t / 32 * 32;
        if b + 32 <= rows.len() {
            let block = rows.subrange(b, b + 32);
            assert(k.blocks[t / 32] == kv_cache::key_block(block, d, s.bits));
            assert forall|u: int| 0 <= u < block.len() implies f.is((#[trigger] block[u])[c])
                && f.of(block[least - b][c]) <= f.of(block[u][c]) <= f.of(block[most - b][c]) by {
                assert(block[u] == rows[b + u]);
                assert(f.all(rows[b + u]));
                assert(f.is(rows[b + u][c]));
            }
            assert(block[t % 32] == rows[t]);
            spread::law_block_goes_to_the_nearest_marks(
                f,
                block,
                d,
                s.bits,
                t % 32,
                c,
                least - b,
                most - b,
            );
        }
    } else {
        law_values_accumulate(Seq::<ValueToken<T>>::empty(), rows, s.bits, t, c);
        spread::law_value_goes_to_the_nearest_mark(f, rows[t], s.bits, c, least, most);
    }
}

/// The rows of a head of what is read back are its tokens, read back.
proof fn lemma_rows_read_back<T: Scalar, D: DimLike>(
    s: &QuantizedDynKvCacheState<T, D>,
    x: &NdArray<T>,
    i: int,
)
    requires
        s.wf(),
        s.lead_shape@.len() == 2,
        s.reads_back(x),
        0 <= i < s.caches@.len(),
    ensures
        ({
            let h = x.shape@[1] as int;
            kv_sdpa::head_rows(x, i / h, i % h, s.len as int) == s.heads()[i].rows(
                s.bits,
                s.d as nat,
            )
        }),
{
    let (b, h, d) = (x.shape@[0] as int, x.shape@[1] as int, s.d as int);
    assert(b == s.lead_shape@[0] && h == s.lead_shape@[1] && x.shape@[2] == s.len);
    assert(x.shape@[3] == s.d);
    assert(h > 0 && b > 0) by (nonlinear_arith)
        requires
            0 <= i < b * h,
            0 <= b,
            0 <= h,
    ;
    assert(0 <= i / h < b && 0 <= i % h < h && i / h * h + i % h == i) by (nonlinear_arith)
        requires
            0 <= i < b * h,
            0 < h,
    ;
    let rows = kv_sdpa::head_rows(x, i / h, i % h, s.len as int);
    let read = s.heads()[i].rows(s.bits, s.d as nat);
    assert(s.caches@[i]@.count() == s.len);
    assert forall|t: int| 0 <= t < rows.len() implies rows[t] == read[t] by {
        tensor::lemma_row4_len(x, i / h, i % h, t);
        assert forall|c: int| 0 <= c < d implies rows[t][c] == read[t][c] by {
            assert(x.data@[(i * s.len + t) * s.d + c] == s.heads()[i].value(s.bits, t, c));
        }
        assert(rows[t] =~= read[t]);
    }
    assert(rows =~= read);
}

/// What was saved can be loaded: a state that has cached nothing takes it, and
/// then holds, for every head, the tokens as they were read back, in order.
pub proof fn law_saved_can_be_loaded<T: Scalar, D: DimLike>(
    s: &QuantizedDynKvCacheState<T, D>,
    x: &NdArray<T>,
    fresh: &QuantizedDynKvCacheState<T, D>,
)
    requires
        s.wf(),
        s.lead_shape@.len() == 2,
        s.reads_back(x),
        fresh.caches@.len() == 0,
        fresh.axis == 2,
    ensures
        fresh.refusal(x) is None,
        x.shape@ == s.full_shape(),
        fresh.heads_fed(x).len() == s.heads().len(),
        forall|i: int|
            0 <= i < s.heads().len() ==> {
                &&& #[trigger] fresh.heads_fed(x)[i] == HeadTokens::none(fresh.per_channel).fed(
                    s.heads()[i].rows(s.bits, s.d as nat),
                    fresh.bits,
                )
                &&& fresh.heads_fed(x)[i].count() == s.heads()[i].count()
            },
{
    assert(x.shape@[0] == s.lead_shape@[0] && x.shape@[1] == s.lead_shape@[1]);
    assert(x.shape@[2] == s.len);
    assert forall|i: int| 0 <= i < s.heads().len() implies {
        &&& #[trigger] fresh.heads_fed(x)[i] == HeadTokens::none(fresh.per_channel).fed(
            s.heads()[i].rows(s.bits, s.d as nat),
            fresh.bits,
        )
        &&& fresh.heads_fed(x)[i].count() == s.heads()[i].count()
    } by {
        lemma_rows_read_back(s, x, i);
        law_feeding_adds_tokens(
            HeadTokens::none(fresh.per_channel),
            s.heads()[i].rows(s.bits, s.d as nat),
            fresh.bits,
        );
    }
}

/// The name of [`QuantizedDynKeyValueCache`] in a model file.
pub open spec fn primitive_id() -> Seq<char> {
    "tract_transformers_quantized_dyn_kv_cache"@
}

/// The parameters of [`QuantizedDynKeyValueCache`] in a model file.
pub open spec fn parameters() -> Seq<(Seq<char>, TypeName)> {
    seq![
        ("input"@, TypeName::ScalarTensor),
        ("name"@, TypeName::Text),
        ("axis"@, TypeName::Integer),
        ("bits"@, TypeName::Integer),
        ("per_channel"@, TypeName::Integer),
        ("datum_type"@, TypeName::Text),
        ("past_sequence_shape"@, TypeName::IntegerArray),
        ("input_sequence_shape"@, TypeName::IntegerArray),
    ]
}

/// How [`QuantizedDynKeyValueCache`] is written in a model file.
pub fn register() -> (r: Primitive)
    ensures
        r.id@ == primitive_id(),
        nnef::signature(r.parameters@) == parameters(),
        nnef::signature(r.results@) == seq![("output"@, TypeName::ScalarTensor)],
{
    let r = Primitive {
        id: "tract_transformers_quantized_dyn_kv_cache",
        parameters: vec![
            nnef::parameter("input", TypeName::ScalarTensor),
            nnef::parameter("name", TypeName::Text),
            nnef::parameter("axis", TypeName::Integer),
            nnef::parameter("bits", TypeName::Integer),
            nnef::parameter("per_channel", TypeName::Integer),
            nnef::parameter("datum_type", TypeName::Text),
            nnef::parameter("past_sequence_shape", TypeName::IntegerArray),
            nnef::parameter("input_sequence_shape", TypeName::IntegerArray),
        ],
        results: vec![nnef::parameter("output", TypeName::ScalarTensor)],
    };
    assert(nnef::signature(r.parameters@) =~= parameters());
    assert(nnef::signature(r.results@) =~= seq![("output"@, TypeName::ScalarTensor)]);
    r
}

/// The operator, in the abstract.
#[verifier::ext_equal]
pub struct CacheOp<D> {
    pub name: Seq<char>,
    pub axis: usize,
    pub bits: u32,
    pub per_channel: bool,
    pub past: (DatumType, Seq<D>),
    pub input: (DatumType, Seq<D>),
}

impl<D> View for QuantizedDynKeyValueCache<D> {
    type V = CacheOp<D>;

    open spec fn view(&self) -> CacheOp<D> {
        CacheOp {
            name: self.name@,
            axis: self.axis,
            bits: self.bits,
            per_channel: self.per_channel,
            past: self.past_sequence_fact@,
            input: self.input_sequence_fact@,
        }
    }
}

/// The attributes that the operator is written with. One element type is
/// written: that of the past.
pub open spec fn written<T, D>(op: CacheOp<D>) -> Seq<(Seq<char>, AttributeValue<T, D>)> {
    seq![
        ("name"@, AttributeValue::Text(op.name)),
        ("axis"@, AttributeValue::Integer(op.axis as int)),
        ("bits"@, AttributeValue::Integer(op.bits as int)),
        (
            "per_channel"@,
            AttributeValue::Integer(
                if op.per_channel {
                    1
                } else {
                    0
                },
            ),
        ),
        ("datum_type"@, AttributeValue::Datum(op.past.0)),
        ("past_sequence_shape"@, AttributeValue::Shape(op.past.1)),
        ("input_sequence_shape"@, AttributeValue::Shape(op.input.1)),
    ]
}

/// The text of that name, which must be there.
pub open spec fn text_of<T, D>(
    entries: Seq<(Seq<char>, AttributeValue<T, D>)>,
    name: Seq<char>,
) -> Result<Seq<char>, ReadError> {
    match nnef::lookup(entries, name) {
        None => Err(ReadError::Missing),
        Some(AttributeValue::Text(s)) => Ok(s),
        Some(_) => Err(ReadError::Mistyped),
    }
}

/// The element type of that name, which must be there.
pub open spec fn datum_of<T, D>(
    entries: Seq<(Seq<char>, AttributeValue<T, D>)>,
    name: Seq<char>,
) -> Result<DatumType, ReadError> {
    match nnef::lookup(entries, name) {
        None => Err(ReadError::Missing),
        Some(AttributeValue::Datum(dt)) => Ok(dt),
        Some(_) => Err(ReadError::Mistyped),
    }
}

/// The shape of that name, which must be there.
pub open spec fn shape_of<T, D>(
    entries: Seq<(Seq<char>, AttributeValue<T, D>)>,
    name: Seq<char>,
) -> Result<Seq<D>, ReadError> {
    match nnef::lookup(entries, name) {
        None => Err(ReadError::Missing),
        Some(AttributeValue::Shape(s)) => Ok(s),
        Some(_) => Err(ReadError::Mistyped),
    }
}

/// The operator that attributes say.
pub open spec fn read<T, D>(a: Seq<(Seq<char>, AttributeValue<T, D>)>) -> Result<
    CacheOp<D>,
    ReadError,
> {
    match (
        text_of(a, "name"@),
        nnef::count_of(a, "axis"@),
        nnef::required_integer_of(a, "bits"@),
        nnef::required_integer_of(a, "per_channel"@),
        datum_of(a, "datum_type"@),
        shape_of(a, "past_sequence_shape"@),
        shape_of(a, "input_sequence_shape"@),
    ) {
        (Err(e), _, _, _, _, _, _) => Err(e),
        (_, Err(e), _, _, _, _, _) => Err(e),
        (_, _, Err(e), _, _, _, _) => Err(e),
        (_, _, _, Err(e), _, _, _) => Err(e),
        (_, _, _, _, Err(e), _, _) => Err(e),
        (_, _, _, _, _, Err(e), _) => Err(e),
        (_, _, _, _, _, _, Err(e)) => Err(e),
        (Ok(name), Ok(axis), Ok(bits), Ok(per_channel), Ok(dt), Ok(past), Ok(input)) => Ok(
            CacheOp {
                name,
                axis,
                bits: bits as u32,
                per_channel: per_channel != 0,
                past: (dt, past),
                input: (dt, input),
            },
        ),
    }
}

/// Writes the operator with its input.
pub fn ser_quant_dyn_kv_cache<T: Scalar, D: DimLike>(
    inputs: &[OutletId],
    op: &QuantizedDynKeyValueCache<D>,
) -> (r: Invocation<T, D>)
    requires
        dims::lawful::<D>(),
        inputs@.len() >= 1,
    ensures
        r.id@ == primitive_id(),
        r.inputs@ == inputs@.take(1),
        nnef::entries(r.attributes@) == written::<T, D>(op@),
{
    let mut attributes: Vec<(String, Attribute<T, D>)> = Vec::new();
    attributes.push(("name".to_owned(), Attribute::Text(op.name.clone())));
    attributes.push(nnef::integer("axis", op.axis as i128));
    attributes.push(nnef::integer("bits", op.bits as i128));
    attributes.push(nnef::integer("per_channel", if op.per_channel { 1i128 } else { 0i128 }));
    attributes.push(
        ("datum_type".to_owned(), Attribute::Datum(op.past_sequence_fact.datum_type)),
    );
    attributes.push(
        (
            "past_sequence_shape".to_owned(),
            Attribute::Shape(dims::duplicate_all(&op.past_sequence_fact.shape)),
        ),
    );
    attributes.push(
        (
            "input_sequence_shape".to_owned(),
            Attribute::Shape(dims::duplicate_all(&op.input_sequence_fact.shape)),
        ),
    );
    assert(nnef::entries(attributes@) =~= written::<T, D>(op@));
    let kept = vec![inputs[0]];
    assert(kept@ =~= inputs@.take(1));
    Invocation {
        id: "tract_transformers_quantized_dyn_kv_cache".to_owned(),
        inputs: kept,
        attributes,
    }
}

/// Reads the operator and the outlet of its input.
pub fn de_quant_dyn_kv_cache<T: Scalar, D: DimLike>(invocation: &Invocation<T, D>) -> (r: Result<
    (QuantizedDynKeyValueCache<D>, OutletId),
    ReadError,
>)
    requires
        dims::lawful::<D>(),
    ensures
        invocation.inputs@.len() < 1 ==> r == Err::<
            (QuantizedDynKeyValueCache<D>, OutletId),
            ReadError,
        >(ReadError::Missing),
        invocation.inputs@.len() >= 1 ==> match read(nnef::entries(invocation.attributes@)) {
            Err(e) => r == Err::<(QuantizedDynKeyValueCache<D>, OutletId), ReadError>(e),
            Ok(op) => match r {
                Ok((made, input)) => made@ == op && input == invocation.inputs@[0],
                Err(_) => false,
            },
        },
{
    if invocation.inputs.len() < 1 {
        return Err(ReadError::Missing);
    }
    let attributes = &invocation.attributes;
    let name: String = match nnef::find(attributes, "name") {
        Some(Attribute::Text(s)) => s.clone(),
        Some(_) => return Err(ReadError::Mistyped),
        None => return Err(ReadError::Missing),
    };
    let axis: usize = match nnef::read_count(attributes, "axis") {
        Ok(n) => n,
        Err(e) => return Err(e),
    };
    let bits: i64 = match nnef::read_required_integer(attributes, "bits") {
        Ok(n) => n,
        Err(e) => return Err(e),
    };
    let per_channel: i64 = match nnef::read_required_integer(attributes, "per_channel") {
        Ok(n) => n,
        Err(e) => return Err(e),
    };
    let dt: DatumType = match nnef::find(attributes, "datum_type") {
        Some(Attribute::Datum(dt)) => *dt,
        Some(_) => return Err(ReadError::Mistyped),
        None => return Err(ReadError::Missing),
    };
    let past = match nnef::find(attributes, "past_sequence_shape") {
        Some(Attribute::Shape(s)) => dims::duplicate_all(s),
        Some(_) => return Err(ReadError::Mistyped),
        None => return Err(ReadError::Missing),
    };
    let input = match nnef::find(attributes, "input_sequence_shape") {
        Some(Attribute::Shape(s)) => dims::duplicate_all(s),
        Some(_) => return Err(ReadError::Mistyped),
        None => return Err(ReadError::Missing),
    };
    let op = QuantizedDynKeyValueCache {
        name,
        axis,
        bits: bits as u32,
        per_channel: per_channel != 0,
        past_sequence_fact: TypedFact { datum_type: dt, shape: past },
        input_sequence_fact: TypedFact { datum_type: dt, shape: input },
    };
    Ok((op, invocation.inputs[0]))
}

/// What was written reads back as the operator it was written from, where past
/// and input are of one element type.
pub proof fn law_written_reads_back<T, D>(op: CacheOp<D>)
    requires
        op.past.0 == op.input.0,
    ensures
        read(written::<T, D>(op)) == Ok::<CacheOp<D>, ReadError>(op),
{
    reveal_strlit("name");
    reveal_strlit("axis");
    reveal_strlit("bits");
    reveal_strlit("per_channel");
    reveal_strlit("datum_type");
    reveal_strlit("past_sequence_shape");
    reveal_strlit("input_sequence_shape");
    let all = written::<T, D>(op);
    assert("name"@[0] != "axis"@[0]);
    assert("name"@[0] != "bits"@[0]);
    assert("axis"@[0] != "bits"@[0]);
    assert("name"@.len() == 4 && "axis"@.len() == 4 && "bits"@.len() == 4);
    assert("per_channel"@.len() == 11 && "datum_type"@.len() == 10);
    assert("past_sequence_shape"@.len() == 19 && "input_sequence_shape"@.len() == 20);
    assert forall|i: int| 0 <= i < 7 implies nnef::lookup(all, #[trigger] all[i].0) == Some(
        all[i].1,
    ) by {
        nnef::lemma_lookup(all, i);
    }
    assert(all[0].0 == "name"@ && all[1].0 == "axis"@ && all[2].0 == "bits"@);
    assert(all[3].0 == "per_channel"@ && all[4].0 == "datum_type"@);
    assert(all[5].0 == "past_sequence_shape"@ && all[6].0 == "input_sequence_shape"@);
    assert(op.bits as i64 as u32 == op.bits);
}

/// The operator is written under its own names, with 1 for a cache of keys and 0 for one
/// of values.
pub proof fn law_written_under_its_names<T, D>(op: CacheOp<D>)
    ensures
        ({
            let a = written::<T, D>(op);
            let keys: int = if op.per_channel {
                1
            } else {
                0
            };
            &&& nnef::lookup(a, "name"@) == Some(AttributeValue::<T, D>::Text(op.name))
            &&& nnef::lookup(a, "axis"@) == Some(AttributeValue::<T, D>::Integer(op.axis as int))
            &&& nnef::lookup(a, "bits"@) == Some(AttributeValue::<T, D>::Integer(op.bits as int))
            &&& nnef::lookup(a, "per_channel"@) == Some(AttributeValue::<T, D>::Integer(keys))
            &&& nnef::lookup(a, "datum_type"@) == Some(AttributeValue::<T, D>::Datum(op.past.0))
            &&& nnef::lookup(a, "past_sequence_shape"@) == Some(
                AttributeValue::<T, D>::Shape(op.past.1),
            )
            &&& nnef::lookup(a, "input_sequence_shape"@) == Some(
                AttributeValue::<T, D>::Shape(op.input.1),
            )
        }),
{
    reveal_strlit("name");
    reveal_strlit("axis");
    reveal_strlit("bits");
    reveal_strlit("per_channel");
    reveal_strlit("datum_type");
    reveal_strlit("past_sequence_shape");
    reveal_strlit("input_sequence_shape");
    let a = written::<T, D>(op);
    assert("name"@[0] != "axis"@[0]);
    assert("name"@[0] != "bits"@[0]);
    assert("axis"@[0] != "bits"@[0]);
    assert("name"@.len() == 4 && "axis"@.len() == 4 && "bits"@.len() == 4);
    assert("per_channel"@.len() == 11 && "datum_type"@.len() == 10);
    assert("past_sequence_shape"@.len() == 19 && "input_sequence_shape"@.len() == 20);
    assert(a[0].0 == "name"@ && a[1].0 == "axis"@ && a[2].0 == "bits"@);
    assert(a[3].0 == "per_channel"@ && a[4].0 == "datum_type"@);
    assert(a[5].0 == "past_sequence_shape"@ && a[6].0 == "input_sequence_shape"@);
    nnef::law_first_of_a_name_is_found(a, "name"@, 0);
    nnef::law_first_of_a_name_is_found(a, "axis"@, 1);
    nnef::law_first_of_a_name_is_found(a, "bits"@, 2);
    nnef::law_first_of_a_name_is_found(a, "per_channel"@, 3);
    nnef::law_first_of_a_name_is_found(a, "datum_type"@, 4);
    nnef::law_first_of_a_name_is_found(a, "past_sequence_shape"@, 5);
    nnef::law_first_of_a_name_is_found(a, "input_sequence_shape"@, 6);
}

/// The operator is read by its names, all of which must be there. Past and input have one
/// element type, and keys are cached where the number given is not 0.
pub proof fn law_read_by_its_names<T, D>(a: Seq<(Seq<char>, AttributeValue<T, D>)>)
    ensures
        read(a) matches Ok(op) ==> {
            &&& nnef::lookup(a, "name"@) == Some(AttributeValue::<T, D>::Text(op.name))
            &&& nnef::lookup(a, "axis"@) == Some(AttributeValue::<T, D>::Integer(op.axis as int))
            &&& nnef::lookup(a, "bits"@) matches Some(AttributeValue::Integer(n)) && (0 <= n
                <= u32::MAX ==> op.bits == n)
            &&& nnef::lookup(a, "per_channel"@) matches Some(AttributeValue::Integer(n))
                && op.per_channel == (n != 0)
            &&& nnef::lookup(a, "datum_type"@) == Some(AttributeValue::<T, D>::Datum(op.past.0))
            &&& op.input.0 == op.past.0
            &&& nnef::lookup(a, "past_sequence_shape"@) == Some(
                AttributeValue::<T, D>::Shape(op.past.1),
            )
            &&& nnef::lookup(a, "input_sequence_shape"@) == Some(
                AttributeValue::<T, D>::Shape(op.input.1),
            )
        },
        nnef::lookup(a, "name"@) is None ==> read(a) == Err::<CacheOp<D>, ReadError>(
            ReadError::Missing,
        ),
        nnef::lookup(a, "axis"@) is None ==> read(a) is Err,
        nnef::lookup(a, "bits"@) is None ==> read(a) is Err,
        nnef::lookup(a, "per_channel"@) is None ==> read(a) is Err,
        nnef::lookup(a, "datum_type"@) is None ==> read(a) is Err,
        nnef::lookup(a, "past_sequence_shape"@) is None ==> read(a) is Err,
        nnef::lookup(a, "input_sequence_shape"@) is None ==> read(a) is Err,
{
    if let Some(AttributeValue::Integer(n)) = nnef::lookup(a, "bits"@) {
        if 0 <= n <= u32::MAX {
            assert(n as i64 as u32 == n);
        }
    }
}

/// Whether the dimension at a place is a symbol without a value.
pub open spec fn is_open<D: DimLike>(shape: Seq<D>, resolved: Seq<u64>, i: int) -> bool {
    &&& 0 <= i < shape.len()
    &&& shape[i].symbol_spec() matches Some(s) && !resolved.contains(s)
}

/// A length is bound to the one symbol of the past's shape that has no value. Where all
/// have one nothing is bound, and where two places have none it is an error.
pub proof fn law_one_open_symbol_is_bound<D: DimLike>(
    shape: Seq<D>,
    resolved: Seq<u64>,
    len: usize,
)
    ensures
        (forall|i: int| !is_open(shape, resolved, i)) ==> binding(shape, resolved, len) == Ok::<
            Option<Binding>,
            CacheError,
        >(None),
        forall|i: int|
            #[trigger] is_open(shape, resolved, i) && (forall|j: int|
                #[trigger] is_open(shape, resolved, j) ==> j == i) ==> {
                &&& binding(shape, resolved, len) matches Ok(Some(b)) && Some(b.symbol)
                    == shape[i].symbol_spec() && b.value == len as i64
            },
        forall|i: int, j: int|
            #[trigger] is_open(shape, resolved, i) && #[trigger] is_open(shape, resolved, j) && i
                != j ==> binding(shape, resolved, len) == Err::<Option<Binding>, CacheError>(
                CacheError::Symbols,
            ),
{
    lemma_open(shape, resolved);
}

/// The open symbols are those at the open places.
proof fn lemma_open<D: DimLike>(shape: Seq<D>, resolved: Seq<u64>)
    ensures
        (forall|i: int| !is_open(shape, resolved, i)) ==> unresolved(shape, resolved).len() == 0,
        forall|i: int|
            #[trigger] is_open(shape, resolved, i) ==> unresolved(shape, resolved).len() >= 1,
        forall|i: int|
            #[trigger] is_open(shape, resolved, i) && (forall|j: int|
                #[trigger] is_open(shape, resolved, j) ==> j == i) ==> unresolved(shape, resolved)
                == seq![shape[i].symbol_spec()->0],
        forall|i: int, j: int|
            #[trigger] is_open(shape, resolved, i) && #[trigger] is_open(shape, resolved, j) && i
                != j ==> unresolved(shape, resolved).len() >= 2,
    decreases shape.len(),
{
    if shape.len() > 0 {
        let rest = shape.drop_last();
        let last = shape.len() - 1;
        lemma_open(rest, resolved);
        assert forall|i: int| i != last implies #[trigger] is_open(shape, resolved, i) == is_open(
            rest,
            resolved,
            i,
        ) by {
            if 0 <= i < last {
                assert(rest[i] == shape[i]);
            }
        }
        let here = is_open(shape, resolved, last);
        assert(unresolved(shape, resolved) == if here {
            unresolved(rest, resolved).push(shape[last].symbol_spec()->0)
        } else {
            unresolved(rest, resolved)
        });
        if forall|i: int| !is_open(shape, resolved, i) {
            assert forall|i: int| !is_open(rest, resolved, i) by {
                if is_open(rest, resolved, i) {
                    assert(is_open(shape, resolved, i));
                }
            }
        }
        assert forall|i: int| #[trigger] is_open(shape, resolved, i) implies unresolved(
            shape,
            resolved,
        ).len() >= 1 by {
            if i != last {
                assert(is_open(rest, resolved, i));
            }
        }
        assert forall|i: int|
            #[trigger] is_open(shape, resolved, i) && (forall|j: int|
                #[trigger] is_open(shape, resolved, j) ==> j == i) implies unresolved(
            shape,
            resolved,
        ) == seq![shape[i].symbol_spec()->0] by {
            if i == last {
                assert forall|k: int| !is_open(rest, resolved, k) by {
                    if is_open(rest, resolved, k) {
                        assert(is_open(shape, resolved, k));
                    }
                }
                assert(unresolved(shape, resolved) =~= seq![shape[i].symbol_spec()->0]);
            } else {
                assert(!here);
                assert(is_open(rest, resolved, i));
                assert forall|k: int| #[trigger] is_open(rest, resolved, k) implies k == i by {
                    assert(is_open(shape, resolved, k));
                }
                assert(rest[i] == shape[i]);
            }
        }
        assert forall|i: int, j: int|
            #[trigger] is_open(shape, resolved, i) && #[trigger] is_open(shape, resolved, j) && i
                != j implies unresolved(shape, resolved).len() >= 2 by {
            if i != last && j != last {
                assert(is_open(rest, resolved, i) && is_open(rest, resolved, j));
            } else if i == last {
                assert(is_open(rest, resolved, j));
            } else {
                assert(is_open(rest, resolved, i));
            }
        }
    }
}

/// The bytes of a store: codes, then two numbers of four bytes for every channel of a
/// block or for every token, and four bytes for every element that waits. A state holds
/// what its heads do.
pub proof fn law_bytes_are_codes_and_parameters<T: Scalar, D: DimLike>(
    s: &QuantizedDynKvCacheState<T, D>,
    c: &HeadCache<T>,
)
    requires
        c.wf(),
    ensures
        c matches HeadCache::Key(k) ==> {
            let row: int = if k.bits == 8 {
                k.d as int
            } else {
                (k.d + 1) / 2
            };
            c.bytes() == k@.blocks.len() * 32 * row + k@.blocks.len() * k.d * 8 + k@.pending.len()
                * k.d * 4
        },
        c matches HeadCache::Value(v) ==> {
            let row: int = if v.bits == 8 {
                v.d as int
            } else {
                (v.d + 1) / 2
            };
            c.bytes() == v@.len() * row + v@.len() * 8
        },
        s.bytes_of(s.caches@.len()) == math::sum(
            s.caches@.len(),
            |i: int| s.caches@[i].bytes(),
        ),
{
    match c {
        HeadCache::Key(k) => {
            quant::law_packed_rows_are_counted_in_bytes(k.d as nat);
            let n = k@.blocks.len() as int;
            let row = quant::row_len(k.d as nat, k.bits) as int;
            let p = k@.pending.len() as int;
            let d = k.d as int;
            assert(n * 32 * row >= 0 && n * d * 8 >= 0 && p * d * 4 >= 0) by (nonlinear_arith)
                requires
                    n >= 0,
                    row >= 0,
                    d >= 0,
                    p >= 0,
            ;
        },
        HeadCache::Value(v) => {
            quant::law_packed_rows_are_counted_in_bytes(v.d as nat);
        },
    }
    lemma_bytes(s, s.caches@.len());
}

/// The bytes of the first heads add up.
proof fn lemma_bytes<T: Scalar, D: DimLike>(s: &QuantizedDynKvCacheState<T, D>, n: nat)
    requires
        n <= s.caches@.len(),
    ensures
        s.bytes_of(n) == math::sum(n, |i: int| s.caches@[i].bytes()),
    decreases n,
{
    if n > 0 {
        lemma_bytes(s, (n - 1) as nat);
    }
}

/// A tensor is refused exactly where it is not of rank 4, where the tokens are not on the
/// third axis, or where its batch, heads or width are not those of what is cached.
pub proof fn law_what_is_refused<T: Scalar, D: DimLike>(
    s: &QuantizedDynKvCacheState<T, D>,
    x: &NdArray<T>,
)
    requires
        s.wf(),
    ensures
        s.refusal(x) is None <==> {
            &&& x.shape@.len() == 4
            &&& s.axis == 2
            &&& s.caches@.len() > 0 ==> {
                &&& x.shape@[0] == s.lead_shape@[0]
                &&& x.shape@[1] == s.lead_shape@[1]
                &&& x.shape@[3] == s.d
            }
        },
        x.shape@.len() != 4 ==> s.refusal(x) == Some(CacheError::Rank),
        x.shape@.len() == 4 && s.axis != 2 ==> s.refusal(x) == Some(CacheError::Axis),
{
    if s.caches@.len() > 0 && x.shape@.len() == 4 {
        assert(s.lead_shape@.len() == 2);
        if x.shape@[0] == s.lead_shape@[0] && x.shape@[1] == s.lead_shape@[1] {
            assert(s.lead_shape@ =~= x.shape@.take(2));
        }
    }
}

/// A frozen state holds the same settings and, head by head, the same tokens.
pub proof fn law_frozen_holds_all_heads<T: Scalar, D: DimLike>(
    f: &FrozenQuantizedDynKvCacheState<T, D>,
    s: &QuantizedDynKvCacheState<T, D>,
    i: int,
)
    requires
        holds_same(f, s),
    ensures
        f.name@ == s.name@ && f.axis == s.axis && f.bits == s.bits,
        f.per_channel == s.per_channel,
        f.past_sequence_fact@ == s.past_sequence_fact@,
        f.lead_shape@ == s.lead_shape@ && f.d == s.d && f.len == s.len,
        f.caches@.len() == s.caches@.len(),
        0 <= i < s.caches@.len() ==> f.caches@[i]@ == s.caches@[i]@,
{
}

} // verus!
