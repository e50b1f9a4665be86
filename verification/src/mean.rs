//! Attention over caches, written out: which tokens a query sees, what they read
//! as, and the mean that comes out, where arithmetic is exact.

use vstd::prelude::*;

use crate::attention;
use crate::exact;
use crate::exact::Reading;
use crate::kv_cache;
use crate::kv_cache::{ChannelKeys, ValueToken};
use crate::kv_sdpa;
use crate::kv_sdpa::QuantizedKvSdpaState;
use crate::packing;
use crate::quant;
use crate::reals;
use crate::rope;
use crate::scalar::Scalar;
use crate::softmax;
use crate::tensor;
use crate::tensor::{Matrix, NdArray};

verus! {

/// What column `c` of the key at `t` stands for: its code, in steps of its
/// channel from the channel's least value on.
pub open spec fn stored_key<T: Scalar>(f: Reading<T>, keys: ChannelKeys<T>, t: int, c: int) -> real {
    f.of(keys.lo[c]) + reals::product(
        reals::whole(keys.codes[t][c] as int),
        f.of(keys.scale[c]),
    )
}

/// Column `c` of the key at `t` as a query meets it: where there is a rotation,
/// the columns of the two halves are turned in pairs, by the angle of their
/// position.
pub open spec fn met_key<T: Scalar>(
    f: Reading<T>,
    keys: ChannelKeys<T>,
    table: Option<(Seq<Seq<T>>, Seq<Seq<T>>)>,
    t: int,
    c: int,
) -> real {
    let half = keys.lo.len() as int / 2;
    match table {
        None => stored_key(f, keys, t, c),
        Some((cos, sin)) => if c < half {
            reals::product(stored_key(f, keys, t, c), f.of(cos[t][c])) - reals::product(
                stored_key(f, keys, t, c + half),
                f.of(sin[t][c]),
            )
        } else {
            reals::product(stored_key(f, keys, t, c), f.of(cos[t][c])) + reals::product(
                stored_key(f, keys, t, c - half),
                f.of(sin[t][c]),
            )
        },
    }
}

/// What column `c` of the value at `t` stands for: its code, in the token's own
/// steps from the token's least value on.
pub open spec fn stored_value<T: Scalar>(
    f: Reading<T>,
    values: Seq<ValueToken<T>>,
    t: int,
    c: int,
) -> real {
    f.of(values[t].lo) + reals::product(
        reals::whole(values[t].codes[c] as int),
        f.of(values[t].scale),
    )
}

/// The score of the key at `t`: its inner product with the query, scaled.
pub open spec fn score<T: Scalar>(
    f: Reading<T>,
    q: Seq<T>,
    keys: ChannelKeys<T>,
    table: Option<(Seq<Seq<T>>, Seq<Seq<T>>)>,
    scale: T,
    t: int,
) -> real {
    reals::product(
        reals::sum(q.len(), |c: int| reals::product(f.of(q[c]), met_key(f, keys, table, t, c))),
        f.of(scale),
    )
}

/// Whether the first `n` keys of a cache have `d` columns and stand for reals.
pub open spec fn real_keys<T: Scalar>(f: Reading<T>, keys: ChannelKeys<T>, n: int, d: nat) -> bool {
    &&& keys.lo.len() == d && keys.scale.len() == d
    &&& f.all(keys.lo) && f.all(keys.scale)
    &&& n <= keys.codes.len()
    &&& forall|t: int| 0 <= t < n ==> (#[trigger] keys.codes[t]).len() == d
}

/// Whether the first `n` values of a cache have `d` columns and stand for reals.
pub open spec fn real_values<T: Scalar>(
    f: Reading<T>,
    values: Seq<ValueToken<T>>,
    n: int,
    d: nat,
) -> bool {
    &&& n <= values.len()
    &&& forall|t: int|
        0 <= t < n ==> {
            &&& (#[trigger] values[t]).codes.len() == d
            &&& f.is(values[t].lo) && f.is(values[t].scale)
        }
}

/// A code reads back as its steps from the offset on.
proof fn lemma_read_back<T: Scalar>(
    f: Reading<T>,
    code: u8,
    d: int,
    bits: u32,
    c: int,
    lo: T,
    scale: T,
)
    requires
        f.exact(),
        f.is(lo),
        f.is(scale),
    ensures
        f.is(packing::read_back(code, d, bits, c, lo, scale)),
        f.of(packing::read_back(code, d, bits, c, lo, scale)) == f.of(lo) + reals::product(
            reals::whole(code as int),
            f.of(scale),
        ),
{
    reveal(reals::product);
    let n = T::of_count_spec(code as usize);
    assert(f.is(n) && f.of(n) == reals::whole(code as int));
    assert(f.is(n.times_spec(scale)));
    assert(f.is(lo.plus_spec(n.times_spec(scale))));
    assert(f.is(n.fused_spec(scale, lo)));
}

/// Keys read as they are met.
proof fn lemma_key_row<T: Scalar>(
    f: Reading<T>,
    keys: ChannelKeys<T>,
    bits: u32,
    n: int,
    d: nat,
    table: Option<(Seq<Seq<T>>, Seq<Seq<T>>)>,
    t: int,
    c: int,
)
    requires
        f.exact(),
        real_keys(f, keys, n, d),
        softmax::real_tables(f, table, n as nat, d),
        0 <= t < n,
        0 <= c < d,
    ensures
        attention::key_row(keys, bits, t, table).len() == d,
        f.is(attention::key_row(keys, bits, t, table)[c]),
        f.of(attention::key_row(keys, bits, t, table)[c]) == met_key(f, keys, table, t, c),
{
    let plain = Seq::new(keys.lo.len(), |c: int| keys.value(bits, t, c));
    assert(keys.codes[t].len() == d);
    assert forall|j: int| 0 <= j < d implies f.is(#[trigger] plain[j]) && f.of(plain[j])
        == stored_key(f, keys, t, j) by {
        assert(f.is(keys.lo[j]) && f.is(keys.scale[j]));
        lemma_read_back(f, keys.codes[t][j], d as int, bits, j, keys.lo[j], keys.scale[j]);
    }
    assert(f.is(plain[c]));
    if let Some((cos, sin)) = table {
        assert(cos[t].len() == d && f.all(cos[t]));
        assert(sin[t].len() == d && f.all(sin[t]));
        assert(f.is(cos[t][c]) && f.is(sin[t][c]));
        let half = d as int / 2;
        let x = rope::rotate_half(plain, c);
        if c < half {
            assert(f.is(plain[c + half]));
            assert(f.is(x) && f.of(x) == -f.of(plain[c + half]));
            reals::lemma_negated_product(f.of(plain[c + half]), f.of(sin[t][c]));
        } else {
            assert(f.is(plain[c - half]));
        }
        exact::lemma_product(f, plain[c], cos[t][c]);
        exact::lemma_product(f, x, sin[t][c]);
        assert(f.is(plain[c].times_spec(cos[t][c]).plus_spec(x.times_spec(sin[t][c]))));
    }
}

/// The inner product, term by term.
proof fn lemma_inner<T: Scalar>(f: Reading<T>, a: Seq<T>, b: Seq<T>, g: spec_fn(int) -> real)
    requires
        a.len() == b.len(),
        forall|c: int|
            0 <= c < a.len() ==> #[trigger] g(c) == reals::product(f.of(a[c]), f.of(b[c])),
    ensures
        softmax::inner(f, a, b) == reals::sum(a.len(), g),
    decreases a.len(),
{
    if a.len() > 0 {
        let (x, y) = (a.drop_last(), b.drop_last());
        assert forall|c: int| 0 <= c < x.len() implies #[trigger] g(c) == reals::product(
            f.of(x[c]),
            f.of(y[c]),
        ) by {
            assert(x[c] == a[c] && y[c] == b[c]);
        }
        lemma_inner(f, x, y, g);
        assert(g(a.len() - 1) == reals::product(f.of(a.last()), f.of(b.last())));
    }
}

/// The weights of all keys add up to those of the first `m`, which are seen.
proof fn lemma_weights<T: Scalar>(
    f: Reading<T>,
    e: spec_fn(real) -> real,
    q: Seq<T>,
    keys: Seq<Seq<T>>,
    values: Seq<Seq<T>>,
    scale: T,
    allowed: Option<int>,
    c: int,
    m: nat,
    g: spec_fn(int) -> real,
    h: spec_fn(int) -> real,
)
    requires
        forall|t: int| 0 <= t < keys.len() ==> (t < m <==> #[trigger] softmax::sees(allowed, t)),
        forall|t: int|
            0 <= t < keys.len() && t < m ==> #[trigger] g(t) == e(
                reals::product(softmax::inner(f, q, keys[t]), f.of(scale)),
            ),
        forall|t: int|
            0 <= t < keys.len() && t < m ==> #[trigger] h(t) == reals::product(
                g(t),
                f.of(values[t][c]),
            ),
        keys.len() <= values.len(),
    ensures
        ({
            let n = if m < keys.len() {
                m
            } else {
                keys.len()
            };
            &&& softmax::weight_sum(f, e, q, keys, scale, allowed) == reals::sum(n, g)
            &&& softmax::weighed_sum(f, e, q, keys, values, scale, allowed, c) == reals::sum(n, h)
        }),
    decreases keys.len(),
{
    if keys.len() > 0 {
        let k = keys.drop_last();
        let last = keys.len() - 1;
        assert forall|t: int| 0 <= t < k.len() && t < m implies #[trigger] g(t) == e(
            reals::product(softmax::inner(f, q, k[t]), f.of(scale)),
        ) by {
            assert(k[t] == keys[t]);
        }
        lemma_weights(f, e, q, k, values, scale, allowed, c, m, g, h);
        assert(softmax::sees(allowed, last) == (last < m));
        if last < m {
            assert(g(last) == e(
                reals::product(softmax::inner(f, q, keys[last]), f.of(scale)),
            ));
            assert(h(last) == reals::product(g(last), f.of(values[last][c])));
        } else {
            reals::lemma_zero_and_one(f.of(values[last][c]));
        }
    }
}

/// A product, by its name.
proof fn lemma_named(a: real, b: real, c: real)
    requires
        a * b == c,
    ensures
        reals::product(a, b) == c,
{
    reveal(reals::product);
}

/// One row of an attention is the mean of the values that it sees, each weighed by
/// the exponential of its key's score. With a causal mask, row `i` of `q_len` sees
/// the tokens at `0 ..= kv_len - q_len + i`; without one, it sees all.
pub proof fn law_row_is_the_mean_of_what_it_sees<T: Scalar>(
    f: Reading<T>,
    e: spec_fn(real) -> real,
    q: &NdArray<T>,
    keys: ChannelKeys<T>,
    kbits: u32,
    values: Seq<ValueToken<T>>,
    vbits: u32,
    bi: int,
    qh: int,
    i: int,
    kv_len: usize,
    scale: T,
    table: Option<(Seq<Seq<T>>, Seq<Seq<T>>)>,
    causal: bool,
    c: int,
)
    requires
        softmax::exponentiates(f, e),
        q.wf(),
        q.is_rank4(),
        0 <= bi < q.shape@[0],
        0 <= qh < q.shape@[1],
        0 <= i < q.shape@[2],
        0 <= c < q.shape@[3],
        f.all(q.data@),
        f.is(scale),
        kv_len > 0,
        causal ==> q.shape@[2] <= kv_len,
        real_keys(f, keys, kv_len as int, q.shape@[3] as nat),
        real_values(f, values, kv_len as int, q.shape@[3] as nat),
        softmax::real_tables(f, table, kv_len as nat, q.shape@[3] as nat),
    ensures
        ({
            let (hq, q_len, d) = (q.shape@[1] as int, q.shape@[2] as int, q.shape@[3] as int);
            let at = ((bi * hq + qh) * q_len + i) * d;
            let query = Seq::new(d as nat, |j: int| q.data@[at + j]);
            let seen: int = if causal {
                kv_len - q_len + i + 1
            } else {
                kv_len as int
            };
            let y = attention::head_row(
                q,
                (keys, kbits),
                (values, vbits),
                bi,
                qh,
                i,
                kv_len,
                scale,
                table,
                causal,
            )[c];
            let weights = reals::sum(
                seen as nat,
                |t: int| e(score(f, query, keys, table, scale, t)),
            );
            &&& 0 < seen <= kv_len
            &&& f.is(y)
            &&& weights > reals::whole(0)
            &&& reals::product(f.of(y), weights) == reals::sum(
                seen as nat,
                |t: int|
                    reals::product(
                        e(score(f, query, keys, table, scale, t)),
                        stored_value(f, values, t, c),
                    ),
            )
        }),
{
    let (hq, q_len, d) = (q.shape@[1] as int, q.shape@[2] as int, q.shape@[3] as int);
    let at = ((bi * hq + qh) * q_len + i) * d;
    let query = Seq::new(d as nat, |j: int| q.data@[at + j]);
    let seen: int = if causal {
        kv_len - q_len + i + 1
    } else {
        kv_len as int
    };
    tensor::lemma_row4_len(q, bi, qh, i);
    assert(q.row4(bi, qh, i) =~= query);
    assert(f.all(query));
    softmax::lemma_is_exact(f, e);
    let n = kv_len as nat;
    let krows = attention::key_rows(keys, kbits, n, table);
    let vrows = attention::value_rows(values, vbits, n);
    let allowed = attention::horizon(causal, kv_len as int, q_len, i);
    assert forall|t: int| 0 <= t < n implies (#[trigger] krows[t]).len() == query.len() && f.all(
        krows[t],
    ) by {
        lemma_key_row(f, keys, kbits, n as int, d as nat, table, t, 0);
        assert forall|j: int| 0 <= j < krows[t].len() implies f.is(#[trigger] krows[t][j]) by {
            lemma_key_row(f, keys, kbits, n as int, d as nat, table, t, j);
        }
    }
    assert forall|t: int| 0 <= t < n implies f.is((#[trigger] vrows[t])[c]) && f.of(vrows[t][c])
        == stored_value(f, values, t, c) by {
        assert(values[t].codes.len() == d);
        lemma_read_back(
            f,
            values[t].codes[c],
            d,
            vbits,
            c,
            values[t].lo,
            values[t].scale,
        );
    }
    softmax::law_attention_is_softmax(f, e, query, krows, vrows, scale, allowed, c);
    let g = |t: int| e(score(f, query, keys, table, scale, t));
    let h = |t: int|
        reals::product(
            e(score(f, query, keys, table, scale, t)),
            stored_value(f, values, t, c),
        );
    assert forall|t: int| 0 <= t < n && t < seen implies #[trigger] g(t) == e(
        reals::product(softmax::inner(f, query, krows[t]), f.of(scale)),
    ) by {
        let terms = |j: int| reals::product(f.of(query[j]), met_key(f, keys, table, t, j));
        assert(krows[t].len() == query.len());
        assert forall|j: int| 0 <= j < query.len() implies #[trigger] terms(j) == reals::product(
            f.of(query[j]),
            f.of(krows[t][j]),
        ) by {
            lemma_key_row(f, keys, kbits, n as int, d as nat, table, t, j);
        }
        lemma_inner(f, query, krows[t], terms);
    }
    assert forall|t: int| 0 <= t < n && t < seen implies #[trigger] h(t) == reals::product(
        g(t),
        f.of(vrows[t][c]),
    ) by {
        assert(f.of(vrows[t][c]) == stored_value(f, values, t, c));
    }
    assert forall|t: int| 0 <= t < n implies (t < seen <==> #[trigger] softmax::sees(
        allowed,
        t,
    )) by {}
    lemma_weights(f, e, query, krows, vrows, scale, allowed, c, seen as nat, g, h);
    let y = attention::attention_row(query, krows, vrows, scale, allowed)[c];
    lemma_named(f.of(y), reals::sum(seen as nat, g), reals::sum(seen as nat, h));
}

/// Under a causal mask, what stands at a later position than
/// `kv_len - q_len + i` does not matter to row `i`: two pairs of caches whose keys
/// and values agree up to there give the row one and the same result.
pub proof fn law_later_tokens_do_not_matter<T: Scalar>(
    f: Reading<T>,
    e: spec_fn(real) -> real,
    q: &NdArray<T>,
    keys: ChannelKeys<T>,
    other_keys: ChannelKeys<T>,
    kbits: u32,
    values: Seq<ValueToken<T>>,
    other_values: Seq<ValueToken<T>>,
    vbits: u32,
    bi: int,
    qh: int,
    i: int,
    kv_len: usize,
    scale: T,
    table: Option<(Seq<Seq<T>>, Seq<Seq<T>>)>,
    c: int,
)
    requires
        softmax::exponentiates(f, e),
        q.wf(),
        q.is_rank4(),
        0 <= bi < q.shape@[0],
        0 <= qh < q.shape@[1],
        0 <= i < q.shape@[2],
        0 <= c < q.shape@[3],
        f.all(q.data@),
        f.is(scale),
        kv_len > 0,
        q.shape@[2] <= kv_len,
        real_keys(f, keys, kv_len as int, q.shape@[3] as nat),
        real_keys(f, other_keys, kv_len as int, q.shape@[3] as nat),
        real_values(f, values, kv_len as int, q.shape@[3] as nat),
        real_values(f, other_values, kv_len as int, q.shape@[3] as nat),
        softmax::real_tables(f, table, kv_len as nat, q.shape@[3] as nat),
        keys.lo == other_keys.lo,
        keys.scale == other_keys.scale,
        forall|t: int|
            0 <= t <= kv_len - q.shape@[2] + i ==> #[trigger] keys.codes[t] == other_keys.codes[t],
        forall|t: int|
            0 <= t <= kv_len - q.shape@[2] + i ==> #[trigger] values[t] == other_values[t],
    ensures
        ({
            let (ks, vs) = ((keys, kbits), (values, vbits));
            let (ls, ws) = ((other_keys, kbits), (other_values, vbits));
            let y = attention::head_row(q, ks, vs, bi, qh, i, kv_len, scale, table, true);
            let z = attention::head_row(q, ls, ws, bi, qh, i, kv_len, scale, table, true);
            f.of(y[c]) == f.of(z[c])
        }),
{
    law_row_is_the_mean_of_what_it_sees(
        f, e, q, keys, kbits, values, vbits, bi, qh, i, kv_len, scale, table, true, c,
    );
    law_row_is_the_mean_of_what_it_sees(
        f, e, q, other_keys, kbits, other_values, vbits, bi, qh, i, kv_len, scale, table, true, c,
    );
    let (hq, q_len, d) = (q.shape@[1] as int, q.shape@[2] as int, q.shape@[3] as int);
    let at = ((bi * hq + qh) * q_len + i) * d;
    let query = Seq::new(d as nat, |j: int| q.data@[at + j]);
    let seen = (kv_len - q_len + i + 1) as nat;
    let g = |t: int| e(score(f, query, keys, table, scale, t));
    let g2 = |t: int| e(score(f, query, other_keys, table, scale, t));
    let h = |t: int|
        reals::product(
            e(score(f, query, keys, table, scale, t)),
            stored_value(f, values, t, c),
        );
    let h2 = |t: int|
        reals::product(
            e(score(f, query, other_keys, table, scale, t)),
            stored_value(f, other_values, t, c),
        );
    assert forall|t: int| 0 <= t < seen implies g(t) == #[trigger] g2(t) by {
        assert(keys.codes[t] == other_keys.codes[t]);
        let a = |j: int| reals::product(f.of(query[j]), met_key(f, keys, table, t, j));
        let b = |j: int| reals::product(f.of(query[j]), met_key(f, other_keys, table, t, j));
        reals::lemma_same_terms(query.len(), a, b);
    }
    assert forall|t: int| 0 <= t < seen implies h(t) == #[trigger] h2(t) by {
        assert(g(t) == g2(t));
        assert(values[t] == other_values[t]);
    }
    reals::lemma_same_terms(seen, g, g2);
    reals::lemma_same_terms(seen, h, h2);
    let (ks, vs) = ((keys, kbits), (values, vbits));
    let (ls, ws) = ((other_keys, kbits), (other_values, vbits));
    let y = attention::head_row(q, ks, vs, bi, qh, i, kv_len, scale, table, true);
    let z = attention::head_row(q, ls, ws, bi, qh, i, kv_len, scale, table, true);
    reals::lemma_cancels(f.of(y[c]), f.of(z[c]), reals::sum(seen, g));
}

/// Whatever the arithmetic, the keys past `kv_len - q_len + i` do not matter to row
/// `i` under a causal mask.
pub proof fn law_later_keys_do_not_matter<T: Scalar>(
    q: &NdArray<T>,
    keys: ChannelKeys<T>,
    others: ChannelKeys<T>,
    kbits: u32,
    values: (Seq<ValueToken<T>>, u32),
    bi: int,
    qh: int,
    i: int,
    kv_len: usize,
    scale: T,
    table: Option<(Seq<Seq<T>>, Seq<Seq<T>>)>,
)
    requires
        keys.lo == others.lo,
        keys.scale == others.scale,
        forall|t: int|
            0 <= t <= kv_len - q.shape@[2] + i ==> #[trigger] keys.codes[t] == others.codes[t],
    ensures
        attention::head_row(q, (keys, kbits), values, bi, qh, i, kv_len, scale, table, true)
            == attention::head_row(
            q,
            (others, kbits),
            values,
            bi,
            qh,
            i,
            kv_len,
            scale,
            table,
            true,
        ),
{
    let n = kv_len as nat;
    let a = attention::key_rows(keys, kbits, n, table);
    let b = attention::key_rows(others, kbits, n, table);
    let last = kv_len - q.shape@[2] + i;
    assert forall|t: int| 0 <= t <= last && t < a.len() implies #[trigger] a[t] == b[t] by {
        assert(keys.codes[t] == others.codes[t]);
        assert(Seq::new(keys.lo.len(), |c: int| keys.value(kbits, t, c)) =~= Seq::new(
            others.lo.len(),
            |c: int| others.value(kbits, t, c),
        ));
    }
    attention::law_later_keys_are_ignored(
        q.row4(bi, qh, i),
        a,
        b,
        attention::value_rows(values.0, values.1, n),
        scale,
        last,
    );
}

/// The first row of a prompt, where there are as many queries as tokens and a
/// causal mask, is the first value.
pub proof fn law_first_row_of_a_prompt_is_the_first_value<T: Scalar>(
    f: Reading<T>,
    e: spec_fn(real) -> real,
    q: &NdArray<T>,
    keys: ChannelKeys<T>,
    kbits: u32,
    values: Seq<ValueToken<T>>,
    vbits: u32,
    bi: int,
    qh: int,
    scale: T,
    table: Option<(Seq<Seq<T>>, Seq<Seq<T>>)>,
    c: int,
)
    requires
        softmax::exponentiates(f, e),
        q.wf(),
        q.is_rank4(),
        0 <= bi < q.shape@[0],
        0 <= qh < q.shape@[1],
        0 < q.shape@[2],
        0 <= c < q.shape@[3],
        f.all(q.data@),
        f.is(scale),
        real_keys(f, keys, q.shape@[2] as int, q.shape@[3] as nat),
        real_values(f, values, q.shape@[2] as int, q.shape@[3] as nat),
        softmax::real_tables(f, table, q.shape@[2] as nat, q.shape@[3] as nat),
    ensures
        f.of(
            attention::head_row(
                q,
                (keys, kbits),
                (values, vbits),
                bi,
                qh,
                0,
                q.shape@[2],
                scale,
                table,
                true,
            )[c],
        ) == stored_value(f, values, 0, c),
{
    let n = q.shape@[2];
    law_row_is_the_mean_of_what_it_sees(
        f, e, q, keys, kbits, values, vbits, bi, qh, 0, n, scale, table, true, c,
    );
    let (hq, q_len, d) = (q.shape@[1] as int, q.shape@[2] as int, q.shape@[3] as int);
    let at = ((bi * hq + qh) * q_len + 0) * d;
    let query = Seq::new(d as nat, |j: int| q.data@[at + j]);
    let g = |t: int| e(score(f, query, keys, table, scale, t));
    let h = |t: int|
        reals::product(
            e(score(f, query, keys, table, scale, t)),
            stored_value(f, values, t, c),
        );
    assert(reals::sum(0, g) == reals::whole(0) && reals::sum(0, h) == reals::whole(0));
    assert(reals::sum(1, g) == reals::sum(0, g) + g(0));
    assert(reals::sum(1, h) == reals::sum(0, h) + h(0));
    let v = stored_value(f, values, 0, c);
    reals::lemma_commutes(g(0), v);
    let y = attention::head_row(
        q,
        (keys, kbits),
        (values, vbits),
        bi,
        qh,
        0,
        n,
        scale,
        table,
        true,
    );
    reals::lemma_cancels(f.of(y[c]), v, reals::sum(1, g));
}

/// What a call answers at `[bi, qh, i, c]` is the mean of what query row `i` sees in
/// the cache that its head shares: with `hkv` heads of keys for `hq` query heads,
/// the one at `bi * hkv + qh / (hq / hkv)`. Scores are scaled by the operator's own
/// factor where it has one. The tables of a rotation are the first planes of the
/// fourth and fifth inputs, a row for each position.
pub proof fn law_answer_is_the_mean_of_what_is_seen<T: Scalar>(
    f: Reading<T>,
    e: spec_fn(real) -> real,
    s: &QuantizedKvSdpaState<T>,
    inputs: Seq<NdArray<T>>,
    o: &NdArray<T>,
    bi: int,
    qh: int,
    i: int,
    c: int,
)
    requires
        softmax::exponentiates(f, e),
        s.answers(inputs, s.keys(), s.values(), o),
        inputs.len() == 3 || inputs.len() == 5,
        inputs[0].wf(),
        inputs[0].is_rank4(),
        0 <= bi < inputs[0].shape@[0],
        0 <= qh < inputs[0].shape@[1],
        0 <= i < inputs[0].shape@[2],
        0 <= c < inputs[0].shape@[3],
        f.all(inputs[0].data@),
        f.is(kv_sdpa::score_scale(s.scale, inputs[0].shape@[3])),
        0 < s.keys()[0].codes.len() <= usize::MAX,
        s.is_causal ==> inputs[0].shape@[2] <= s.keys()[0].codes.len(),
        ({
            let (hq, hkv) = (inputs[0].shape@[1] as int, inputs[1].shape@[1] as int);
            let cache = bi * hkv + qh / (hq / hkv);
            let (n, d) = (s.keys()[0].codes.len(), inputs[0].shape@[3] as nat);
            &&& real_keys(f, s.keys()[cache], n as int, d)
            &&& real_values(f, s.values()[cache], n as int, d)
            &&& inputs.len() == 5 ==> {
                &&& softmax::negates(f)
                &&& n * d <= inputs[3].data@.len() && n * d <= inputs[4].data@.len()
                &&& f.all(inputs[3].data@) && f.all(inputs[4].data@)
            }
        }),
    ensures
        ({
            let q = &inputs[0];
            let (hq, q_len, d) = (q.shape@[1] as int, q.shape@[2] as int, q.shape@[3] as int);
            let hkv = inputs[1].shape@[1] as int;
            let cache = bi * hkv + qh / (hq / hkv);
            let (keys, values) = (s.keys()[cache], s.values()[cache]);
            let n = s.keys()[0].codes.len() as int;
            let at = ((bi * hq + qh) * q_len + i) * d;
            let query = Seq::new(d as nat, |j: int| q.data@[at + j]);
            let plane = |x: Seq<T>|
                Seq::new(n as nat, |t: int| Seq::new(d as nat, |j: int| x[t * d + j]));
            let table = if inputs.len() == 5 {
                Some((plane(inputs[3].data@), plane(inputs[4].data@)))
            } else {
                None
            };
            let scale = match s.scale {
                Some(x) => x,
                None => T::of_count_spec(q.shape@[3]).reciprocal_spec().square_root_spec(),
            };
            let seen: int = if s.is_causal {
                n - q_len + i + 1
            } else {
                n
            };
            let weights = reals::sum(
                seen as nat,
                |t: int| e(score(f, query, keys, table, scale, t)),
            );
            &&& o.shape@ == q.shape@
            &&& f.is(o.data@[at + c])
            &&& weights > reals::whole(0)
            &&& reals::product(f.of(o.data@[at + c]), weights) == reals::sum(
                seen as nat,
                |t: int|
                    reals::product(
                        e(score(f, query, keys, table, scale, t)),
                        stored_value(f, values, t, c),
                    ),
            )
        }),
{
    let q = &inputs[0];
    let (hq, q_len, d) = (q.shape@[1] as int, q.shape@[2] as int, q.shape@[3] as int);
    let hkv = inputs[1].shape@[1] as int;
    let cache = bi * hkv + qh / (hq / hkv);
    let (keys, values) = (s.keys()[cache], s.values()[cache]);
    let n = s.keys()[0].codes.len() as usize;
    let plane = |x: Seq<T>|
        Seq::new(n as nat, |t: int| Seq::new(d as nat, |j: int| x[t * d + j]));
    let table = if inputs.len() == 5 {
        Some((plane(inputs[3].data@), plane(inputs[4].data@)))
    } else {
        None
    };
    softmax::lemma_is_exact(f, e);
    if inputs.len() == 5 {
        lemma_plane(f, &inputs[3], n, d as usize);
        lemma_plane(f, &inputs[4], n, d as usize);
        assert(plane(inputs[3].data@) =~= kv_sdpa::first_plane(&inputs[3], n, d as usize));
        assert(plane(inputs[4].data@) =~= kv_sdpa::first_plane(&inputs[4], n, d as usize));
    }
    assert(table == kv_sdpa::rotation(inputs, n));
    assert(cache == attention::cache_of(bi, qh, hq, hkv));
    law_row_is_the_mean_of_what_it_sees(
        f,
        e,
        q,
        keys,
        s.bits,
        values,
        s.bits,
        bi,
        qh,
        i,
        n,
        kv_sdpa::score_scale(s.scale, q.shape@[3]),
        table,
        s.is_causal,
        c,
    );
    tensor::lemma_row4_len(o, bi, qh, i);
    let at = ((bi * hq + qh) * q_len + i) * d;
    assert(o.row4(bi, qh, i)[c] == o.data@[at + c]);
}

/// The rows of a first plane lie one behind the other.
proof fn lemma_plane<T: Scalar>(f: Reading<T>, x: &NdArray<T>, n: usize, d: usize)
    requires
        n * d <= x.data@.len(),
        f.all(x.data@),
    ensures
        kv_sdpa::first_plane(x, n, d) == Seq::new(
            n as nat,
            |t: int| Seq::new(d as nat, |j: int| x.data@[t * d + j]),
        ),
        exact::real_rows(f, kv_sdpa::first_plane(x, n, d), d as nat),
{
    let p = kv_sdpa::first_plane(x, n, d);
    let r = Seq::new(n as nat, |t: int| Seq::new(d as nat, |j: int| x.data@[t * d + j]));
    assert forall|t: int| 0 <= t < n implies #[trigger] p[t] == r[t] && p[t].len() == d && f.all(
        p[t],
    ) by {
        assert(0 <= t * d && t * d + d <= n * d) by (nonlinear_arith)
            requires
                0 <= t < n,
                0 <= d,
        ;
        assert(p[t] =~= r[t]);
    }
    assert(p =~= r);
}

/// Without a factor of its own, an attention scales scores by one over the square
/// root of the width.
pub proof fn law_usual_scale_is_one_over_the_root<T: Scalar>(f: Reading<T>, d: usize)
    requires
        f.exact(),
        d > 0,
        forall|a: T|
            f.is(a) && f.of(a) != reals::whole(0) ==> f.is(#[trigger] a.reciprocal_spec())
                && reals::product(f.of(a.reciprocal_spec()), f.of(a)) == reals::whole(1),
        forall|a: T|
            f.is(a) && f.of(a) >= reals::whole(0) ==> f.is(#[trigger] a.square_root_spec()) && f.of(
                a.square_root_spec(),
            ) >= reals::whole(0) && reals::product(
                f.of(a.square_root_spec()),
                f.of(a.square_root_spec()),
            ) == f.of(a),
    ensures
        ({
            let r = f.of(kv_sdpa::score_scale(None::<T>, d));
            &&& r >= reals::whole(0)
            &&& reals::product(reals::product(r, r), reals::whole(d as int)) == reals::whole(1)
        }),
        forall|x: T| #[trigger] kv_sdpa::score_scale(Some(x), d) == x,
{
    let n = T::of_count_spec(d);
    assert(f.is(n) && f.of(n) == reals::whole(d as int));
    let r = n.reciprocal_spec();
    assert(f.is(r));
    lemma_inverse_is_positive(f.of(r), f.of(n));
    assert(f.is(r.square_root_spec()));
}

/// The inverse of a positive number is positive.
proof fn lemma_inverse_is_positive(a: real, b: real)
    requires
        reals::product(a, b) == reals::whole(1),
        b > reals::whole(0),
    ensures
        a >= reals::whole(0),
{
    reveal(reals::product);
    assert(a >= reals::whole(0)) by (nonlinear_arith)
        requires
            a * b == reals::whole(1),
            b > reals::whole(0),
    ;
}

/// No exponential of a positive number is ever taken: scores are taken relative to the
/// greatest of their tile, and what was there and what is new relative to the greatest
/// so far, so that one of the two keeps its full weight. So nothing overflows, however
/// large the scores are.
pub proof fn law_no_exponential_of_a_positive_number<T: Scalar>(
    f: Reading<T>,
    e: spec_fn(real) -> real,
    st: attention::RowState<T>,
    s: Seq<T>,
    values: Seq<Seq<T>>,
    j: int,
)
    requires
        softmax::exponentiates(f, e),
        f.all(s),
        f.is(st.m),
        0 <= j < s.len(),
    ensures
        exists|a: T|
            f.is(a) && f.of(a) <= reals::whole(0) && attention::weights(s)[j]
                == #[trigger] a.exponential_spec(),
        exists|a: T, b: T|
            #![trigger a.exponential_spec(), b.exponential_spec()]
            {
                &&& f.is(a) && f.is(b)
                &&& f.of(a) <= reals::whole(0) && f.of(b) <= reals::whole(0)
                &&& f.of(a) == reals::whole(0) || f.of(b) == reals::whole(0)
                &&& attention::absorbed(st, s, values).l == a.exponential_spec().times_spec(
                    st.l,
                ).plus_spec(b.exponential_spec().times_spec(T::total_spec(attention::weights(s))))
            },
{
    softmax::lemma_is_exact(f, e);
    exact::lemma_extremes(f, s);
    let top = quant::greatest(s);
    assert(top.finite_spec()) by {
        reveal(softmax::exponentiates);
    }
    assert(f.is(s[j]));
    let a = s[j].minus_spec(top);
    assert(f.is(a) && f.of(a) == f.of(s[j]) - f.of(top));
    assert(attention::weights(s)[j] == a.exponential_spec());
    let m = st.m.larger_spec(top);
    assert(m == if f.of(st.m) < f.of(top) {
        top
    } else {
        st.m
    });
    let (keep, take) = (st.m.minus_spec(m), top.minus_spec(m));
    assert(f.is(keep) && f.of(keep) == f.of(st.m) - f.of(m));
    assert(f.is(take) && f.of(take) == f.of(top) - f.of(m));
    assert(attention::absorbed(st, s, values).l == keep.exponential_spec().times_spec(
        st.l,
    ).plus_spec(take.exponential_spec().times_spec(T::total_spec(attention::weights(s)))));
}

/// The rows of the tables that a rotation is given, as they lie in their matrices.
pub proof fn law_tables_are_read_row_by_row<T>(
    cos: &Matrix<T>,
    sin: &Matrix<T>,
    t: int,
    c: int,
)
    requires
        cos.wf(),
        sin.wf(),
        0 <= t < cos.rows,
        t < sin.rows,
        0 <= c < cos.cols,
        sin.cols == cos.cols,
    ensures
        attention::tables(Some((cos, sin))) matches Some((a, b)) && a[t][c] == cos.data@[t
            * cos.cols + c] && b[t][c] == sin.data@[t * sin.cols + c],
        attention::tables(None::<(&Matrix<T>, &Matrix<T>)>) is None,
{
    tensor::lemma_row_len(cos, t);
    tensor::lemma_row_len(sin, t);
}

/// The rows of one head in some tensors, one behind the other.
pub open spec fn rows_in_order<T>(xs: Seq<NdArray<T>>, i: int) -> Seq<Seq<T>>
    decreases xs.len(),
{
    if xs.len() == 0 {
        Seq::empty()
    } else {
        let x = &xs.last();
        let h = x.shape@[1] as int;
        rows_in_order(xs.drop_last(), i) + kv_sdpa::head_rows(x, i / h, i % h, x.shape@[2] as int)
    }
}

/// Whether some states of an attention follow one another as keys and values of the same
/// batch, heads and width are given to it, as many values as keys each time.
pub open spec fn follow<T: Scalar>(
    states: Seq<QuantizedKvSdpaState<T>>,
    ks: Seq<NdArray<T>>,
    vs: Seq<NdArray<T>>,
) -> bool {
    &&& states.len() == ks.len() + 1
    &&& vs.len() == ks.len()
    &&& !states[0].initialized
    &&& forall|j: int|
        #![trigger ks[j]]
        0 <= j < ks.len() ==> {
            let (k, v) = (&ks[j], &vs[j]);
            &&& k.shape@[0] == ks[0].shape@[0] && k.shape@[1] == ks[0].shape@[1]
            &&& k.shape@[3] == ks[0].shape@[3]
            &&& v.shape@[1] == k.shape@[1] && v.shape@[2] == k.shape@[2]
            &&& states[j + 1].initialized
            &&& states[j + 1].bits == states[j].bits
            &&& states[j + 1].keys() == kv_sdpa::all_keys_fed(
                states[j].start_keys(k),
                k,
                states[j].bits,
            )
            &&& states[j + 1].values() == kv_sdpa::all_values_fed(
                states[j].start_values(k),
                k,
                v,
                states[j].bits,
            )
        }
}

/// Every head remembers all keys and values that it was given, in order, from the first
/// call on.
pub proof fn law_heads_remember_all_calls<T: Scalar>(
    states: Seq<QuantizedKvSdpaState<T>>,
    ks: Seq<NdArray<T>>,
    vs: Seq<NdArray<T>>,
    i: int,
)
    requires
        follow(states, ks, vs),
        ks.len() > 0,
        0 <= i < ks[0].shape@[0] * ks[0].shape@[1],
    ensures
        states.last().keys().len() == ks[0].shape@[0] * ks[0].shape@[1],
        states.last().values().len() == ks[0].shape@[0] * ks[0].shape@[1],
        states.last().keys()[i] == kv_sdpa::keys_fed(
            kv_cache::no_keys::<T>(ks[0].shape@[3] as nat),
            rows_in_order(ks, i),
            states.last().bits,
        ),
        states.last().values()[i].len() == rows_in_order(vs, i).len(),
        forall|t: int|
            0 <= t < rows_in_order(vs, i).len() ==> #[trigger] states.last().values()[i][t]
                == kv_cache::value_token(rows_in_order(vs, i)[t], states.last().bits),
    decreases ks.len(),
{
    let n = ks.len() - 1;
    let (k, v) = (&ks[n], &vs[n]);
    let (was, now) = (&states[n], &states.last());
    let (kr, vr) = (ks.drop_last(), vs.drop_last());
    let d = ks[0].shape@[3] as nat;
    let kh = k.shape@[1] as int;
    let len = k.shape@[2] as int;
    let bits = now.bits;
    assert(states[n + 1] == *now);
    assert(ks.last() == *k && vs.last() == *v);
    let (old_k, old_v) = (rows_in_order(kr, i), rows_in_order(vr, i));
    let knew = kv_sdpa::head_rows(k, i / kh, i % kh, len);
    let vnew = kv_sdpa::head_rows(v, i / kh, i % kh, len);
    if n > 0 {
        let before = states.drop_last();
        assert forall|j: int|
            #![trigger kr[j]]
            0 <= j < kr.len() implies {
            let (k, v) = (&kr[j], &vr[j]);
            &&& k.shape@[0] == kr[0].shape@[0] && k.shape@[1] == kr[0].shape@[1]
            &&& k.shape@[3] == kr[0].shape@[3]
            &&& v.shape@[1] == k.shape@[1] && v.shape@[2] == k.shape@[2]
            &&& before[j + 1].initialized
            &&& before[j + 1].bits == before[j].bits
            &&& before[j + 1].keys() == kv_sdpa::all_keys_fed(
                before[j].start_keys(k),
                k,
                before[j].bits,
            )
            &&& before[j + 1].values() == kv_sdpa::all_values_fed(
                before[j].start_values(k),
                k,
                v,
                before[j].bits,
            )
        } by {
            assert(kr[j] == ks[j] && vr[j] == vs[j]);
        }
        law_heads_remember_all_calls(before, kr, vr, i);
        assert(before.last() == *was);
        assert(was.initialized) by {
            assert(ks[n - 1].shape@[0] == ks[0].shape@[0]);
        }
    } else {
        assert(was.start_values(k)[i] =~= Seq::<ValueToken<T>>::empty());
    }
    let none = kv_cache::no_keys::<T>(d);
    assert(was.start_keys(k)[i] == kv_sdpa::keys_fed(none, old_k, bits));
    kv_sdpa::law_feeding_keys_in_parts(none, old_k, knew, bits);
    assert(now.keys()[i] == kv_sdpa::keys_fed(was.start_keys(k)[i], knew, bits));
    assert(now.values()[i] == kv_sdpa::values_fed(was.start_values(k)[i], vnew, bits));
    let all = rows_in_order(vs, i);
    assert(all == old_v + vnew);
    assert forall|t: int| 0 <= t < all.len() implies #[trigger] now.values()[i][t]
        == kv_cache::value_token(all[t], bits) by {
        if t < old_v.len() {
            assert(all[t] == old_v[t]);
            assert(was.start_values(k)[i][t] == kv_cache::value_token(old_v[t], bits));
        } else {
            assert(all[t] == vnew[t - old_v.len()]);
        }
    }
}

} // verus!
