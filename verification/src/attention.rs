//! Attention over quantized keys and values, read back one tile at a time.
//!
//! The softmax is taken online: for each query row a running maximum `m`, a
//! running normalizer `l` and a running output `o` absorb one tile of keys and
//! values after the other.

use vstd::prelude::*;

use crate::kv_cache;
use crate::kv_cache::{ChannelKeys, QuantKeyCache, QuantValueCache, ValueToken};
use crate::math;
use crate::parallel;
use crate::quant;
use crate::rope;
use crate::scalar;
use crate::scalar::Scalar;
use crate::tensor;
use crate::tensor::{Matrix, NdArray};

verus! {

/// The number of tokens that are read back at a time.
pub const TILE: usize = 32;

/// What is known of one query row after some tiles.
#[verifier::ext_equal]
pub struct RowState<T> {
    pub o: Seq<T>,
    pub l: T,
    pub m: T,
}

/// The scores of a query against the keys of a tile that starts at position
/// `first`. A position past `allowed` is masked.
pub open spec fn scores<T: Scalar>(
    q: Seq<T>,
    keys: Seq<Seq<T>>,
    first: int,
    scale: T,
    allowed: Option<int>,
) -> Seq<T> {
    Seq::new(
        keys.len(),
        |j: int|
            if allowed is Some && first + j > allowed->0 {
                T::neg_infinity_spec()
            } else {
                T::dot_spec(q, keys[j]).times_spec(scale)
            },
    )
}

/// The exponentials of the scores, each taken relative to the greatest where
/// that is finite.
pub open spec fn weights<T: Scalar>(s: Seq<T>) -> Seq<T> {
    let top = quant::greatest(s);
    Seq::new(
        s.len(),
        |j: int|
            if top.finite_spec() {
                s[j].minus_spec(top).exponential_spec()
            } else {
                s[j].exponential_spec()
            },
    )
}

/// The state of a row once it has absorbed a tile with these scores.
pub open spec fn absorbed<T: Scalar>(
    st: RowState<T>,
    s: Seq<T>,
    values: Seq<Seq<T>>,
) -> RowState<T> {
    let tile_m = quant::greatest(s);
    let p = weights(s);
    let m = st.m.larger_spec(tile_m);
    let keep = st.m.minus_spec(m).exponential_spec();
    let take = tile_m.minus_spec(m).exponential_spec();
    let l = keep.times_spec(st.l).plus_spec(take.times_spec(T::total_spec(p)));
    let mul_o = keep.times_spec(st.l).times_spec(l.reciprocal_spec());
    let mul_sv = take.times_spec(l.reciprocal_spec());
    RowState {
        o: Seq::new(
            st.o.len(),
            |j: int|
                st.o[j].times_spec(mul_o).plus_spec(
                    T::dot_spec(p, kv_cache::column(values, j)).times_spec(mul_sv),
                ),
        ),
        l,
        m,
    }
}

/// The rows of tile `i`.
pub open spec fn tile<A>(rows: Seq<A>, i: int) -> Seq<A> {
    rows.subrange(i * 32, math::min(i * 32 + 32, rows.len() as int))
}

/// The state of a query row after the first `n` tiles.
pub open spec fn attended<T: Scalar>(
    q: Seq<T>,
    keys: Seq<Seq<T>>,
    values: Seq<Seq<T>>,
    scale: T,
    allowed: Option<int>,
    n: nat,
) -> RowState<T>
    decreases n,
{
    if n == 0 {
        RowState {
            o: Seq::new(q.len(), |j: int| T::zero_spec()),
            l: T::zero_spec(),
            m: T::neg_infinity_spec(),
        }
    } else {
        let i = (n - 1) as nat;
        absorbed(
            attended(q, keys, values, scale, allowed, i),
            scores(q, tile(keys, i as int), i as int * 32, scale, allowed),
            tile(values, i as int),
        )
    }
}

/// The attention of one query row.
pub open spec fn attention_row<T: Scalar>(
    q: Seq<T>,
    keys: Seq<Seq<T>>,
    values: Seq<Seq<T>>,
    scale: T,
    allowed: Option<int>,
) -> Seq<T> {
    attended(q, keys, values, scale, allowed, math::ceil_div(keys.len(), 32)).o
}

/// The rows of the tables of cosines and sines.
pub open spec fn tables<T>(table: Option<(&Matrix<T>, &Matrix<T>)>) -> Option<
    (Seq<Seq<T>>, Seq<Seq<T>>),
> {
    match table {
        Some((cos, sin)) => Some((cos.all_rows(), sin.all_rows())),
        None => None,
    }
}

/// The first `n` keys of a cache as the scores see them: read back, and rotated
/// where there is a rotation.
pub open spec fn key_rows<T: Scalar>(
    keys: ChannelKeys<T>,
    bits: u32,
    n: nat,
    table: Option<(Seq<Seq<T>>, Seq<Seq<T>>)>,
) -> Seq<Seq<T>> {
    Seq::new(n, |t: int| key_row(keys, bits, t, table))
}

/// Key `t` as the scores see it.
pub open spec fn key_row<T: Scalar>(
    keys: ChannelKeys<T>,
    bits: u32,
    t: int,
    table: Option<(Seq<Seq<T>>, Seq<Seq<T>>)>,
) -> Seq<T> {
    let plain = Seq::new(keys.lo.len(), |c: int| keys.value(bits, t, c));
    match table {
        Some((cos, sin)) => rope::rotated(plain, cos[t], sin[t]),
        None => plain,
    }
}

/// The first `n` values of a cache, read back.
pub open spec fn value_rows<T: Scalar>(tokens: Seq<ValueToken<T>>, bits: u32, n: nat) -> Seq<Seq<T>> {
    Seq::new(
        n,
        |t: int| Seq::new(tokens[t].codes.len(), |c: int| tokens[t].value(bits, c)),
    )
}

/// The last position that query row `i` of `q_len` may attend to, with `kv_len`
/// tokens cached: the rows stand at the end of the cache.
pub open spec fn horizon(causal: bool, kv_len: int, q_len: int, i: int) -> Option<int> {
    if causal {
        Some(kv_len - q_len + i)
    } else {
        None
    }
}

/// Lets one query row absorb one tile.
fn absorb_tile<T: Scalar>(
    q: &[T],
    keys: &Matrix<T>,
    columns: &Vec<Vec<T>>,
    rows: usize,
    first: usize,
    scale: T,
    allowed: Option<usize>,
    l: T,
    m: T,
    o: &mut [T],
) -> (r: (T, T))
    requires
        scalar::lawful::<T>(),
        keys.wf(),
        rows <= keys.rows,
        first + rows <= usize::MAX,
        q@.len() == keys.cols,
        columns@.len() == old(o)@.len(),
        forall|j: int| 0 <= j < columns@.len() ==> (#[trigger] columns@[j])@.len() == rows,
    ensures
        final(o)@.len() == old(o)@.len(),
        ({
            let st = RowState { o: old(o)@, l, m };
            let tile = Seq::new(rows as nat, |j: int| keys.row(j));
            let values = Seq::new(
                rows as nat,
                |t: int| Seq::new(columns@.len(), |c: int| columns@[c]@[t]),
            );
            let allow = match allowed {
                Some(a) => Some(a as int),
                None => None::<int>,
            };
            RowState { o: final(o)@, l: r.0, m: r.1 } == absorbed(
                st,
                scores(q@, tile, first as int, scale, allow),
                values,
            )
        }),
{
    let ghost keys_tile = Seq::new(rows as nat, |j: int| keys.row(j));
    let ghost values = Seq::new(
        rows as nat,
        |t: int| Seq::new(columns@.len(), |c: int| columns@[c]@[t]),
    );
    let ghost allow = match allowed {
        Some(a) => Some(a as int),
        None => None::<int>,
    };
    let ghost s_spec = scores(q@, keys_tile, first as int, scale, allow);
    let ghost target = absorbed(RowState { o: o@, l, m }, s_spec, values);
    let mut s: Vec<T> = Vec::new();
    let mut j: usize = 0;
    while j < rows
        invariant
            scalar::lawful::<T>(),
            keys.wf(),
            rows <= keys.rows,
            first + rows <= usize::MAX,
            q@.len() == keys.cols,
            keys_tile == Seq::new(rows as nat, |j: int| keys.row(j)),
            allow == match allowed {
                Some(a) => Some(a as int),
                None => None::<int>,
            },
            s_spec == scores(q@, keys_tile, first as int, scale, allow),
            j <= rows,
            s@ == s_spec.take(j as int),
        decreases rows - j,
    {
        let masked: bool = match allowed {
            Some(a) => first + j > a,
            None => false,
        };
        let x: T = if masked {
            scalar::neg_infinity()
        } else {
            scalar::times(scalar::dot(q, keys.row_ref(j)), scale)
        };
        s.push(x);
        j += 1;
        assert(s@ =~= s_spec.take(j as int));
    }
    assert(s@ =~= s_spec);
    let (_, tile_m) = quant::range_of(s.as_slice());
    let relative: bool = scalar::finite(tile_m);
    let ghost p_spec = weights(s_spec);
    let mut p: Vec<T> = Vec::new();
    let mut j: usize = 0;
    while j < rows
        invariant
            scalar::lawful::<T>(),
            s@ == s_spec,
            s_spec.len() == rows,
            tile_m == quant::greatest(s_spec),
            relative == tile_m.finite_spec(),
            p_spec == weights(s_spec),
            j <= rows,
            p@ == p_spec.take(j as int),
        decreases rows - j,
    {
        let x: T = if relative { scalar::minus(s[j], tile_m) } else { s[j] };
        p.push(scalar::exponential(x));
        j += 1;
        assert(p@ =~= p_spec.take(j as int));
    }
    assert(p@ =~= p_spec);
    let tile_l = scalar::total(p.as_slice());
    let m_new = scalar::larger(m, tile_m);
    let keep = scalar::exponential(scalar::minus(m, m_new));
    let take = scalar::exponential(scalar::minus(tile_m, m_new));
    let l_new = scalar::plus(scalar::times(keep, l), scalar::times(take, tile_l));
    let r_l_new = scalar::reciprocal(l_new);
    let mul_o = scalar::times(scalar::times(keep, l), r_l_new);
    let mul_sv = scalar::times(take, r_l_new);
    let d: usize = o.len();
    let mut j: usize = 0;
    while j < d
        invariant
            scalar::lawful::<T>(),
            p@ == p_spec,
            p_spec.len() == rows,
            d == o@.len(),
            o@.len() == old(o)@.len(),
            columns@.len() == d,
            forall|k: int| 0 <= k < columns@.len() ==> (#[trigger] columns@[k])@.len() == rows,
            values == Seq::new(
                rows as nat,
                |t: int| Seq::new(columns@.len(), |c: int| columns@[c]@[t]),
            ),
            j <= d,
            forall|k: int|
                0 <= k < j ==> #[trigger] o@[k] == old(o)@[k].times_spec(mul_o).plus_spec(
                    T::dot_spec(p_spec, kv_cache::column(values, k)).times_spec(mul_sv),
                ),
            forall|k: int| j <= k < d ==> #[trigger] o@[k] == old(o)@[k],
        decreases d - j,
    {
        assert(columns@[j as int]@ =~= kv_cache::column(values, j as int));
        let sv = scalar::dot(p.as_slice(), columns[j].as_slice());
        o[j] = scalar::plus(scalar::times(o[j], mul_o), scalar::times(sv, mul_sv));
        j += 1;
    }
    assert(RowState { o: o@, l: l_new, m: m_new } =~= target);
    (l_new, m_new)
}

/// Whether heads can be attended to: `n` caches of keys and of values hold
/// `kv_len` tokens of the query's width, any rotation covers them, and under a
/// causal mask the query rows stand within them.
pub open spec fn ready<T: Scalar>(
    q: &NdArray<T>,
    kcs: Seq<QuantKeyCache<T>>,
    vcs: Seq<QuantValueCache<T>>,
    n: int,
    kv_len: usize,
    table: Option<(&Matrix<T>, &Matrix<T>)>,
    causal: bool,
) -> bool {
    let d = q.shape@[3];
    &&& q.wf()
    &&& q.is_rank4()
    &&& n <= kcs.len()
    &&& n <= vcs.len()
    &&& forall|i: int|
        0 <= i < n ==> {
            &&& (#[trigger] kcs[i]).wf()
            &&& kcs[i].d == d
            &&& kv_len <= kcs[i]@.codes.len()
        }
    &&& forall|i: int|
        0 <= i < n ==> {
            &&& (#[trigger] vcs[i]).wf()
            &&& vcs[i].d == d
            &&& kv_len <= vcs[i]@.len()
        }
    &&& match table {
        Some((cos, sin)) => {
            &&& cos.wf()
            &&& sin.wf()
            &&& cos.cols == d
            &&& sin.cols == d
            &&& kv_len <= cos.rows
            &&& kv_len <= sin.rows
        },
        None => true,
    }
    &&& causal ==> q.shape@[2] <= kv_len
    &&& d * 32 <= usize::MAX
}

/// The attention of query row `i` of head `qh` of batch `bi`, over the keys and
/// the values of one head, each with the width of its codes.
pub open spec fn head_row<T: Scalar>(
    q: &NdArray<T>,
    keys: (ChannelKeys<T>, u32),
    values: (Seq<ValueToken<T>>, u32),
    bi: int,
    qh: int,
    i: int,
    kv_len: usize,
    scale: T,
    table: Option<(Seq<Seq<T>>, Seq<Seq<T>>)>,
    causal: bool,
) -> Seq<T> {
    attention_row(
        q.row4(bi, qh, i),
        key_rows(keys.0, keys.1, kv_len as nat, table),
        value_rows(values.0, values.1, kv_len as nat),
        scale,
        horizon(causal, kv_len as int, q.shape@[2] as int, i),
    )
}

/// The attention of one query head over one pair of caches.
pub fn attend_one_head_quant<T: Scalar>(
    bi: usize,
    qh: usize,
    kvh: usize,
    q: &NdArray<T>,
    kcs: &[QuantKeyCache<T>],
    vcs: &[QuantValueCache<T>],
    hkv: usize,
    kv_len: usize,
    scale: T,
    table: Option<(&Matrix<T>, &Matrix<T>)>,
    causal: bool,
) -> (r: Matrix<T>)
    requires
        scalar::lawful::<T>(),
        bi * hkv + kvh < kcs@.len(),
        ready(q, kcs@, vcs@, bi * hkv + kvh + 1, kv_len, table, causal),
        bi < q.shape@[0],
        qh < q.shape@[1],
    ensures
        r.wf(),
        r.rows == q.shape@[2],
        r.cols == q.shape@[3],
        forall|i: int|
            0 <= i < q.shape@[2] ==> #[trigger] r.row(i) == head_row(
                q,
                (kcs@[bi * hkv + kvh]@, kcs@[bi * hkv + kvh].bits),
                (vcs@[bi * hkv + kvh]@, vcs@[bi * hkv + kvh].bits),
                bi as int,
                qh as int,
                i,
                kv_len,
                scale,
                tables(table),
                causal,
            ),
{
    let (q_len, d): (usize, usize) = (q.shape[2], q.shape[3]);
    proof {
        tensor::lemma_head_fits(q, bi as int, qh as int);
        assert(kcs.len() == kcs@.len());
        assert(0 <= bi * hkv) by (nonlinear_arith);
    }
    let index: usize = bi * hkv + kvh;
    let (kc, vc) = (&kcs[index], &vcs[index]);
    let ghost keys = key_rows(kc@, kc.bits, kv_len as nat, tables(table));
    let ghost values = value_rows(vc@, vc.bits, kv_len as nat);
    let mut out: Matrix<T> = kv_cache::zeros(q_len, d);
    let mut kbuf: Matrix<T> = kv_cache::zeros(TILE, d);
    let mut vbuf: Matrix<T> = kv_cache::zeros(TILE, d);
    let mut l: Vec<T> = Vec::new();
    let mut m: Vec<T> = Vec::new();
    let mut i: usize = 0;
    while i < q_len
        invariant
            scalar::lawful::<T>(),
            i <= q_len,
            l@.len() == i,
            m@.len() == i,
            forall|k: int| 0 <= k < i ==> #[trigger] l@[k] == T::zero_spec(),
            forall|k: int| 0 <= k < i ==> #[trigger] m@[k] == T::neg_infinity_spec(),
        decreases q_len - i,
    {
        l.push(scalar::zero());
        m.push(scalar::neg_infinity());
        i += 1;
    }
    let n_tiles: usize = math::div_ceil(kv_len, TILE);
    proof {
        assert forall|i: int| 0 <= i < q_len implies #[trigger] row_after(
            &out,
            l@,
            m@,
            i,
            attended(
                q.row4(bi as int, qh as int, i),
                keys,
                values,
                scale,
                horizon(causal, kv_len as int, q_len as int, i),
                0,
            ),
        ) by {
            tensor::lemma_row4_len(q, bi as int, qh as int, i);
            tensor::lemma_row_len(&out, i);
            assert(out.row(i) =~= Seq::new(d as nat, |j: int| T::zero_spec()));
        }
    }
    let mut kbix: usize = 0;
    while kbix < n_tiles
        invariant
            scalar::lawful::<T>(),
            ready(q, kcs@, vcs@, index + 1, kv_len, table, causal),
            index < kcs@.len(),
            bi < q.shape@[0],
            qh < q.shape@[1],
            kc == &kcs@[index as int],
            vc == &vcs@[index as int],
            q_len == q.shape@[2],
            d == q.shape@[3],
            keys == key_rows(kc@, kc.bits, kv_len as nat, tables(table)),
            values == value_rows(vc@, vc.bits, kv_len as nat),
            out.wf(),
            out.rows == q_len,
            out.cols == d,
            kbuf.wf(),
            kbuf.rows == 32,
            kbuf.cols == d,
            vbuf.wf(),
            vbuf.rows == 32,
            vbuf.cols == d,
            l@.len() == q_len,
            m@.len() == q_len,
            n_tiles == math::ceil_div(kv_len as nat, 32),
            kbix <= n_tiles,
            forall|i: int|
                0 <= i < q_len ==> #[trigger] row_after(
                    &out,
                    l@,
                    m@,
                    i,
                    attended(
                        q.row4(bi as int, qh as int, i),
                        keys,
                        values,
                        scale,
                        horizon(causal, kv_len as int, q_len as int, i),
                        kbix as nat,
                    ),
                ),
        decreases n_tiles - kbix,
    {
        proof {
            math::lemma_ceil_div(kv_len as nat, 32);
            assert(kbix * 32 < kv_len);
        }
        let start: usize = kbix * TILE;
        let rows: usize = math::at_most(TILE, kv_len - start);
        kc.dequant_tile(start..start + rows, &mut kbuf);
        vc.dequant_tile(start..start + rows, &mut vbuf);
        let ghost plain = kbuf;
        if let Some((cos, sin)) = table {
            rope::apply_rope_tile(&mut kbuf, rows, start, cos, sin);
        }
        proof {
            assert forall|j: int| 0 <= j < rows implies #[trigger] kbuf.row(j) == keys[start
                + j] by {
                tensor::lemma_row_len(&plain, j);
                assert(plain.row(j) =~= Seq::new(
                    kc@.lo.len(),
                    |c: int| kc@.value(kc.bits, start + j, c),
                )) by {
                    assert forall|c: int| 0 <= c < d implies plain.row(j)[c] == kc@.value(
                        kc.bits,
                        start + j,
                        c,
                    ) by {
                        assert(plain.at(j, c) == kc@.value(kc.bits, start + j, c));
                    }
                }
            }
            assert(Seq::new(rows as nat, |j: int| kbuf.row(j)) =~= tile(keys, kbix as int));
        }
        let columns = columns_of(&vbuf, rows);
        proof {
            let got = Seq::new(
                rows as nat,
                |t: int| Seq::new(columns@.len(), |c: int| columns@[c]@[t]),
            );
            let want = tile(values, kbix as int);
            assert forall|t: int| 0 <= t < rows implies got[t] == want[t] by {
                assert(want[t] == values[start + t]);
                assert forall|c: int| 0 <= c < d implies got[t][c] == values[start + t][c] by {
                    assert(columns@[c]@[t] == vbuf.at(t, c));
                }
                assert(got[t] =~= want[t]);
            }
            assert(got =~= want);
        }
        let mut i: usize = 0;
        while i < q_len
            invariant
                scalar::lawful::<T>(),
                ready(q, kcs@, vcs@, index + 1, kv_len, table, causal),
                bi < q.shape@[0],
                qh < q.shape@[1],
                q_len == q.shape@[2],
                d == q.shape@[3],
                out.wf(),
                out.rows == q_len,
                out.cols == d,
                kbuf.wf(),
                kbuf.rows == 32,
                kbuf.cols == d,
                rows <= 32,
                start == kbix * 32,
                start + rows <= kv_len,
                columns@.len() == d,
                forall|j: int| 0 <= j < d ==> (#[trigger] columns@[j])@.len() == rows,
                Seq::new(rows as nat, |j: int| kbuf.row(j)) == tile(keys, kbix as int),
                Seq::new(rows as nat, |t: int| Seq::new(columns@.len(), |c: int| columns@[c]@[t]))
                    == tile(values, kbix as int),
                l@.len() == q_len,
                m@.len() == q_len,
                i <= q_len,
                forall|k: int|
                    0 <= k < i ==> #[trigger] row_after(
                        &out,
                        l@,
                        m@,
                        k,
                        attended(
                            q.row4(bi as int, qh as int, k),
                            keys,
                            values,
                            scale,
                            horizon(causal, kv_len as int, q_len as int, k),
                            (kbix + 1) as nat,
                        ),
                    ),
                forall|k: int|
                    i <= k < q_len ==> #[trigger] row_after(
                        &out,
                        l@,
                        m@,
                        k,
                        attended(
                            q.row4(bi as int, qh as int, k),
                            keys,
                            values,
                            scale,
                            horizon(causal, kv_len as int, q_len as int, k),
                            kbix as nat,
                        ),
                    ),
            decreases q_len - i,
        {
            let ghost before = (out, l@, m@);
            let ghost q_row = q.row4(bi as int, qh as int, i as int);
            let ghost limit = horizon(causal, kv_len as int, q_len as int, i as int);
            assert(row_after(
                &out,
                l@,
                m@,
                i as int,
                attended(q_row, keys, values, scale, limit, kbix as nat),
            ));
            let row = q.row4_ref(bi, qh, i);
            let allowed: Option<usize> = if causal { Some(kv_len - q_len + i) } else { None };
            let o = out.row_mut(i);
            let (l_new, m_new) = absorb_tile(
                row,
                &kbuf,
                &columns,
                rows,
                start,
                scale,
                allowed,
                l[i],
                m[i],
                o,
            );
            let ghost o_new = o@;
            l.set(i, l_new);
            m.set(i, m_new);
            proof {
                tensor::lemma_row_replaced(before.0, out, i as int, o_new);
                let step = attended(q_row, keys, values, scale, limit, (kbix + 1) as nat);
                assert(RowState { o: o_new, l: l_new, m: m_new } == step);
                assert forall|k: int| 0 <= k < q_len && k != i implies #[trigger] out.row(k)
                    == before.0.row(k) by {
                    tensor::lemma_rows_equal(before.0, out, k);
                }
                assert forall|k: int| 0 <= k < i + 1 implies #[trigger] row_after(
                    &out,
                    l@,
                    m@,
                    k,
                    attended(
                        q.row4(bi as int, qh as int, k),
                        keys,
                        values,
                        scale,
                        horizon(causal, kv_len as int, q_len as int, k),
                        (kbix + 1) as nat,
                    ),
                ) by {
                    if k < i {
                        assert(row_after(
                            &before.0,
                            before.1,
                            before.2,
                            k,
                            attended(
                                q.row4(bi as int, qh as int, k),
                                keys,
                                values,
                                scale,
                                horizon(causal, kv_len as int, q_len as int, k),
                                (kbix + 1) as nat,
                            ),
                        ));
                    }
                }
                assert forall|k: int| i + 1 <= k < q_len implies #[trigger] row_after(
                    &out,
                    l@,
                    m@,
                    k,
                    attended(
                        q.row4(bi as int, qh as int, k),
                        keys,
                        values,
                        scale,
                        horizon(causal, kv_len as int, q_len as int, k),
                        kbix as nat,
                    ),
                ) by {
                    assert(row_after(
                        &before.0,
                        before.1,
                        before.2,
                        k,
                        attended(
                            q.row4(bi as int, qh as int, k),
                            keys,
                            values,
                            scale,
                            horizon(causal, kv_len as int, q_len as int, k),
                            kbix as nat,
                        ),
                    ));
                }
            }
            i += 1;
        }
        let ghost next = (kbix + 1) as nat;
        kbix += 1;
        proof {
            assert forall|i: int| 0 <= i < q_len implies #[trigger] row_after(
                &out,
                l@,
                m@,
                i,
                attended(
                    q.row4(bi as int, qh as int, i),
                    keys,
                    values,
                    scale,
                    horizon(causal, kv_len as int, q_len as int, i),
                    kbix as nat,
                ),
            ) by {
                assert(row_after(
                    &out,
                    l@,
                    m@,
                    i,
                    attended(
                        q.row4(bi as int, qh as int, i),
                        keys,
                        values,
                        scale,
                        horizon(causal, kv_len as int, q_len as int, i),
                        next,
                    ),
                ));
            }
        }
    }
    proof {
        assert forall|i: int| 0 <= i < q_len implies #[trigger] out.row(i) == head_row(
            q,
            (kc@, kc.bits),
            (vc@, vc.bits),
            bi as int,
            qh as int,
            i,
            kv_len,
            scale,
            tables(table),
            causal,
        ) by {
            assert(row_after(
                &out,
                l@,
                m@,
                i,
                attended(
                    q.row4(bi as int, qh as int, i),
                    keys,
                    values,
                    scale,
                    horizon(causal, kv_len as int, q_len as int, i),
                    n_tiles as nat,
                ),
            ));
        }
    }
    out
}

/// Whether output row `i` with its normalizer and maximum is in the given state.
spec fn row_after<T: Scalar>(
    out: &Matrix<T>,
    l: Seq<T>,
    m: Seq<T>,
    i: int,
    st: RowState<T>,
) -> bool {
    RowState { o: out.row(i), l: l[i], m: m[i] } == st
}

/// The columns of the first `rows` rows.
fn columns_of<T: Scalar>(v: &Matrix<T>, rows: usize) -> (r: Vec<Vec<T>>)
    requires
        v.wf(),
        rows <= v.rows,
    ensures
        r@.len() == v.cols,
        forall|c: int| 0 <= c < v.cols ==> (#[trigger] r@[c])@.len() == rows,
        forall|c: int, t: int|
            0 <= c < v.cols && 0 <= t < rows ==> #[trigger] r@[c]@[t] == v.at(t, c),
{
    let mut r: Vec<Vec<T>> = Vec::new();
    let mut c: usize = 0;
    while c < v.cols
        invariant
            v.wf(),
            rows <= v.rows,
            c <= v.cols,
            r@.len() == c,
            forall|k: int| 0 <= k < c ==> (#[trigger] r@[k])@.len() == rows,
            forall|k: int, t: int|
                0 <= k < c && 0 <= t < rows ==> #[trigger] r@[k]@[t] == v.at(t, k),
        decreases v.cols - c,
    {
        let mut one: Vec<T> = Vec::new();
        let mut t: usize = 0;
        while t < rows
            invariant
                v.wf(),
                rows <= v.rows,
                c < v.cols,
                t <= rows,
                one@.len() == t,
                forall|k: int| 0 <= k < t ==> #[trigger] one@[k] == v.at(k, c as int),
            decreases rows - t,
        {
            proof {
                tensor::lemma_cell_in_bounds(t as int, c as int, v.rows as int, v.cols as int);
                assert(v.data.len() == v.data@.len());
            }
            one.push(v.data[t * v.cols + c]);
            t += 1;
        }
        r.push(one);
        c += 1;
    }
    r
}

/// The cache that a query head reads, with `hkv` heads of keys and values for
/// `hq` query heads.
pub open spec fn cache_of(bi: int, qh: int, hq: int, hkv: int) -> int {
    bi * hkv + qh / (hq / hkv)
}

/// Attention of all heads over their caches. Query heads share caches in groups
/// of equal size; the heads are computed on all cores.
pub fn flash_attention_quant<T: Scalar>(
    q: &NdArray<T>,
    kcs: &[QuantKeyCache<T>],
    vcs: &[QuantValueCache<T>],
    hkv: usize,
    kv_len: usize,
    scale: T,
    table: Option<(&Matrix<T>, &Matrix<T>)>,
    causal: bool,
) -> (r: NdArray<T>)
    requires
        scalar::lawful::<T>(),
        ready(q, kcs@, vcs@, q.shape@[0] * hkv, kv_len, table, causal),
        hkv > 0,
        q.shape@[1] as int % hkv as int == 0,
    ensures
        r.wf(),
        r.shape@ == q.shape@,
        forall|bi: int, qh: int, i: int|
            0 <= bi < q.shape@[0] && 0 <= qh < q.shape@[1] && 0 <= i < q.shape@[2]
                ==> #[trigger] r.row4(bi, qh, i) == head_row(
                q,
                (
                    kcs@[cache_of(bi, qh, q.shape@[1] as int, hkv as int)]@,
                    kcs@[cache_of(bi, qh, q.shape@[1] as int, hkv as int)].bits,
                ),
                (
                    vcs@[cache_of(bi, qh, q.shape@[1] as int, hkv as int)]@,
                    vcs@[cache_of(bi, qh, q.shape@[1] as int, hkv as int)].bits,
                ),
                bi,
                qh,
                i,
                kv_len,
                scale,
                tables(table),
                causal,
            ),
{
    let (b, hq, q_len, d): (usize, usize, usize, usize) = (
        q.shape[0],
        q.shape[1],
        q.shape[2],
        q.shape[3],
    );
    let group_size: usize = hq / hkv;
    let mut tasks: Vec<(usize, usize)> = Vec::new();
    let mut bi: usize = 0;
    assert(0 * hq == 0);
    while bi < b
        invariant
            bi <= b,
            tasks@.len() == bi * hq,
            forall|x: int, y: int|
                0 <= x < bi && 0 <= y < hq ==> #[trigger] tasks@[x * hq + y] == (
                    x as usize,
                    y as usize,
                ),
            forall|k: int|
                0 <= k < tasks@.len() ==> (#[trigger] tasks@[k]).0 < b && tasks@[k].1 < hq,
        decreases b - bi,
    {
        let mut qh: usize = 0;
        while qh < hq
            invariant
                bi < b,
                qh <= hq,
                tasks@.len() == bi * hq + qh,
                forall|x: int, y: int|
                    0 <= x < bi && 0 <= y < hq ==> #[trigger] tasks@[x * hq + y] == (
                        x as usize,
                        y as usize,
                    ),
                forall|y: int|
                    0 <= y < qh ==> #[trigger] tasks@[bi * hq + y] == (bi, y as usize),
                forall|k: int|
                    0 <= k < tasks@.len() ==> (#[trigger] tasks@[k]).0 < b && tasks@[k].1 < hq,
            decreases hq - qh,
        {
            let ghost before = tasks@;
            tasks.push((bi, qh));
            proof {
                assert forall|x: int, y: int| 0 <= x < bi && 0 <= y < hq implies #[trigger] tasks@[x
                    * hq + y] == (x as usize, y as usize) by {
                    tensor::lemma_cell_in_bounds(x, y, bi as int, hq as int);
                    assert(before[x * hq + y] == (x as usize, y as usize));
                }
                assert forall|y: int| 0 <= y < qh + 1 implies #[trigger] tasks@[bi * hq + y] == (
                    bi,
                    y as usize,
                ) by {
                    if y < qh {
                        assert(before[bi * hq + y] == (bi, y as usize));
                    }
                }
            }
            qh += 1;
        }
        proof {
            assert((bi + 1) * hq == bi * hq + hq) by (nonlinear_arith);
            assert forall|x: int, y: int| 0 <= x < bi + 1 && 0 <= y < hq implies #[trigger] tasks@[x
                * hq + y] == (x as usize, y as usize) by {
                if x == bi {
                    assert(tasks@[bi * hq + y] == (bi, y as usize));
                }
            }
        }
        bi += 1;
    }
    let compute = |task: &(usize, usize)| -> (o: Matrix<T>)
        requires
            task.0 < b,
            task.1 < hq,
        ensures
            o.wf(),
            o.rows == q_len,
            o.cols == d,
            forall|i: int|
                0 <= i < q_len ==> #[trigger] o.row(i) == head_row(
                    q,
                    (
                        kcs@[cache_of(task.0 as int, task.1 as int, hq as int, hkv as int)]@,
                        kcs@[cache_of(task.0 as int, task.1 as int, hq as int, hkv as int)].bits,
                    ),
                    (
                        vcs@[cache_of(task.0 as int, task.1 as int, hq as int, hkv as int)]@,
                        vcs@[cache_of(task.0 as int, task.1 as int, hq as int, hkv as int)].bits,
                    ),
                    task.0 as int,
                    task.1 as int,
                    i,
                    kv_len,
                    scale,
                    tables(table),
                    causal,
                ),
        {
            proof {
                lemma_group(task.0 as int, task.1 as int, b as int, hq as int, hkv as int);
            }
            let (bi, qh): (usize, usize) = *task;
            attend_one_head_quant(
                bi,
                qh,
                qh / group_size,
                q,
                kcs,
                vcs,
                hkv,
                kv_len,
                scale,
                table,
                causal,
            )
        };
    let heads: Vec<Matrix<T>> = if tasks.len() > 1 {
        parallel::par_map(tasks.as_slice(), compute)
    } else {
        let mut heads: Vec<Matrix<T>> = Vec::new();
        if tasks.len() == 1 {
            heads.push(compute(&tasks[0]));
        }
        heads
    };
    assert(forall|k: int|
        0 <= k < tasks@.len() ==> call_ensures(compute, (&tasks@[k],), #[trigger] heads@[k]));
    let mut data: Vec<T> = Vec::new();
    let ghost area = q_len * d;
    let mut h: usize = 0;
    assert(0 * area == 0);
    while h < heads.len()
        invariant
            h <= heads@.len(),
            forall|k: int|
                0 <= k < heads@.len() ==> (#[trigger] heads@[k]).data@.len() == area,
            data@.len() == h * area,
            forall|k: int|
                0 <= k < h ==> data@.subrange(k * area, k * area + area) == #[trigger] heads@[k].data@,
        decreases heads@.len() - h,
    {
        let ghost before = data@;
        append_all(&mut data, heads[h].data.as_slice());
        proof {
            assert((h + 1) * area == h * area + area) by (nonlinear_arith);
            assert forall|k: int| 0 <= k < h + 1 implies data@.subrange(
                k * area,
                k * area + area,
            ) == #[trigger] heads@[k].data@ by {
                if k < h {
                    assert((k + 1) * area <= h * area) by (nonlinear_arith)
                        requires
                            k + 1 <= h,
                            area >= 0,
                    ;
                    assert((k + 1) * area == k * area + area) by (nonlinear_arith);
                    assert(0 <= k * area) by (nonlinear_arith)
                        requires
                            0 <= k,
                            area >= 0,
                    ;
                    assert(data@.subrange(k * area, k * area + area) =~= before.subrange(
                        k * area,
                        k * area + area,
                    ));
                } else {
                    assert(data@.subrange(k * area, k * area + area) =~= heads@[k].data@);
                }
            }
        }
        h += 1;
    }
    let r = NdArray { shape: vstd::slice::slice_to_vec(q.shape.as_slice()), data };
    proof {
        tensor::lemma_volume4(q.shape@);
        assert(b * hq * q_len * d == b * hq * area) by (nonlinear_arith)
            requires
                area == q_len * d,
        ;
        assert forall|bi: int, qh: int, i: int|
            0 <= bi < b && 0 <= qh < hq && 0 <= i < q_len implies #[trigger] r.row4(bi, qh, i)
            == head_row(
            q,
            (
                kcs@[cache_of(bi, qh, hq as int, hkv as int)]@,
                kcs@[cache_of(bi, qh, hq as int, hkv as int)].bits,
            ),
            (
                vcs@[cache_of(bi, qh, hq as int, hkv as int)]@,
                vcs@[cache_of(bi, qh, hq as int, hkv as int)].bits,
            ),
            bi,
            qh,
            i,
            kv_len,
            scale,
            tables(table),
            causal,
        ) by {
            let k = bi * hq + qh;
            tensor::lemma_cell_in_bounds(bi, qh, b as int, hq as int);
            assert(tasks@[bi * hq + qh] == (bi as usize, qh as usize));
            let head = heads@[k];
            assert(call_ensures(compute, (&tasks@[k],), heads@[k]));
            tensor::lemma_row_len(&head, i);
            assert(data@.subrange(k * area, k * area + area) == head.data@);
            assert((k * q_len + i) * d == k * area + i * d) by (nonlinear_arith)
                requires
                    area == q_len * d,
            ;
            assert((k + 1) * area <= (b * hq) * area) by (nonlinear_arith)
                requires
                    k + 1 <= b * hq,
                    area >= 0,
            ;
            assert((k + 1) * area == k * area + area) by (nonlinear_arith);
            assert(0 <= k * area) by (nonlinear_arith)
                requires
                    0 <= k,
                    area >= 0,
            ;
            assert(r.row4(bi, qh, i) =~= head.row(i));
        }
    }
    r
}

/// A query head's cache is among those of its batch.
pub proof fn lemma_group(bi: int, qh: int, b: int, hq: int, hkv: int)
    requires
        0 <= bi < b,
        0 <= qh < hq,
        0 < hkv,
        hq % hkv == 0,
    ensures
        hq / hkv > 0,
        0 <= qh / (hq / hkv) < hkv,
        0 <= bi * hkv,
        cache_of(bi, qh, hq, hkv) + 1 <= b * hkv,
{
    let g = hq / hkv;
    vstd::arithmetic::div_mod::lemma_fundamental_div_mod(hq, hkv);
    assert(g > 0) by (nonlinear_arith)
        requires
            hq == hkv * g,
            hq > 0,
            hkv > 0,
    ;
    vstd::arithmetic::div_mod::lemma_fundamental_div_mod(qh, g);
    let k = qh / g;
    assert(0 <= k) by (nonlinear_arith)
        requires
            0 <= qh,
            qh == g * k + qh % g,
            0 <= qh % g < g,
    ;
    assert(k < hkv) by (nonlinear_arith)
        requires
            qh < hkv * g,
            qh == g * k + qh % g,
            0 <= qh % g,
            g > 0,
    ;
    tensor::lemma_cell_in_bounds(bi, k, b, hkv);
}

/// Appends the elements of a slice.
pub(crate) fn append_all<T: Copy>(data: &mut Vec<T>, more: &[T])
    ensures
        final(data)@ == old(data)@ + more@,
{
    let mut i: usize = 0;
    while i < more.len()
        invariant
            i <= more@.len(),
            data@ == old(data)@ + more@.take(i as int),
        decreases more@.len() - i,
    {
        data.push(more[i]);
        i += 1;
        assert(more@.take(i as int) =~= more@.take(i - 1).push(more@[i - 1]));
    }
    assert(more@.take(i as int) =~= more@);
}

/// A query row takes no notice of keys past its horizon: two sets of keys that
/// agree up to it give the row one and the same result.
pub proof fn law_later_keys_are_ignored<T: Scalar>(
    q: Seq<T>,
    keys: Seq<Seq<T>>,
    others: Seq<Seq<T>>,
    values: Seq<Seq<T>>,
    scale: T,
    last: int,
)
    requires
        keys.len() == others.len(),
        forall|t: int| 0 <= t <= last && t < keys.len() ==> #[trigger] keys[t] == others[t],
    ensures
        attention_row(q, keys, values, scale, Some(last)) == attention_row(
            q,
            others,
            values,
            scale,
            Some(last),
        ),
{
    lemma_later_keys(q, keys, others, values, scale, last, math::ceil_div(keys.len(), 32));
}

proof fn lemma_later_keys<T: Scalar>(
    q: Seq<T>,
    keys: Seq<Seq<T>>,
    others: Seq<Seq<T>>,
    values: Seq<Seq<T>>,
    scale: T,
    last: int,
    n: nat,
)
    requires
        keys.len() == others.len(),
        forall|t: int| 0 <= t <= last && t < keys.len() ==> #[trigger] keys[t] == others[t],
        n <= math::ceil_div(keys.len(), 32),
    ensures
        attended(q, keys, values, scale, Some(last), n) == attended(
            q,
            others,
            values,
            scale,
            Some(last),
            n,
        ),
    decreases n,
{
    if n > 0 {
        let i = n - 1;
        lemma_later_keys(q, keys, others, values, scale, last, i as nat);
        math::lemma_ceil_div(keys.len(), 32);
        assert(scores(q, tile(keys, i), i * 32, scale, Some(last)) =~= scores(
            q,
            tile(others, i),
            i * 32,
            scale,
            Some(last),
        ));
    }
}

/// A causal row that stands at the end of the cache sees every key, just as
/// one without a mask does.
pub proof fn law_last_row_sees_all<T: Scalar>(
    q: Seq<T>,
    keys: Seq<Seq<T>>,
    values: Seq<Seq<T>>,
    scale: T,
    q_len: int,
)
    requires
        q_len >= 1,
    ensures
        attention_row(q, keys, values, scale, horizon(true, keys.len() as int, q_len, q_len - 1))
            == attention_row(q, keys, values, scale, None),
{
    lemma_unmasked(q, keys, values, scale, math::ceil_div(keys.len(), 32));
}

proof fn lemma_unmasked<T: Scalar>(
    q: Seq<T>,
    keys: Seq<Seq<T>>,
    values: Seq<Seq<T>>,
    scale: T,
    n: nat,
)
    requires
        n <= math::ceil_div(keys.len(), 32),
    ensures
        attended(q, keys, values, scale, Some(keys.len() - 1), n) == attended(
            q,
            keys,
            values,
            scale,
            None,
            n,
        ),
    decreases n,
{
    if n > 0 {
        let i = n - 1;
        lemma_unmasked(q, keys, values, scale, i as nat);
        math::lemma_ceil_div(keys.len(), 32);
        assert(scores(q, tile(keys, i), i * 32, scale, Some(keys.len() - 1)) =~= scores(
            q,
            tile(keys, i),
            i * 32,
            scale,
            None,
        ));
    }
}

} // verus!
