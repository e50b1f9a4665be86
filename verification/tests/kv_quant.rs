use infer_kernels::attention::{attend_one_head_quant, flash_attention_quant};
use infer_kernels::concat::TypedConcat;
use infer_kernels::kv_cache::{zeros, BlockQuantKeyCache, QuantKeyCache, QuantValueCache};
use infer_kernels::kv_sdpa::{QuantizedKvSdpa, SdpaError};
use infer_kernels::packing::{
    dequant_int4_perchannel, dequant_int4_pertoken, dequant_row_perchannel, dequant_row_pertoken,
    pack_codes, unpack_code, CodeRows,
};
use infer_kernels::quant::{
    decode, level_of, levels, quant_codes, quant_dequant, range_of, restore, row_bytes, step_of,
};
use infer_kernels::rope::{apply_rope_tile, reduce_cos_sin, RopeError};
use infer_kernels::scalar::Scalar;
use infer_kernels::tensor::{Matrix, NdArray};

/// Nibbles are read sixteen at a time, with one rounding each.
const VECTORIZED: bool = true;

/// Single precision, with the machine's operations.
#[derive(Clone, Copy, Debug, PartialEq)]
struct F(f32);

impl Scalar for F {
    fn zero() -> F {
        F(0.0)
    }
    fn one() -> F {
        F(1.0)
    }
    fn infinity() -> F {
        F(f32::INFINITY)
    }
    fn neg_infinity() -> F {
        F(f32::NEG_INFINITY)
    }
    fn of_count(n: usize) -> F {
        F(n as f32)
    }
    fn plus(self, other: F) -> F {
        F(self.0 + other.0)
    }
    fn minus(self, other: F) -> F {
        F(self.0 - other.0)
    }
    fn times(self, other: F) -> F {
        F(self.0 * other.0)
    }
    fn over(self, other: F) -> F {
        F(self.0 / other.0)
    }
    fn larger(self, other: F) -> F {
        F(self.0.max(other.0))
    }
    fn smaller(self, other: F) -> F {
        F(self.0.min(other.0))
    }
    fn clamped(self, low: F, high: F) -> F {
        F(self.0.clamp(low.0, high.0))
    }
    fn fused(self, by: F, onto: F) -> F {
        F(self.0.mul_add(by.0, onto.0))
    }
    fn negated(self) -> F {
        F(-self.0)
    }
    fn rounded(self) -> F {
        F(self.0.round())
    }
    fn exponential(self) -> F {
        F(self.0.exp())
    }
    fn reciprocal(self) -> F {
        F(self.0.recip())
    }
    fn square_root(self) -> F {
        F(self.0.sqrt())
    }
    fn below(self, other: F) -> bool {
        self.0 < other.0
    }
    fn equal(self, other: F) -> bool {
        self.0 == other.0
    }
    fn finite(self) -> bool {
        self.0.is_finite()
    }
    fn to_code(self) -> u8 {
        self.0 as u8
    }
    fn to_bits(self) -> u32 {
        self.0.to_bits()
    }
    fn vectorized() -> bool {
        VECTORIZED
    }
    fn dot(xs: &[F], ys: &[F]) -> F {
        F(xs.iter().zip(ys).map(|(x, y)| x.0 * y.0).sum())
    }
    fn total(xs: &[F]) -> F {
        F(xs.iter().map(|x| x.0).sum())
    }
}

fn wrap(xs: &[f32]) -> Vec<F> {
    xs.iter().map(|&x| F(x)).collect()
}

fn matrix(rows: &[&[f32]]) -> Matrix<F> {
    Matrix {
        rows: rows.len(),
        cols: rows[0].len(),
        data: rows.iter().flat_map(|r| wrap(r)).collect(),
    }
}

fn at(m: &Matrix<F>, i: usize, j: usize) -> f32 {
    m.data[i * m.cols + j].0
}

fn tensor(shape: &[usize], data: &[f32]) -> NdArray<F> {
    assert_eq!(shape.iter().product::<usize>(), data.len());
    NdArray { shape: shape.to_vec(), data: wrap(data) }
}

fn grow(acc: Option<NdArray<F>>, x: NdArray<F>) -> NdArray<F> {
    match acc {
        None => x,
        Some(a) => TypedConcat::new(2).eval(&[&a, &x]).unwrap(),
    }
}

fn max_abs(a: &Matrix<F>, b: &Matrix<F>) -> f32 {
    a.data.iter().zip(&b.data).map(|(x, y)| (x.0 - y.0).abs()).fold(0.0, f32::max)
}

/// Every element within a tenth, or a twentieth of what is expected.
fn super_approximate(got: &[F], want: &[f32], what: &str) {
    assert_eq!(got.len(), want.len());
    for (g, w) in got.iter().zip(want) {
        assert!((g.0 - w).abs() <= 0.1 + 0.05 * w.abs(), "{what}: got {} for {w}", g.0);
    }
}

/// Attention of one query over the rows of `k` and `v`.
fn attention(q: &[f32], k: &[Vec<f32>], v: &[Vec<f32>], scale: f32) -> Vec<f32> {
    let mut sc: Vec<f32> =
        k.iter().map(|r| q.iter().zip(r).map(|(a, b)| a * b).sum::<f32>() * scale).collect();
    let m = sc.iter().cloned().fold(f32::MIN, f32::max);
    let mut sum = 0.0;
    sc.iter_mut().for_each(|x| {
        *x = (*x - m).exp();
        sum += *x;
    });
    (0..v[0].len()).map(|e| (0..k.len()).map(|j| sc[j] / sum * v[j][e]).sum()).collect()
}

fn rows_of(m: &Matrix<F>) -> Vec<Vec<f32>> {
    (0..m.rows).map(|i| (0..m.cols).map(|j| at(m, i, j)).collect()).collect()
}

/// The rows of head `h` of the first batch.
fn head_of(x: &NdArray<F>, h: usize) -> Vec<Vec<f32>> {
    let (s, d) = (x.shape[2], x.shape[3]);
    (0..s).map(|t| (0..d).map(|e| x.data[(h * s + t) * d + e].0).collect()).collect()
}

fn deviation(got: &[f32], want: &[f32]) -> f32 {
    let num: f32 = got.iter().zip(want).map(|(a, b)| (a - b).powi(2)).sum::<f32>().sqrt();
    let den: f32 = want.iter().map(|x| x * x).sum::<f32>().sqrt();
    num / den.max(1e-9)
}

// Reconstruction error shrinks as bits grow; 16-bit is ~exact.
#[test]
fn error_decreases_with_bits() {
    let x = matrix(&[&[0.0, 1.0, 2.0, 3.0], &[-1.0, 0.5, 4.0, 9.0], &[2.0, 2.0, 2.0, 2.1]]);
    let e4 = max_abs(&x, &quant_dequant(&x, 4, false));
    let e8 = max_abs(&x, &quant_dequant(&x, 8, false));
    let e16 = max_abs(&x, &quant_dequant(&x, 16, false));
    assert!(e8 < e4, "more bits => less error ({e8} !< {e4})");
    assert!(e16 < e8, "16-bit tighter than 8-bit ({e16} !< {e8})");
    assert!(e16 < 1e-3, "16-bit near-exact, got {e16}");
    // per-element error within half a quantization step of each column's range
    let levels = (1u32 << 8) - 1;
    for j in 0..x.cols {
        let col: Vec<f32> = (0..x.rows).map(|i| at(&x, i, j)).collect();
        let (lo, hi) = (
            col.iter().copied().fold(f32::INFINITY, f32::min),
            col.iter().copied().fold(f32::NEG_INFINITY, f32::max),
        );
        let step = if hi > lo { (hi - lo) / levels as f32 } else { 0.0 };
        let q = quant_dequant(&x, 8, false);
        for i in 0..x.rows {
            assert!((at(&x, i, j) - at(&q, i, j)).abs() <= step / 2.0 + 1e-6);
        }
    }
}

// With an outlier channel, a range per column isolates it and stays accurate,
// while a range per row lumps it with the small channels and crushes them.
#[test]
fn per_channel_beats_per_row_on_outlier_channel() {
    let x = matrix(&[
        &[100.0, 0.10, -0.20, 0.05],
        &[-90.0, 0.02, 0.30, -0.08],
        &[120.0, -0.15, 0.10, 0.20],
        &[-110.0, 0.07, -0.05, 0.12],
    ]);
    let small_err = |q: &Matrix<F>| -> f32 {
        (1..4)
            .flat_map(|j| (0..4).map(move |i| (i, j)))
            .map(|(i, j)| (at(&x, i, j) - at(q, i, j)).abs())
            .fold(0.0, f32::max)
    };
    let pc = small_err(&quant_dequant(&x, 4, false)); // per-channel (by column)
    let pt = small_err(&quant_dequant(&x, 4, true)); // per-token (by row)
    assert!(pc < pt * 0.2, "per-channel is better on the small dims: pc={pc} pt={pt}");
}

// 8-bit KV is near-lossless for attention output; quality improves with bits.
#[test]
fn attention_near_lossless_at_8bit() {
    let (s, d) = (12usize, 16usize);
    let mk = |seed: u64| -> Matrix<F> {
        let mut st = seed;
        let data: Vec<F> = (0..s * d)
            .map(|_| {
                st = st.wrapping_mul(6364136223846793005).wrapping_add(1);
                F(((st >> 40) as f32 / (1u64 << 24) as f32) - 0.5)
            })
            .collect();
        Matrix { rows: s, cols: d, data }
    };
    let q = rows_of(&mk(1)).remove(0);
    let k = mk(2);
    let v = mk(3);
    let scale = 1.0 / (d as f32).sqrt();
    let full = attention(&q, &rows_of(&k), &rows_of(&v), scale);
    let dev = |bits: u32| -> f32 {
        let kq = quant_dequant(&k, bits, false);
        let vq = quant_dequant(&v, bits, true);
        deviation(&attention(&q, &rows_of(&kq), &rows_of(&vq), scale), &full)
    };
    let (d4, d8, d12) = (dev(4), dev(8), dev(12));
    assert!(d8 < d4 && d12 < d8, "deviation must shrink with bits: 4={d4} 8={d8} 12={d12}");
    assert!(d8 < 0.02, "8-bit KV near-lossless for attention, got {d8}");
}

// int4 round-trips through the packed caches and stays reasonable for attention.
#[test]
fn int4_cache_round_trip_and_attention() {
    let (s, d) = (24usize, 64usize);
    let mut st = 7u64;
    let mut next = || -> f32 {
        st = st.wrapping_mul(6364136223846793005).wrapping_add(1);
        ((st >> 40) as f32 / (1u64 << 24) as f32) - 0.5
    };
    let q: Vec<f32> = (0..d).map(|_| next()).collect();
    let mut kc: QuantKeyCache<F> = QuantKeyCache::with_bits(d, 4);
    let mut vc: QuantValueCache<F> = QuantValueCache::with_bits(d, 4);
    let mut kf = Vec::new();
    let mut vf = Vec::new();
    for _ in 0..s {
        let kr: Vec<f32> = (0..d).map(|_| next()).collect();
        let vr: Vec<f32> = (0..d).map(|_| next()).collect();
        kc.push_token(&wrap(&kr));
        vc.push_token(&wrap(&vr));
        kf.push(kr);
        vf.push(vr);
    }
    let kd = kc.dequant_all();
    assert_eq!((kd.rows, kd.cols), (s, d));
    let scale = (d as f32).recip().sqrt();
    let full = attention(&q, &kf, &vf, scale);
    let quant = attention(&q, &rows_of(&kc.dequant_all()), &rows_of(&vc.dequant_all()), scale);
    let rel = deviation(&quant, &full);
    println!("  int4 KV attention relative deviation: {rel:.4}");
    assert!(rel < 0.15, "int4 KV attention deviation should stay bounded, got {rel}");
}

// Reading nibbles sixteen at a time matches fused arithmetic bit for bit.
#[test]
fn neon_int4_matches_scalar_reference() {
    let d = 64usize;
    let codes: Vec<u8> = (0..d).map(|i| (i * 7 % 16) as u8).collect();
    let mut packed = Vec::new();
    pack_codes(&codes, 4, &mut packed);

    // per-token
    let (lo, scale) = (-0.37f32, 0.041f32);
    let mut got = vec![F(0.0); d];
    dequant_int4_pertoken(&packed, d, F(lo), F(scale), &mut got);
    for c in 0..d {
        let want = (codes[c] as f32).mul_add(scale, lo);
        assert_eq!(got[c].0.to_bits(), want.to_bits(), "pertoken mismatch at {c}");
    }

    // per-channel
    let ch_lo: Vec<f32> = (0..d).map(|c| -0.5 + 0.01 * c as f32).collect();
    let ch_sc: Vec<f32> = (0..d).map(|c| 0.02 + 0.001 * c as f32).collect();
    let mut got = vec![F(0.0); d];
    dequant_int4_perchannel(&packed, d, &wrap(&ch_lo), &wrap(&ch_sc), &mut got);
    for c in 0..d {
        let want = (codes[c] as f32).mul_add(ch_sc[c], ch_lo[c]);
        assert_eq!(got[c].0.to_bits(), want.to_bits(), "perchannel mismatch at {c}");
    }
}

// Block-wise per-channel keys stay consistent even when a channel's range grows
// late in the sequence.
#[test]
fn block_quant_key_consistent_over_growing_range() {
    let d = 16usize;
    let mut kc: BlockQuantKeyCache<F> = BlockQuantKeyCache::with_bits(d, 8);
    let mut rows = Vec::new();
    for t in 0..80usize {
        let row: Vec<f32> = (0..d)
            .map(|c| {
                if c == 0 {
                    t as f32 * 2.0
                } else {
                    (((t * 7 + c) as f32) * 0.013).sin() * 0.1
                }
            })
            .collect();
        kc.push_token(&wrap(&row));
        rows.push(row);
    }
    assert_eq!(kc.len(), 80);
    let deq = kc.dequant_all();
    let mut maxerr = 0f32;
    for t in 0..80 {
        for c in 0..d {
            maxerr = maxerr.max((at(&deq, t, c) - rows[t][c]).abs());
        }
    }
    assert!(maxerr < 1.0, "block-consistent int8 dequant, got {maxerr}");
    // The last sixteen tokens wait for their block to fill up and are exact.
    for t in 64..80 {
        for c in 0..d {
            assert_eq!(at(&deq, t, c), rows[t][c]);
        }
    }
}

#[test]
fn packed_u8_saves_memory_vs_f32() {
    let (t, d) = (512usize, 64usize);
    let mut kc: QuantKeyCache<F> = QuantKeyCache::new(d);
    let mut vc: QuantValueCache<F> = QuantValueCache::new(d);
    let mut rng = 42u64;
    let mut next = || -> F {
        rng = rng.wrapping_mul(6364136223846793005).wrapping_add(1442695040888963407);
        F(((rng >> 40) as f32 / (1u64 << 24) as f32) - 0.5)
    };
    for _ in 0..t {
        kc.push_token(&(0..d).map(|_| next()).collect::<Vec<_>>());
        vc.push_token(&(0..d).map(|_| next()).collect::<Vec<_>>());
    }
    let f32_bytes = t * d * 4 * 2; // K + V in f32
    let quant_bytes = kc.memory_bytes() + vc.memory_bytes();
    let ratio = f32_bytes as f32 / quant_bytes as f32;
    assert!(ratio > 3.0, "expected >3x memory saving, got {ratio:.2}x");
    println!("f32 bytes: {f32_bytes}, quantized: {quant_bytes}, ratio: {ratio:.2}x");
    // One byte per element, plus two numbers per channel for keys and per token
    // for values.
    assert_eq!(kc.memory_bytes(), t * d + 2 * 4 * d);
    assert_eq!(vc.memory_bytes(), t * d + 8 * t);
}

// Ten decode steps, each compared to attention in full precision over the
// growing cache.
#[test]
fn quantized_kv_sdpa_runs_in_model() {
    let (b, h, d) = (1usize, 2usize, 16usize);
    let scale = 1.0 / (d as f32).sqrt();
    let op: QuantizedKvSdpa<F> =
        QuantizedKvSdpa { axis: 2, scale: None, bits: 8, is_causal: false };
    let mut state = op.state();
    let mk = |base: f32| -> NdArray<F> {
        let data: Vec<f32> = (0..b * h * d).map(|i| base + (i as f32 * 0.013).sin()).collect();
        tensor(&[b, h, 1, d], &data)
    };
    let (mut kf, mut vf): (Option<NdArray<F>>, Option<NdArray<F>>) = (None, None);
    for t in 0..10 {
        let qi = mk(9.0 + t as f32 * 0.1);
        let ki = mk(1.0 + t as f32 * 0.07);
        let vi = mk(5.0 - t as f32 * 0.05);
        let o = state.eval(&[qi.clone(), ki.clone(), vi.clone()]).unwrap();
        let (k, v) = (grow(kf.take(), ki), grow(vf.take(), vi));
        let mut want = Vec::new();
        for hi in 0..h {
            let q = head_of(&qi, hi).remove(0);
            want.extend(attention(&q, &head_of(&k, hi), &head_of(&v, hi), scale));
        }
        assert_eq!(o.shape, vec![b, h, 1, d]);
        super_approximate(&o.data, &want, &format!("quantized decode too far from f32 at step {t}"));
        kf = Some(k);
        vf = Some(v);
    }
}

// Cached keys are not rotated; they are as they are read, by the tables that
// come in.
#[test]
fn quantized_kv_sdpa_rope_matches_reference() {
    let (b, h, d) = (1usize, 2usize, 16usize);
    let scale = 1.0 / (d as f32).sqrt();
    let op: QuantizedKvSdpa<F> =
        QuantizedKvSdpa { axis: 2, scale: None, bits: 8, is_causal: false };
    let mut state = op.state();
    let half = d / 2;
    let steps = 8usize;
    let mk = |base: f32| -> NdArray<F> {
        let data: Vec<f32> = (0..b * h * d).map(|i| base + (i as f32 * 0.017).sin()).collect();
        tensor(&[b, h, 1, d], &data)
    };
    let cossin = |seed: f32| -> Vec<f32> {
        (0..steps * d).map(|i| (seed + i as f32 * 0.011).cos() * 0.5).collect()
    };
    let (cost, sint) = (cossin(0.3), cossin(1.7));
    let (mut kf, mut vf): (Option<NdArray<F>>, Option<NdArray<F>>) = (None, None);
    for t in 0..steps {
        let ti = t + 1;
        let qi = mk(9.0 + t as f32 * 0.1);
        let ki = mk(1.0 + t as f32 * 0.07);
        let vi = mk(5.0 - t as f32 * 0.05);
        let cosi = tensor(&[ti, d], &cost[..ti * d]);
        let sini = tensor(&[ti, d], &sint[..ti * d]);
        let o = state.eval(&[qi.clone(), ki.clone(), vi.clone(), cosi, sini]).unwrap();
        let (k, v) = (grow(kf.take(), ki), grow(vf.take(), vi));
        let mut want = Vec::new();
        for hd in 0..h {
            let kr: Vec<Vec<f32>> = head_of(&k, hd)
                .iter()
                .enumerate()
                .map(|(p, orig)| {
                    (0..d)
                        .map(|j| {
                            let rh = if j < half { -orig[j + half] } else { orig[j - half] };
                            orig[j] * cost[p * d + j] + rh * sint[p * d + j]
                        })
                        .collect()
                })
                .collect();
            let q = head_of(&qi, hd).remove(0);
            want.extend(attention(&q, &kr, &head_of(&v, hd), scale));
        }
        super_approximate(&o.data, &want, &format!("rope decode mismatch at step {t}"));
        kf = Some(k);
        vf = Some(v);
    }
}

#[test]
fn codes_span_the_range_of_their_values() {
    // -1 to 14 in steps of one: the code is the value plus one.
    let v = wrap(&[-1.0, 14.0, 0.0, 6.4, 6.6]);
    let (codes, lo, scale) = quant_codes(&v, 4);
    assert_eq!(codes, vec![0, 15, 1, 7, 8]);
    assert_eq!((lo, scale), (F(-1.0), F(1.0)));
    assert_eq!(range_of(&v), (F(-1.0), F(14.0)));
    assert_eq!(range_of::<F>(&[]), (F(f32::INFINITY), F(f32::NEG_INFINITY)));
    assert_eq!(step_of(F(-1.0), F(14.0), levels(4)), F(1.0));
    assert_eq!(level_of(F(100.0), F(-1.0), F(1.0), F(15.0)), F(15.0));
    assert_eq!(level_of(F(-100.0), F(-1.0), F(1.0), F(15.0)), F(0.0));
    assert_eq!(restore(F(3.0), F(-1.0), F(2.0)), F(5.0));
    assert_eq!(decode(3, F(-1.0), F(2.0)), F(5.0));
    assert_eq!(levels::<F>(8), F(255.0));
    assert_eq!(levels::<F>(16), F(65535.0));
}

#[test]
fn equal_values_share_a_step_of_one() {
    let (codes, lo, scale) = quant_codes(&wrap(&[2.5, 2.5, 2.5]), 8);
    assert_eq!(codes, vec![0, 0, 0]);
    assert_eq!((lo, scale), (F(2.5), F(1.0)));
    let x = matrix(&[&[2.5, 2.5]]);
    assert_eq!(quant_dequant(&x, 3, true).data, x.data);
}

#[test]
fn packed_codes_read_back() {
    assert_eq!(row_bytes(6, 4), 3);
    assert_eq!(row_bytes(5, 4), 3);
    assert_eq!(row_bytes(6, 8), 6);
    let codes: Vec<u8> = vec![1, 15, 0, 7, 9, 2];
    let mut out = vec![99u8];
    pack_codes(&codes, 4, &mut out);
    // The earlier code is in the lower half of its byte.
    assert_eq!(out, vec![99, 0xF1, 0x70, 0x29]);
    for c in 0..6 {
        assert_eq!(unpack_code(&out[1..], 4, c), codes[c]);
    }
    let mut out = Vec::new();
    pack_codes(&codes, 8, &mut out);
    assert_eq!(out, codes);
    assert_eq!(unpack_code(&out, 8, 4), 9);
}

#[test]
fn rows_of_codes_are_kept_apart() {
    let mut rows = CodeRows::new(4, 4);
    rows.push(&[1, 2, 3, 4]);
    rows.push(&[5, 6, 7, 8]);
    assert_eq!(rows.len(), 2);
    assert_eq!(rows.byte_len(), 4);
    assert_eq!(rows.row(1), &[0x65, 0x87]);
    assert_eq!(rows.duplicate().row(0), &[0x21, 0x43]);
}

#[test]
fn the_tail_of_a_row_is_rounded_twice() {
    // Sixteen codes are fused; the seventeenth and eighteenth are not.
    let d = 18usize;
    let codes: Vec<u8> = (0..d).map(|i| (15 - i % 16) as u8).collect();
    let mut packed = Vec::new();
    pack_codes(&codes, 4, &mut packed);
    let (lo, scale) = (-0.37f32, 0.041f32);
    let mut got = vec![F(0.0); d];
    dequant_int4_pertoken(&packed, d, F(lo), F(scale), &mut got);
    for c in 0..d {
        let x = codes[c] as f32;
        let want = if c < 16 { x.mul_add(scale, lo) } else { lo + x * scale };
        assert_eq!(got[c].0.to_bits(), want.to_bits());
    }
}

#[test]
fn a_code_without_offset_and_with_step_one_is_itself() {
    let d = 20;
    let codes: Vec<u8> = (0..d as u8).map(|c| c % 16).collect();
    let mut packed = Vec::new();
    pack_codes(&codes, 4, &mut packed);
    let mut got = wrap(&[-1.0; 20]);
    dequant_int4_perchannel(&packed, d, &wrap(&[0.0; 20]), &wrap(&[1.0; 20]), &mut got);
    let want: Vec<F> = codes.iter().map(|&c| F(c as f32)).collect();
    assert_eq!(got, want);
}

#[test]
fn whole_bytes_are_rounded_twice() {
    let codes: Vec<u8> = vec![0, 3, 200, 255];
    let mut got = vec![F(0.0); 4];
    dequant_row_pertoken(&codes, 4, 8, F(-1.0), F(0.5), &mut got);
    assert_eq!(got, wrap(&[-1.0, 0.5, 99.0, 126.5]));
    let lo = wrap(&[0.0, 1.0, 2.0, 3.0]);
    let scale = wrap(&[1.0, 2.0, 0.5, 1.0]);
    dequant_row_perchannel(&codes, 4, 8, &lo, &scale, &mut got);
    assert_eq!(got, wrap(&[0.0, 7.0, 102.0, 258.0]));
}

#[test]
fn a_value_token_reads_back_alone() {
    let mut vc: QuantValueCache<F> = QuantValueCache::with_bits(2, 4);
    assert!(vc.is_empty());
    vc.push_token(&wrap(&[0.0, 15.0]));
    let first = vc.dequant_all();
    vc.push_token(&wrap(&[-300.0, 300.0]));
    assert_eq!(vc.len(), 2);
    assert!(!vc.is_empty());
    let both = vc.dequant_all();
    assert_eq!(both.data[..2], first.data[..]);
    assert_eq!(both.data, wrap(&[0.0, 15.0, -300.0, 300.0]));
    let mut tile: Matrix<F> = zeros(3, 2);
    vc.dequant_tile(1..2, &mut tile);
    assert_eq!(tile.data, wrap(&[-300.0, 300.0, 0.0, 0.0, 0.0, 0.0]));
}

#[test]
fn a_key_token_is_read_under_the_latest_range() {
    let mut kc: QuantKeyCache<F> = QuantKeyCache::with_bits(2, 8);
    assert!(kc.is_empty());
    kc.push_token(&wrap(&[1.0, 0.0]));
    // A channel of equal values has no range, and codes of zero.
    assert_eq!(kc.dequant_all().data, wrap(&[1.0, 0.0]));
    kc.push_token(&wrap(&[256.0, 0.0]));
    // The channel now spans 1 to 256 in steps of one; codes stay as they are.
    assert_eq!(kc.dequant_all().data, wrap(&[1.0, 0.0, 256.0, 0.0]));
    kc.push_token(&wrap(&[-254.0, 0.0]));
    // The offset moved, so the first codes are read as other numbers.
    assert_eq!(kc.dequant_all().data[0], F(-254.0));
    assert_eq!(kc.len(), 3);
    let mut tile: Matrix<F> = zeros(1, 2);
    kc.dequant_tile(2..3, &mut tile);
    assert_eq!(tile.data, wrap(&[-254.0, 0.0]));
    assert_eq!(kc.duplicate().dequant_all().data, kc.dequant_all().data);
}

#[test]
fn the_newest_key_is_within_half_a_step() {
    for bits in [4u32, 8] {
        let mut kc: QuantKeyCache<F> = QuantKeyCache::with_bits(2, bits);
        let (mut lo, mut hi) = ([f32::INFINITY; 2], [f32::NEG_INFINITY; 2]);
        // A channel of small numbers beside one of large ones.
        for (t, small) in [0.0f32, 0.4, 0.1, -0.3, 0.25, 0.39, -0.2].into_iter().enumerate() {
            let k = [small, 100.0 - 37.0 * t as f32];
            kc.push_token(&wrap(&k));
            let all = kc.dequant_all();
            assert_eq!(all.rows, t + 1);
            for c in 0..2 {
                lo[c] = lo[c].min(k[c]);
                hi[c] = hi[c].max(k[c]);
                let step = (hi[c] - lo[c]) / ((1u32 << bits) - 1) as f32;
                assert!((at(&all, t, c) - k[c]).abs() <= step / 2.0 + 1e-5);
            }
        }
    }
    // Two tokens of a narrow channel are told apart.
    let mut kc: QuantKeyCache<F> = QuantKeyCache::new(1);
    kc.push_token(&wrap(&[0.0]));
    kc.push_token(&wrap(&[0.4]));
    let both = kc.dequant_all();
    assert_eq!(at(&both, 0, 0), 0.0);
    assert!((at(&both, 1, 0) - 0.4).abs() < 1e-6);
}

#[test]
fn values_and_full_blocks_are_within_half_a_step() {
    let rows: Vec<Vec<f32>> = (0..32)
        .map(|t| (0..4).map(|c| ((t * 5 + c * 3) as f32 * 0.37).sin() * (c + 1) as f32).collect())
        .collect();
    let range = |v: &[f32]| {
        v.iter().copied().fold(f32::NEG_INFINITY, f32::max)
            - v.iter().copied().fold(f32::INFINITY, f32::min)
    };
    for bits in [4u32, 8] {
        let top = ((1u32 << bits) - 1) as f32;
        let mut vc: QuantValueCache<F> = QuantValueCache::with_bits(4, bits);
        let mut kc: BlockQuantKeyCache<F> = BlockQuantKeyCache::with_bits(4, bits);
        for row in &rows {
            vc.push_token(&wrap(row));
            kc.push_token(&wrap(row));
        }
        let (values, keys) = (vc.dequant_all(), kc.dequant_all());
        for c in 0..4 {
            let channel: Vec<f32> = rows.iter().map(|r| r[c]).collect();
            for (t, row) in rows.iter().enumerate() {
                let (v, k) = (at(&values, t, c) - row[c], at(&keys, t, c) - row[c]);
                assert!(v.abs() <= range(row) / top / 2.0 + 1e-5);
                assert!(k.abs() <= range(&channel) / top / 2.0 + 1e-5);
            }
        }
    }
}

#[test]
fn a_filled_block_is_frozen() {
    let mut kc: BlockQuantKeyCache<F> = BlockQuantKeyCache::with_bits(2, 8);
    assert!(kc.is_empty());
    for t in 0..31 {
        kc.push_token(&wrap(&[t as f32 * 0.1, 7.0]));
    }
    // Nothing is coded before the block is full.
    assert_eq!(at(&kc.dequant_all(), 3, 0), 3.0 * 0.1);
    assert_eq!(kc.memory_bytes(), 31 * 2 * 4);
    kc.push_token(&wrap(&[25.5, 7.0]));
    let block = kc.dequant_all();
    assert_eq!(kc.memory_bytes(), 32 * 2 + 2 * 2 * 4);
    assert_eq!(at(&block, 31, 0), 25.5);
    for t in 0..40 {
        kc.push_token(&wrap(&[t as f32 * -100.0, 0.0]));
    }
    assert_eq!(kc.len(), 72);
    assert_eq!(kc.dequant_all().data[..64], block.data[..]);
}

#[test]
fn a_tile_is_rotated_in_halves() {
    let mut k = matrix(&[&[1.0, 2.0, 3.0, 4.0], &[9.0, 9.0, 9.0, 9.0]]);
    let cos = matrix(&[&[0.0; 4], &[2.0, 2.0, 2.0, 2.0]]);
    let sin = matrix(&[&[0.0; 4], &[1.0, 1.0, 10.0, 10.0]]);
    apply_rope_tile(&mut k, 1, 1, &cos, &sin);
    assert_eq!(k.data, wrap(&[-1.0, 0.0, 16.0, 28.0, 9.0, 9.0, 9.0, 9.0]));
}

#[test]
fn tables_that_do_not_fit_are_refused() {
    let v = tensor(&[1, 1, 2, 2], &[1.0, 2.0, 3.0, 4.0]);
    assert_eq!(reduce_cos_sin(&v, 2, 2).unwrap().data, v.data);
    // Of more than one table the first counts.
    let two = tensor(&[2, 1, 2], &[1.0, 2.0, 3.0, 4.0]);
    assert_eq!(reduce_cos_sin(&two, 1, 2).unwrap().data, wrap(&[1.0, 2.0]));
    assert!(matches!(reduce_cos_sin(&v, 1, 2), Err(RopeError::Length)));
    assert!(matches!(reduce_cos_sin(&v, 3, 2), Err(RopeError::Length)));
    assert!(matches!(reduce_cos_sin(&v, 2, 4), Err(RopeError::Width)));
    assert!(matches!(reduce_cos_sin(&tensor(&[2], &[1.0, 2.0]), 1, 2), Err(RopeError::Rank)));
}

/// Caches of two heads with some tokens each.
fn two_heads(t: usize, d: usize) -> (Vec<QuantKeyCache<F>>, Vec<QuantValueCache<F>>) {
    let mut kcs = Vec::new();
    let mut vcs = Vec::new();
    for h in 0..2 {
        let mut kc = QuantKeyCache::with_bits(d, 8);
        let mut vc = QuantValueCache::with_bits(d, 8);
        for i in 0..t {
            let row = |shift: usize| -> Vec<F> {
                (0..d).map(|e| F(((h * 31 + i * 7 + e * 3 + shift) % 11) as f32 - 5.0)).collect()
            };
            kc.push_token(&row(0));
            vc.push_token(&row(4));
        }
        kcs.push(kc);
        vcs.push(vc);
    }
    (kcs, vcs)
}

#[test]
fn heads_are_attended_in_their_order() {
    let (t, d) = (40usize, 4usize);
    let (kcs, vcs) = two_heads(t, d);
    // Four query heads share two cached heads, two by two.
    let data: Vec<f32> = (0..4 * d).map(|i| (i as f32 * 0.7).sin()).collect();
    let q = tensor(&[1, 4, 1, d], &data);
    let o = flash_attention_quant(&q, &kcs, &vcs, 2, t, F(0.5), None, false);
    assert_eq!(o.shape, vec![1, 4, 1, d]);
    for qh in 0..4 {
        let kvh = qh / 2;
        let want = attention(
            &data[qh * d..(qh + 1) * d],
            &rows_of(&kcs[kvh].dequant_all()),
            &rows_of(&vcs[kvh].dequant_all()),
            0.5,
        );
        for e in 0..d {
            assert!((o.data[qh * d + e].0 - want[e]).abs() < 1e-4);
        }
        let alone =
            attend_one_head_quant(0, qh, kvh, &q, &kcs, &vcs, 2, t, F(0.5), None, false);
        assert_eq!(alone.data[..], o.data[qh * d..(qh + 1) * d]);
    }
}

#[test]
fn later_keys_are_ignored_where_masked() {
    let (t, d) = (6usize, 4usize);
    let (kcs, vcs) = two_heads(t, d);
    let data: Vec<f32> = (0..2 * 3 * d).map(|i| (i as f32 * 0.3).cos()).collect();
    let q = tensor(&[1, 2, 3, d], &data);
    let o = flash_attention_quant(&q, &kcs, &vcs, 2, t, F(1.0), None, true);
    for h in 0..2 {
        let k = rows_of(&kcs[h].dequant_all());
        let v = rows_of(&vcs[h].dequant_all());
        for i in 0..3 {
            // The last query sees all six keys, the first only four.
            let seen = t - 2 + i;
            let at = (h * 3 + i) * d;
            let want = attention(&data[at..at + d], &k[..seen], &v[..seen], 1.0);
            for e in 0..d {
                assert!((o.data[at + e].0 - want[e]).abs() < 1e-4);
            }
        }
    }
}

#[test]
fn inputs_that_do_not_fit_are_refused() {
    let op: QuantizedKvSdpa<F> =
        QuantizedKvSdpa { axis: 2, scale: Some(F(1.0)), bits: 8, is_causal: false };
    let mut state = op.state();
    let x = tensor(&[1, 1, 1, 2], &[1.0, 2.0]);
    let flat = tensor(&[2], &[1.0, 2.0]);
    assert!(matches!(state.eval(&[]), Err(SdpaError::InputCount)));
    assert!(matches!(
        state.eval(&[x.clone(), flat.clone(), x.clone()]),
        Err(SdpaError::Rank(1))
    ));
    assert_eq!(state.k_caches.len(), 0);
    let table = tensor(&[1, 2], &[1.0, 1.0]);
    let first = state.eval(&[x.clone(), x.clone(), x.clone(), table.clone(), table.clone()]);
    assert!(first.is_ok());
    // Two tokens are cached by now, and the tables have one row.
    let again = state.eval(&[x.clone(), x.clone(), x.clone(), table.clone(), table.clone()]);
    assert!(matches!(again, Err(SdpaError::Cos(RopeError::Length))));
    let long = tensor(&[3, 2], &[1.0; 6]);
    let sin = state.eval(&[x.clone(), x.clone(), x.clone(), long, table]);
    assert!(matches!(sin, Err(SdpaError::Sin(RopeError::Length))));
}

#[test]
fn feeding_in_parts_is_feeding_at_once() {
    let d = 4usize;
    let op: QuantizedKvSdpa<F> =
        QuantizedKvSdpa { axis: 2, scale: None, bits: 8, is_causal: false };
    let ks: Vec<f32> = (0..3 * d).map(|i| (i as f32 * 1.3).sin()).collect();
    let q = tensor(&[1, 1, 1, d], &ks[..d]);
    let mut parts = op.state();
    for t in 0..2 {
        let x = tensor(&[1, 1, 1, d], &ks[t * d..(t + 1) * d]);
        parts.eval(&[q.clone(), x.clone(), x]).unwrap();
    }
    // The last token goes to a state that was at rest.
    let mut parts = parts.freeze().unfreeze();
    let last = tensor(&[1, 1, 1, d], &ks[2 * d..]);
    let stepwise = parts.eval(&[q.clone(), last.clone(), last]).unwrap();
    let mut once = op.state();
    let all = tensor(&[1, 1, 3, d], &ks);
    let whole = once.eval(&[q, all.clone(), all]).unwrap();
    assert_eq!(stepwise.data, whole.data);
    assert_eq!(parts.k_caches[0].dequant_all().data, once.k_caches[0].dequant_all().data);
    assert_eq!(parts.v_caches[0].len(), 3);
}
