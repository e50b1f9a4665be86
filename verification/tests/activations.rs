use infer_kernels::activations::{
    Lane, WasmErf4Relaxed, WasmGelu4Relaxed, WasmSigmoid4Relaxed, WasmSilu4Relaxed,
    WasmTanh4Relaxed,
};

/// Single precision, with fused multiply-adds.
#[derive(Clone, Copy, Debug, PartialEq)]
struct F(f32);

impl Lane for F {
    fn of_decimal(mantissa: i64, exponent: i32) -> F {
        F(format!("{mantissa}e{exponent}").parse::<f32>().unwrap())
    }
    fn lane_min(self, other: F) -> F {
        F(self.0.min(other.0))
    }
    fn lane_max(self, other: F) -> F {
        F(self.0.max(other.0))
    }
    fn lane_add(self, other: F) -> F {
        F(self.0 + other.0)
    }
    fn lane_sub(self, other: F) -> F {
        F(self.0 - other.0)
    }
    fn lane_mul(self, other: F) -> F {
        F(self.0 * other.0)
    }
    fn lane_div(self, other: F) -> F {
        F(self.0 / other.0)
    }
    fn lane_abs(self) -> F {
        F(self.0.abs())
    }
    fn madd(self, by: F, onto: F) -> F {
        F(self.0.mul_add(by.0, onto.0))
    }
    fn sign_of(self) -> F {
        F(f32::from_bits(self.0.to_bits() & 0x8000_0000))
    }
    fn or_bits(self, other: F) -> F {
        F(f32::from_bits(self.0.to_bits() | other.0.to_bits()))
    }
}

/// From -18 to 18, a whole number of blocks.
fn samples() -> Vec<F> {
    (0..148).map(|i| F(((i % 37) as f32 - 18.0) * 0.97 + i as f32 * 0.001)).collect()
}

fn within(got: &[F], f: impl Fn(f64) -> f64, tolerance: f64) {
    for (y, x) in got.iter().zip(samples()) {
        let want = f(x.0 as f64);
        assert!((y.0 as f64 - want).abs() <= tolerance * (1.0 + want.abs()), "{x:?}: {y:?} for {want}");
    }
}

#[test]
fn sigmoid_is_close_and_saturates() {
    let mut buf = samples();
    WasmSigmoid4Relaxed::run(&mut buf);
    within(&buf, |x| 1.0 / (1.0 + (-x).exp()), 1e-5);
    let mut ends = vec![F(-40.0), F(-18.6), F(18.6), F(40.0)];
    WasmSigmoid4Relaxed::run(&mut ends);
    assert_eq!(ends[0], ends[1]);
    assert_eq!(ends[2], ends[3]);
    let mut zero = vec![F(0.0); 4];
    WasmSigmoid4Relaxed::run(&mut zero);
    assert_eq!(zero, vec![F(0.5); 4]);
}

#[test]
fn tanh_is_close_and_saturates() {
    let mut buf = samples();
    WasmTanh4Relaxed::run(&mut buf);
    within(&buf, f64::tanh, 1e-5);
    let mut ends = vec![F(-40.0), F(-8.9), F(8.9), F(40.0)];
    WasmTanh4Relaxed::run(&mut ends);
    assert_eq!(ends[0], ends[1]);
    assert_eq!(ends[2], ends[3]);
    let mut zero = vec![F(0.0); 4];
    WasmTanh4Relaxed::run(&mut zero);
    assert_eq!(zero, vec![F(0.0); 4]);
}

#[test]
fn tanh_is_odd() {
    let mut there = samples();
    let mut back: Vec<F> = samples().iter().map(|x| F(-x.0)).collect();
    WasmTanh4Relaxed::run(&mut there);
    WasmTanh4Relaxed::run(&mut back);
    for (a, b) in there.iter().zip(&back) {
        assert_eq!(a.0.to_bits(), (-b.0).to_bits());
    }
}

#[test]
fn silu_is_its_argument_times_the_sigmoid() {
    let mut buf = samples();
    WasmSilu4Relaxed::run(&mut buf);
    within(&buf, |x| x / (1.0 + (-x).exp()), 1e-5);
    let mut sigmoid = samples();
    WasmSigmoid4Relaxed::run(&mut sigmoid);
    for ((y, s), x) in buf.iter().zip(&sigmoid).zip(samples()) {
        if x.0 > -18.0 {
            assert_eq!(*y, F(x.0 * s.0));
        }
    }
    // Far below zero the argument stands still.
    let mut tail = vec![F(-100.0), F(-1000.0), F(-50.0), F(-60.0)];
    WasmSilu4Relaxed::run(&mut tail);
    assert!(tail.iter().all(|y| *y == tail[0]));
}

#[test]
fn gelu_is_the_tanh_form() {
    let mut buf = samples();
    WasmGelu4Relaxed::run(&mut buf);
    let c = (2.0 / std::f64::consts::PI).sqrt();
    within(&buf, |x| 0.5 * x * (1.0 + (c * (x + 0.044715 * x * x * x)).tanh()), 1e-5);
    let mut zero = vec![F(0.0); 4];
    WasmGelu4Relaxed::run(&mut zero);
    assert_eq!(zero, vec![F(0.0); 4]);
}

#[test]
fn erf_is_close_and_odd() {
    let mut ones = vec![F(0.5), F(-0.5), F(1.0), F(3.0)];
    WasmErf4Relaxed::run(&mut ones);
    for (y, want) in ones.iter().zip([0.5204999, -0.5204999, 0.8427008, 0.9999779]) {
        assert!((y.0 - want).abs() < 1e-6, "{y:?} for {want}");
    }
    let mut there = samples();
    let mut back: Vec<F> = samples().iter().map(|x| F(-x.0)).collect();
    WasmErf4Relaxed::run(&mut there);
    WasmErf4Relaxed::run(&mut back);
    for (a, b) in there.iter().zip(&back) {
        assert_eq!(a.0, -b.0);
    }
}

#[test]
fn kernels_work_on_blocks_of_four() {
    assert_eq!(WasmSigmoid4Relaxed::nr(), 4);
    assert_eq!(WasmTanh4Relaxed::alignment_items(), 4);
    assert_eq!(WasmSilu4Relaxed::alignment_bytes(), 16);
    assert_eq!(WasmGelu4Relaxed::nr(), 4);
    assert_eq!(WasmErf4Relaxed::alignment_bytes(), 16);
    assert_eq!(WasmErf4Relaxed::name(), "wasm_relaxed_simd");
    let mut none: Vec<F> = vec![];
    WasmErf4Relaxed::run(&mut none);
    assert!(none.is_empty());
}
