use ternary_rs::float_bits::{order_key, single_from_half};
use ternary_rs::numeric::Real;
use ternary_rs::ops::lut::{build_lut9, lut_matvec, PAIR_TO_LUT_INDEX};
use ternary_rs::ops::matmul::{ternary_matmul_batch, ternary_matvec, ternary_matvec_scaled};
use ternary_rs::ops::quantize::{
    absmax_scale, dequantize, dequantize_alloc, quantize_absmax, quantize_per_token,
};
use ternary_rs::tensor::{ActivationTensor, Ternary, TernaryTensor};

#[derive(Clone, Copy, Debug, PartialEq)]
struct F(f32);

impl Real for F {
    fn zero() -> Self {
        F(0.0)
    }

    fn one() -> Self {
        F(1.0)
    }

    fn lowest() -> Self {
        F(f32::NEG_INFINITY)
    }

    fn from_i32(n: i32) -> Self {
        F(n as f32)
    }

    fn from_usize(n: usize) -> Self {
        F(n as f32)
    }

    fn from_half(bits: u16) -> Self {
        F(f32::from_bits(single_from_half(bits)))
    }

    fn plus(self, other: Self) -> Self {
        F(self.0 + other.0)
    }

    fn minus(self, other: Self) -> Self {
        F(self.0 - other.0)
    }

    fn times(self, other: Self) -> Self {
        F(self.0 * other.0)
    }

    fn over(self, other: Self) -> Self {
        F(self.0 / other.0)
    }

    fn negate(self) -> Self {
        F(-self.0)
    }

    fn abs(self) -> Self {
        F(self.0.abs())
    }

    fn max(self, other: Self) -> Self {
        F(self.0.max(other.0))
    }

    fn sqrt(self) -> Self {
        F(self.0.sqrt())
    }

    fn exp(self) -> Self {
        F(self.0.exp())
    }

    fn sin(self) -> Self {
        F(self.0.sin())
    }

    fn cos(self) -> Self {
        F(self.0.cos())
    }

    fn power(self, exponent: Self) -> Self {
        F(self.0.powf(exponent.0))
    }

    fn round_to_i32(self) -> i32 {
        self.0.round() as i32
    }

    fn less(self, other: Self) -> bool {
        self.0 < other.0
    }

    fn at_most(self, other: Self) -> bool {
        self.0 <= other.0
    }

    fn order_key(self) -> i64 {
        order_key(self.0.to_bits()).unwrap()
    }
}

fn reals(xs: &[f32]) -> Vec<F> {
    xs.iter().map(|&x| F(x)).collect()
}

fn floats(xs: &[F]) -> Vec<f32> {
    xs.iter().map(|x| x.0).collect()
}

fn weights_from_i8(values: &[i8], rows: usize, cols: usize) -> TernaryTensor {
    let ternary: Vec<Ternary> = values
        .iter()
        .map(|&v| match v {
            -1 => Ternary::Neg,
            0 => Ternary::Zero,
            1 => Ternary::Pos,
            _ => panic!("not ternary"),
        })
        .collect();
    TernaryTensor::pack(&ternary, rows, cols)
}

#[test]
fn lut9_values() {
    let lut = build_lut9(10, 20);
    assert_eq!(lut[0], -30);  // (-1,-1): -10-20
    assert_eq!(lut[1], -10);  // (-1, 0): -10
    assert_eq!(lut[2],  10);  // (-1,+1): -10+20
    assert_eq!(lut[3], -20);  // ( 0,-1):    -20
    assert_eq!(lut[4],   0);  // ( 0, 0):      0
    assert_eq!(lut[5],  20);  // ( 0,+1):    +20
    assert_eq!(lut[6], -10);  // (+1,-1): +10-20
    assert_eq!(lut[7],  10);  // (+1, 0): +10
    assert_eq!(lut[8],  30);  // (+1,+1): +10+20
}

#[test]
fn pair_index_mapping() {
    // pair_bits = w0_bits | (w1_bits << 2)
    // LUT index = ternary_idx(w0)*3 + ternary_idx(w1)

    // w0=-1(0b00), w1=-1(0b00) → pair=0b0000=0, idx=0*3+0=0
    assert_eq!(PAIR_TO_LUT_INDEX[0b0000], 0);
    // w0=-1(0b00), w1=0(0b01) → pair=0b0100=4, idx=0*3+1=1
    assert_eq!(PAIR_TO_LUT_INDEX[0b0100], 1);
    // w0=+1(0b10), w1=+1(0b10) → pair=0b1010=10, idx=2*3+2=8
    assert_eq!(PAIR_TO_LUT_INDEX[0b1010], 8);
    // w0=0(0b01), w1=0(0b01) → pair=0b0101=5, idx=1*3+1=4
    assert_eq!(PAIR_TO_LUT_INDEX[0b0101], 4);
    // w0=+1(0b10), w1=-1(0b00) → pair=0b0010=2, idx=2*3+0=6
    assert_eq!(PAIR_TO_LUT_INDEX[0b0010], 6);
}

/// LUT kernel must produce identical results to I2S kernel.
#[test]
fn lut_matches_i2s_aligned() {
    let w = weights_from_i8(&[
         1, -1,  0,  1,
        -1,  0,  1, -1,
         0,  1, -1,  0,
    ], 3, 4);
    let x = vec![10i8, 20, 30, 40];

    let i2s_result = ternary_matvec(&w, &x);
    let lut_result = lut_matvec(&w, &x);
    assert_eq!(i2s_result, lut_result);
}

/// LUT kernel handles non-aligned column counts.
#[test]
fn lut_matches_i2s_unaligned() {
    let w = weights_from_i8(&[
        1, -1, 0, 1, -1,
    ], 1, 5);
    let x = vec![10i8, 20, 30, 40, 50];

    let i2s_result = ternary_matvec(&w, &x);
    let lut_result = lut_matvec(&w, &x);
    assert_eq!(i2s_result, lut_result);
}

#[test]
fn lut_matches_i2s_odd_cols() {
    // 3 columns — tests single-weight fallback.
    let w = weights_from_i8(&[1, -1, 1], 1, 3);
    let x = vec![5i8, 10, 15];

    let i2s_result = ternary_matvec(&w, &x);
    let lut_result = lut_matvec(&w, &x);
    assert_eq!(i2s_result, lut_result);
}

/// Exhaustive correctness: test all 9 weight-pair combos.
#[test]
fn lut_all_nine_combos() {
    let weights_pairs: [(i8, i8); 9] = [
        (-1, -1), (-1, 0), (-1, 1),
        ( 0, -1), ( 0, 0), ( 0, 1),
        ( 1, -1), ( 1, 0), ( 1, 1),
    ];

    for &(w0, w1) in &weights_pairs {
        let w = weights_from_i8(&[w0, w1], 1, 2);
        let x = vec![42i8, 17];

        let i2s = ternary_matvec(&w, &x);
        let lut = lut_matvec(&w, &x);
        assert_eq!(i2s, lut, "mismatch for weights ({w0}, {w1})");
    }
}

/// Multi-row LUT correctness.
#[test]
fn lut_multi_row() {
    let w = weights_from_i8(&[
         1,  0,  0,  0,
         0,  1,  0,  0,
        -1, -1, -1, -1,
    ], 3, 4);
    let x = vec![5i8, 10, 15, 20];

    let i2s_result = ternary_matvec(&w, &x);
    let lut_result = lut_matvec(&w, &x);
    assert_eq!(i2s_result, lut_result);
}

/// Large dimension — stress test.
#[test]
fn lut_large_dimension() {
    let cols = 512;
    let rows = 64;
    let w_vals: Vec<i8> = (0..rows * cols)
        .map(|i| match i % 3 { 0 => 1, 1 => -1, _ => 0 })
        .collect();
    let w = weights_from_i8(&w_vals, rows, cols);
    let x: Vec<i8> = (0..cols).map(|i| (i % 127) as i8).collect();

    let i2s_result = ternary_matvec(&w, &x);
    let lut_result = lut_matvec(&w, &x);
    assert_eq!(i2s_result, lut_result);
}

#[test]
fn identity_like_matvec() {
    // Weight matrix = [[1, 0], [0, 1]] (identity).
    let w = weights_from_i8(&[1, 0, 0, 1], 2, 2);
    let x = vec![42i8, -17i8];
    let y = ternary_matvec(&w, &x);
    assert_eq!(y, vec![42, -17]);
}

#[test]
fn matmul_negation_matvec() {
    // Weight matrix = [[-1, 0], [0, -1]] (negate).
    let w = weights_from_i8(&[-1, 0, 0, -1], 2, 2);
    let x = vec![42i8, -17i8];
    let y = ternary_matvec(&w, &x);
    assert_eq!(y, vec![-42, 17]);
}

#[test]
fn matmul_mixed_weights() {
    // W = [[1, -1, 0, 1]], x = [10, 20, 30, 40]
    // y = 10 - 20 + 0 + 40 = 30
    let w = weights_from_i8(&[1, -1, 0, 1], 1, 4);
    let x = vec![10i8, 20, 30, 40];
    let y = ternary_matvec(&w, &x);
    assert_eq!(y, vec![30]);
}

#[test]
fn all_zeros_weight() {
    let w = weights_from_i8(&[0, 0, 0, 0], 1, 4);
    let x = vec![100i8, -50, 25, -12];
    let y = ternary_matvec(&w, &x);
    assert_eq!(y, vec![0]);
}

#[test]
fn all_positive_weight() {
    // Sum all activations.
    let w = weights_from_i8(&[1, 1, 1, 1], 1, 4);
    let x = vec![10i8, 20, 30, 40];
    let y = ternary_matvec(&w, &x);
    assert_eq!(y, vec![100]);
}

#[test]
fn all_negative_weight() {
    // Negate and sum.
    let w = weights_from_i8(&[-1, -1, -1, -1], 1, 4);
    let x = vec![10i8, 20, 30, 40];
    let y = ternary_matvec(&w, &x);
    assert_eq!(y, vec![-100]);
}

#[test]
fn matmul_non_aligned_cols() {
    // 5 columns — not a multiple of 4.
    let w = weights_from_i8(&[1, -1, 1, 0, -1], 1, 5);
    let x = vec![10i8, 20, 30, 40, 50];
    // y = 10 - 20 + 30 + 0 - 50 = -30
    let y = ternary_matvec(&w, &x);
    assert_eq!(y, vec![-30]);
}

#[test]
fn matmul_multi_row() {
    // 3×4 weight matrix.
    let w = weights_from_i8(&[
         1,  0,  0,  0,  // row 0: select x[0]
         0,  1,  0,  0,  // row 1: select x[1]
        -1, -1, -1, -1,  // row 2: negate all
    ], 3, 4);
    let x = vec![5i8, 10, 15, 20];
    let y = ternary_matvec(&w, &x);
    assert_eq!(y, vec![5, 10, -50]);
}

#[test]
fn scaled_output() {
    let w = weights_from_i8(&[1, -1, 1, -1], 1, 4);
    let input_f32 = vec![1.0f32, 0.5, 0.25, 0.125];
    let act = ActivationTensor::quantize(&reals(&input_f32), vec![4]);
    let weight_scale = 0.1;

    let y = floats(&ternary_matvec_scaled(&w, &act, F(weight_scale)));
    // Expected: (1.0 - 0.5 + 0.25 - 0.125) * 0.1 = 0.0625
    assert_eq!(y.len(), 1);
    assert!((y[0] - 0.0625).abs() < 0.01, "expected ~0.0625, got {}", y[0]);
}

#[test]
fn batch_matvec() {
    let w = weights_from_i8(&[1, 1, -1, -1], 2, 2);
    let x1 = vec![10i8, 20];
    let x2 = vec![5i8, -5];
    let results = ternary_matmul_batch(&w, &[&x1, &x2]);
    assert_eq!(results.len(), 2);
    assert_eq!(results[0], vec![30, -30]);
    assert_eq!(results[1], vec![0, 0]);
}

// Verify no multiplication happens — the computation is purely additive.
#[test]
fn accumulator_range() {
    // With 8-bit activations in [-127, 127] and N columns,
    // the max accumulator value is 127 * N, which fits in i32.
    let n = 4096; // typical hidden dim
    let max_acc = 127i64 * n as i64;
    assert!(max_acc < i32::MAX as i64, "accumulator overflow at dim {n}");
}

#[test]
fn absmax_basic() {
    let vals = vec![1.0f32, -3.0, 2.5, 0.0];
    let scale = absmax_scale(&reals(&vals)).0;
    assert!((scale - 3.0 / 127.0).abs() < f32::EPSILON);
}

#[test]
fn absmax_all_zero() {
    let vals = vec![0.0f32; 8];
    let scale = absmax_scale(&reals(&vals)).0;
    assert_eq!(scale, 1.0);
}

#[test]
fn quantize_roundtrip() {
    let vals = vec![1.0f32, -0.5, 0.0, 0.75, -1.0];
    let (quant, F(scale)) = quantize_absmax(&reals(&vals));
    let restored = floats(&dequantize_alloc(&quant, F(scale)));

    for (orig, rest) in vals.iter().zip(restored.iter()) {
        assert!((orig - rest).abs() < 0.02, "expected ~{orig}, got {rest}");
    }
}

#[test]
fn quantize_boundary_values() {
    // Exactly ±127 should be preserved.
    let vals = vec![127.0f32, -127.0];
    let (quant, F(scale)) = quantize_absmax(&reals(&vals));
    assert!((scale - 1.0).abs() < f32::EPSILON);
    assert_eq!(quant, vec![127i8, -127i8]);
}

#[test]
fn quantize_clamping() {
    // With scale=1.0, values >127 should clamp.
    let vals = vec![200.0f32, -200.0];
    let (quant, _) = quantize_absmax(&reals(&vals));
    // absmax = 200, scale = 200/127 ≈ 1.575
    // 200/1.575 ≈ 127 → clamped to 127
    assert_eq!(quant[0], 127);
    assert_eq!(quant[1], -127);
}

#[test]
fn per_token_independence() {
    // Two tokens with different scales.
    let vals = vec![
        1.0, 0.5,       // token 0: absmax=1.0
        100.0, -50.0,   // token 1: absmax=100.0
    ];
    let (quant, scales) = quantize_per_token(&reals(&vals), 2);
    let scales = floats(&scales);
    assert_eq!(quant.len(), 4);
    assert_eq!(scales.len(), 2);

    // Token 0: scale = 1.0/127.0
    assert!((scales[0] - 1.0 / 127.0).abs() < 1e-6);
    // Token 1: scale = 100.0/127.0
    assert!((scales[1] - 100.0 / 127.0).abs() < 1e-4);

    // Verify max quantized values are ±127.
    assert_eq!(quant[0], 127);   // 1.0 → 127
    assert_eq!(quant[2], 127);   // 100.0 → 127
}

#[test]
fn dequantize_in_place() {
    let quant = vec![127i8, -64, 0, 32];
    let scale = 0.01;
    let mut out = reals(&[0.0f32; 4]);
    dequantize(&quant, F(scale), &mut out);
    let out = floats(&out);
    assert!((out[0] - 1.27).abs() < 1e-5);
    assert!((out[1] - -0.64).abs() < 1e-5);
    assert_eq!(out[2], 0.0);
    assert!((out[3] - 0.32).abs() < 1e-5);
}

#[test]
fn small_values_have_a_small_scale() {
    assert_eq!(absmax_scale(&reals(&[1e-8])).0, 1e-8 / 127.0);
    assert_eq!(absmax_scale(&reals(&[-2e-30, 1e-30])).0, 2e-30 / 127.0);
    assert_eq!(absmax_scale(&reals(&[0.0, 0.0])).0, 1.0);
}
