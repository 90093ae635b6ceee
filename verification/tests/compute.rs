use std::sync::Arc;
use std::time::Instant;
use ternary_rs::compute::avx2::{unpack_32_ternary_scalar, unpack_32_ternary_simd, Avx2Backend};
use ternary_rs::compute::half::dot_f16;
use ternary_rs::compute::scalar::ScalarBackend;
use ternary_rs::compute::select::{
    backend_by_name, detect, detect_cpu_only, fastest_of, probe_workload, BackendKind, CpuFeatures,
    Selection, TargetArch, PROBE_COLS, PROBE_ITERS, PROBE_ROWS,
};
use ternary_rs::compute::ComputeBackend;
use ternary_rs::float_bits::{order_key, single_from_half};
use ternary_rs::numeric::Real;
use ternary_rs::tensor::{Ternary, TernaryTensor};

#[derive(Clone, Copy, Debug, PartialEq)]
struct F(f32);

impl Real for F {
    fn zero() -> Self {
        F(0.0)
    }

    fn one() -> Self {
        F(1.0)
    }

    fn lowest() -> Self {
        F(f32::NEG_INFINITY)
    }

    fn from_i32(n: i32) -> Self {
        F(n as f32)
    }

    fn from_usize(n: usize) -> Self {
        F(n as f32)
    }

    fn from_half(bits: u16) -> Self {
        F(f32::from_bits(single_from_half(bits)))
    }

    fn plus(self, other: Self) -> Self {
        F(self.0 + other.0)
    }

    fn minus(self, other: Self) -> Self {
        F(self.0 - other.0)
    }

    fn times(self, other: Self) -> Self {
        F(self.0 * other.0)
    }

    fn over(self, other: Self) -> Self {
        F(self.0 / other.0)
    }

    fn negate(self) -> Self {
        F(-self.0)
    }

    fn abs(self) -> Self {
        F(self.0.abs())
    }

    fn max(self, other: Self) -> Self {
        F(self.0.max(other.0))
    }

    fn sqrt(self) -> Self {
        F(self.0.sqrt())
    }

    fn exp(self) -> Self {
        F(self.0.exp())
    }

    fn sin(self) -> Self {
        F(self.0.sin())
    }

    fn cos(self) -> Self {
        F(self.0.cos())
    }

    fn power(self, exponent: Self) -> Self {
        F(self.0.powf(exponent.0))
    }

    fn round_to_i32(self) -> i32 {
        self.0.round() as i32
    }

    fn less(self, other: Self) -> bool {
        self.0 < other.0
    }

    fn at_most(self, other: Self) -> bool {
        self.0 <= other.0
    }

    fn order_key(self) -> i64 {
        order_key(self.0.to_bits()).unwrap()
    }
}

fn reals(xs: &[f32]) -> Vec<F> {
    xs.iter().map(|&x| F(x)).collect()
}

fn floats(xs: &[F]) -> Vec<f32> {
    xs.iter().map(|x| x.0).collect()
}

fn weights_from_i8(values: &[i8], rows: usize, cols: usize) -> TernaryTensor {
    let ternary: Vec<Ternary> = values
        .iter()
        .map(|&v| match v {
            -1 => Ternary::Neg,
            0 => Ternary::Zero,
            1 => Ternary::Pos,
            _ => panic!("not ternary"),
        })
        .collect();
    TernaryTensor::pack(&ternary, rows, cols)
}

const ALL_FEATURES: CpuFeatures = CpuFeatures { avx2: true, avx512f: true, neon: false };
const NO_FEATURES: CpuFeatures = CpuFeatures { avx2: false, avx512f: false, neon: false };

#[test]
fn unpack_scalar_roundtrip() {
    let mut packed = [0u8; 8];
    // Byte 0: [-1, 0, +1, 0] = [0b00, 0b01, 0b10, 0b01] = 0b01_10_01_00
    packed[0] = 0b01_10_01_00;
    let signs = unpack_32_ternary_scalar(&packed);
    assert_eq!(signs[0], -1);
    assert_eq!(signs[1], 0);
    assert_eq!(signs[2], 1);
    assert_eq!(signs[3], 0);
    for i in 4..32 {
        assert_eq!(signs[i], -1, "slot {i} should be -1 for 0b00 encoding");
    }
}

#[test]
fn unpack_simd_matches_scalar() {
    // Test all 256 possible byte values in each position
    for test_byte in 0..=255u8 {
        let mut packed = [0u8; 8];
        packed[0] = test_byte;
        let scalar = unpack_32_ternary_scalar(&packed);
        let simd = unpack_32_ternary_simd(&packed);
        assert_eq!(&scalar[..4], &simd[..4],
            "mismatch for byte {test_byte:#04x}: scalar={:?} simd={:?}",
            &scalar[..4], &simd[..4]);
    }
    // Test with all 8 positions populated
    for pattern in [0x00u8, 0x55, 0xAA, 0xFF, 0x24, 0x93, 0xDB, 0x6E] {
        let packed = [pattern; 8];
        let scalar = unpack_32_ternary_scalar(&packed);
        let simd = unpack_32_ternary_simd(&packed);
        assert_eq!(scalar, simd, "mismatch for pattern {pattern:#04x}");
    }
}

#[test]
fn avx2_matches_scalar() {
    let backend_avx2 = Avx2Backend;
    let backend_scalar = ScalarBackend;

    // Test with various sizes including non-32-aligned.
    // Inputs lie in [-127, 127], as quantized activations do.
    for cols in [32, 64, 128, 100, 256, 2560] {
        let rows = 4;
        let n = rows * cols;
        let values: Vec<i8> = (0..n).map(|i| match i % 3 { 0 => -1, 1 => 0, _ => 1 }).collect();
        let w = weights_from_i8(&values, rows, cols);

        let input: Vec<i8> = (0..cols).map(|i| {
            let v = (i % 254) as i32 - 127; // range [-127, 126], avoids -128
            v as i8
        }).collect();

        let y_scalar = backend_scalar.ternary_matvec(&w, &input);
        let y_avx2 = backend_avx2.ternary_matvec(&w, &input);

        assert_eq!(y_scalar, y_avx2, "mismatch at cols={cols}");
    }
}

#[test]
fn avx2_identity_2x2() {
    // Pad to 32 columns (minimum SIMD width) — extra cols are zero-weight
    let mut values = vec![0i8; 2 * 32];
    values[0] = 1;  // (0,0) = +1
    values[33] = 1; // (1,1) = +1
    let w = weights_from_i8(&values, 2, 32);

    let mut input = vec![0i8; 32];
    input[0] = 42;
    input[1] = -17;

    let y = Avx2Backend.ternary_matvec(&w, &input);
    assert_eq!(y[0], 42);
    assert_eq!(y[1], -17);
}

#[test]
fn avx2_all_negative_weights() {
    let cols = 64;
    let values = vec![-1i8; cols];
    let w = weights_from_i8(&values, 1, cols);
    let input: Vec<i8> = (0..cols).map(|i| (i + 1) as i8).collect();

    let y = Avx2Backend.ternary_matvec(&w, &input);
    let expected: i32 = -(1..=cols as i32).sum::<i32>();
    assert_eq!(y[0], expected);
}

#[test]
fn avx2_real_model_dims() {
    // BitNet b1.58-2B: embed_dim=2560, intermediate=6912
    let cols = 2560;
    let rows = 8; // just a few rows to keep the test fast
    let n = rows * cols;
    let values: Vec<i8> = (0..n).map(|i| match i % 7 {
        0 | 1 | 2 => 1,
        3 | 4 => -1,
        _ => 0,
    }).collect();
    let w = weights_from_i8(&values, rows, cols);
    let input: Vec<i8> = (0..cols).map(|i| {
        let v = ((i * 7 + 3) % 254) as i32 - 127; // range [-127, 126]
        v.clamp(-127, 127) as i8
    }).collect();

    let y_scalar = ScalarBackend.ternary_matvec(&w, &input);
    let y_avx2 = Avx2Backend.ternary_matvec(&w, &input);
    assert_eq!(y_scalar, y_avx2);
}

fn backend_of(kind: BackendKind) -> Arc<dyn ComputeBackend> {
    match kind {
        BackendKind::Avx2 => Arc::new(Avx2Backend),
        _ => Arc::new(ScalarBackend),
    }
}

fn measured(backends: &[Arc<dyn ComputeBackend>]) -> Vec<u64> {
    let (weights, input) = probe_workload();
    backends
        .iter()
        .map(|b| {
            let start = Instant::now();
            for _ in 0..PROBE_ITERS {
                assert_eq!(b.ternary_matvec(&weights, &input).len(), PROBE_ROWS);
            }
            start.elapsed().as_nanos() as u64
        })
        .collect()
}

#[test]
fn detect_returns_backend() {
    let name = match detect(None, ALL_FEATURES, false) {
        Selection::Pinned(kind) => backend_of(kind).name().to_string(),
        Selection::Measure(kinds) => {
            let backends: Vec<Arc<dyn ComputeBackend>> =
                kinds.iter().map(|&k| backend_of(k)).collect();
            fastest_of(&kinds, &measured(&backends)).name().to_string()
        }
    };
    assert!(!name.is_empty());
}

#[test]
fn backend_by_name_returns_named_backend() {
    let backend = backend_by_name("scalar", NO_FEATURES, false).expect("scalar is always available");
    assert_eq!(backend.name(), "scalar");
}

#[test]
fn backend_by_name_rejects_unknown() {
    assert!(backend_by_name("definitely-not-a-backend", ALL_FEATURES, true).is_none());
}

#[test]
fn backend_by_name_is_case_insensitive() {
    let backend = backend_by_name("SCALAR", NO_FEATURES, false).expect("case should not matter");
    assert_eq!(backend.name(), "scalar");
}

#[test]
fn backend_by_name_trims_and_checks_availability() {
    assert_eq!(backend_by_name("  GPU\n", NO_FEATURES, true), Some(BackendKind::Wgpu));
    assert_eq!(backend_by_name("wgpu", NO_FEATURES, false), None);
    assert_eq!(backend_by_name("avx2", ALL_FEATURES, false), Some(BackendKind::Avx2));
    assert_eq!(backend_by_name("avx2", NO_FEATURES, false), None);
}

#[test]
fn fastest_of_single_candidate_returns_it() {
    let only = [BackendKind::Scalar];
    assert_eq!(fastest_of(&only, &[]).name(), "scalar");
}

#[test]
fn fastest_of_prefers_the_first_of_the_shortest() {
    let (scalar, avx2, wgpu) = (BackendKind::Scalar, BackendKind::Avx2, BackendKind::Wgpu);
    assert_eq!(fastest_of(&[], &[]), scalar);
    assert_eq!(fastest_of(&[wgpu], &[]), wgpu);
    assert_eq!(fastest_of(&[scalar, avx2, scalar, wgpu], &[7, 3, 9, 3]), avx2);
    assert_eq!(fastest_of(&[avx2, wgpu], &[5, 5]), avx2);
    assert_eq!(fastest_of(&[avx2, wgpu], &[5, 4]), wgpu);
}

#[test]
fn cpu_features_detect() {
    let f = CpuFeatures::detect(TargetArch::X86_64, true, false);
    println!("CPU features: avx2={}, avx512f={}, neon={}", f.avx2, f.avx512f, f.neon);
    assert_eq!(f, CpuFeatures { avx2: true, avx512f: false, neon: false });
    assert_eq!(
        CpuFeatures::detect(TargetArch::Aarch64, true, true),
        CpuFeatures { avx2: false, avx512f: false, neon: true }
    );
    assert_eq!(CpuFeatures::detect(TargetArch::Other, true, true), NO_FEATURES);
}

#[test]
fn pinned_backend_is_used_only_if_available() {
    assert!(matches!(detect(Some("Scalar"), ALL_FEATURES, true), Selection::Pinned(BackendKind::Scalar)));
    match detect(Some("avx2"), NO_FEATURES, true) {
        Selection::Measure(kinds) => assert_eq!(kinds, vec![BackendKind::Scalar, BackendKind::Wgpu]),
        _ => panic!("an unavailable backend was pinned"),
    }
    match detect(None, ALL_FEATURES, false) {
        Selection::Measure(kinds) => assert_eq!(kinds, vec![BackendKind::Avx2]),
        _ => panic!("nothing was pinned"),
    }
    assert_eq!(detect_cpu_only(ALL_FEATURES), BackendKind::Avx2);
    assert_eq!(detect_cpu_only(NO_FEATURES), BackendKind::Scalar);
}

#[test]
fn probe_workload_is_reproducible() {
    let (w, x) = probe_workload();
    assert_eq!((w.rows(), w.cols()), (PROBE_ROWS, PROBE_COLS));
    assert_eq!(x.len(), PROBE_COLS);
    assert_eq!((x[0], x[127], x[254], x[255]), (-127, 0, 127, -127));
    let mut state: u32 = 0x2545_F491;
    for i in 0..8 {
        state = state.wrapping_mul(1_664_525).wrapping_add(1_013_904_223);
        let expected = match (state >> 16) % 3 {
            0 => Ternary::Neg,
            1 => Ternary::Zero,
            _ => Ternary::Pos,
        };
        assert_eq!(w.get(0, i), expected);
    }
}

#[test]
fn default_rmsnorm() {
    let backend = ScalarBackend;
    let input = vec![1.0, 2.0, 3.0, 4.0];
    let weight = vec![1.0; 4];
    let result = floats(&backend.rmsnorm(&reals(&input), &reals(&weight), F(1e-6)));
    // rms = sqrt((1+4+9+16)/4) = sqrt(7.5) ≈ 2.7386
    let rms = (7.5f32 + 1e-6).sqrt();
    for (i, &v) in result.iter().enumerate() {
        let expected = input[i] / rms;
        assert!((v - expected).abs() < 1e-5, "rmsnorm[{i}]: expected {expected}, got {v}");
    }
}

#[test]
fn default_softmax() {
    let backend = ScalarBackend;
    let result = floats(&backend.softmax(&reals(&[1.0, 2.0, 3.0])));
    let sum: f32 = result.iter().sum();
    assert!((sum - 1.0).abs() < 1e-5);
    assert!(result[2] > result[1]);
    assert!(result[1] > result[0]);
}

#[test]
fn scalar_matvec_basic() {
    let backend = ScalarBackend;
    let w = weights_from_i8(&[1, -1, 0, 1], 1, 4);
    let x = vec![10i8, 20, 30, 40];
    let y = backend.ternary_matvec(&w, &x);
    assert_eq!(y, vec![30]); // 10 - 20 + 0 + 40
}

/// Naive reference: convert then multiply-accumulate in order.
fn reference_dot(a: &[f32], b: &[u16]) -> f32 {
    a.iter().zip(b).map(|(&x, &h)| x * f32::from_bits(single_from_half(h))).sum()
}

/// Deterministic f16 bit patterns, avoiding exp==31 (Inf/NaN).
fn half_values(n: usize) -> Vec<u16> {
    let mut state: u32 = 0x1234_5678;
    (0..n)
        .map(|_| {
            state = state.wrapping_mul(1_664_525).wrapping_add(1_013_904_223);
            let bits = (state >> 8) as u16;
            let exp = (bits >> 10) & 0x1F;
            if exp == 0x1F { bits & 0xE3FF } else { bits }
        })
        .collect()
}

#[test]
fn dot_f16_matches_reference_across_lengths() {
    // Lengths straddle the 8-wide SIMD boundary so the scalar tail is covered.
    for n in [1, 7, 8, 9, 15, 16, 31, 64, 2560] {
        let b = half_values(n);
        let a: Vec<f32> = (0..n).map(|i| ((i % 17) as f32 - 8.0) * 0.125).collect();

        let got = dot_f16(&reals(&a), &b).0;
        let want = reference_dot(&a, &b);

        let tol = 1e-3 * want.abs().max(1.0);
        assert!(
            (got - want).abs() <= tol,
            "n={n}: got {got}, want {want}"
        );
    }
}

#[test]
fn dot_f16_zero_length_is_zero() {
    assert_eq!(dot_f16::<F>(&[], &[]).0, 0.0);
}

#[test]
fn dot_f16_handles_negatives() {
    // -1.0 and +2.0 in f16 bits
    let b = vec![0xBC00u16, 0x4000u16];
    let a = vec![3.0f32, 5.0f32];
    assert!((dot_f16(&reals(&a), &b).0 - 7.0).abs() < 1e-5);
}

#[test]
fn fastest_of_prefers_avx2_over_scalar() {
    let candidates = [BackendKind::Scalar, BackendKind::Avx2];
    // The scalar kernel takes some ninety times as long.
    assert_eq!(fastest_of(&candidates, &[90_000, 1_000]).name(), "avx2");
}
