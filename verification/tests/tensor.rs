use ternary_rs::float_bits::{order_key, single_from_half};
use ternary_rs::numeric::Real;
use ternary_rs::tensor::{ActivationTensor, FloatTensor, Ternary, TernaryTensor};

#[derive(Clone, Copy, Debug, PartialEq)]
struct F(f32);

impl Real for F {
    fn zero() -> Self {
        F(0.0)
    }

    fn one() -> Self {
        F(1.0)
    }

    fn lowest() -> Self {
        F(f32::NEG_INFINITY)
    }

    fn from_i32(n: i32) -> Self {
        F(n as f32)
    }

    fn from_usize(n: usize) -> Self {
        F(n as f32)
    }

    fn from_half(bits: u16) -> Self {
        F(f32::from_bits(single_from_half(bits)))
    }

    fn plus(self, other: Self) -> Self {
        F(self.0 + other.0)
    }

    fn minus(self, other: Self) -> Self {
        F(self.0 - other.0)
    }

    fn times(self, other: Self) -> Self {
        F(self.0 * other.0)
    }

    fn over(self, other: Self) -> Self {
        F(self.0 / other.0)
    }

    fn negate(self) -> Self {
        F(-self.0)
    }

    fn abs(self) -> Self {
        F(self.0.abs())
    }

    fn max(self, other: Self) -> Self {
        F(self.0.max(other.0))
    }

    fn sqrt(self) -> Self {
        F(self.0.sqrt())
    }

    fn exp(self) -> Self {
        F(self.0.exp())
    }

    fn sin(self) -> Self {
        F(self.0.sin())
    }

    fn cos(self) -> Self {
        F(self.0.cos())
    }

    fn power(self, exponent: Self) -> Self {
        F(self.0.powf(exponent.0))
    }

    fn round_to_i32(self) -> i32 {
        self.0.round() as i32
    }

    fn less(self, other: Self) -> bool {
        self.0 < other.0
    }

    fn at_most(self, other: Self) -> bool {
        self.0 <= other.0
    }

    fn order_key(self) -> i64 {
        order_key(self.0.to_bits()).unwrap()
    }
}

fn reals(xs: &[f32]) -> Vec<F> {
    xs.iter().map(|&x| F(x)).collect()
}

fn floats(xs: &[F]) -> Vec<f32> {
    xs.iter().map(|x| x.0).collect()
}

#[test]
fn ternary_value_roundtrip() {
    assert_eq!(Ternary::Neg.value(), -1);
    assert_eq!(Ternary::Zero.value(), 0);
    assert_eq!(Ternary::Pos.value(), 1);
}

#[test]
fn ternary_bits_roundtrip() {
    for t in [Ternary::Neg, Ternary::Zero, Ternary::Pos] {
        assert_eq!(Ternary::from_bits(t as u8), t);
    }
}

#[test]
fn pack_unpack_identity() {
    let values = vec![
        Ternary::Pos, Ternary::Neg, Ternary::Zero, Ternary::Pos,
        Ternary::Zero, Ternary::Neg, Ternary::Neg, Ternary::Pos,
    ];
    let tensor = TernaryTensor::pack(&values, 2, 4);

    // Verify dimensions.
    assert_eq!(tensor.rows(), 2);
    assert_eq!(tensor.cols(), 4);
    assert_eq!(tensor.packed_len(), 2); // 8 values / 4 per byte

    // Verify individual access.
    assert_eq!(tensor.get(0, 0), Ternary::Pos);
    assert_eq!(tensor.get(0, 1), Ternary::Neg);
    assert_eq!(tensor.get(0, 2), Ternary::Zero);
    assert_eq!(tensor.get(0, 3), Ternary::Pos);
    assert_eq!(tensor.get(1, 0), Ternary::Zero);
    assert_eq!(tensor.get(1, 1), Ternary::Neg);
    assert_eq!(tensor.get(1, 2), Ternary::Neg);
    assert_eq!(tensor.get(1, 3), Ternary::Pos);

    // Verify row unpack.
    assert_eq!(tensor.unpack_row(0), &values[0..4]);
    assert_eq!(tensor.unpack_row(1), &values[4..8]);
}

#[test]
fn pack_non_aligned_cols() {
    // 3 cols — not a multiple of 4, exercises padding logic.
    let values = vec![
        Ternary::Pos, Ternary::Neg, Ternary::Zero,
        Ternary::Neg, Ternary::Pos, Ternary::Pos,
    ];
    let tensor = TernaryTensor::pack(&values, 2, 3);
    assert_eq!(tensor.rows(), 2);
    assert_eq!(tensor.cols(), 3);

    assert_eq!(tensor.get(0, 0), Ternary::Pos);
    assert_eq!(tensor.get(0, 2), Ternary::Zero);
    assert_eq!(tensor.get(1, 0), Ternary::Neg);
    assert_eq!(tensor.get(1, 2), Ternary::Pos);
}

#[test]
fn zeros_are_zero() {
    let tensor = TernaryTensor::zeros(4, 8);
    for r in 0..4 {
        for c in 0..8 {
            assert_eq!(tensor.get(r, c), Ternary::Zero);
        }
    }
}

#[test]
fn set_value() {
    let mut tensor = TernaryTensor::zeros(2, 4);
    tensor.set(0, 1, Ternary::Pos);
    tensor.set(1, 3, Ternary::Neg);

    assert_eq!(tensor.get(0, 0), Ternary::Zero);
    assert_eq!(tensor.get(0, 1), Ternary::Pos);
    assert_eq!(tensor.get(1, 3), Ternary::Neg);
}

#[test]
fn row_bytes_aligned() {
    let values = vec![Ternary::Pos; 8];
    let tensor = TernaryTensor::pack(&values, 2, 4);
    let (bytes, start_offset, vals_in_last) = tensor.row_bytes(0);
    assert_eq!(bytes.len(), 1); // 4 values = 1 byte
    assert_eq!(start_offset, 0);
    assert_eq!(vals_in_last, 4);
}

#[test]
fn row_bytes_unaligned() {
    let values = vec![Ternary::Pos; 10];
    let tensor = TernaryTensor::pack(&values, 2, 5);
    let (bytes, start_offset, vals_in_last) = tensor.row_bytes(0);
    assert_eq!(bytes.len(), 2); // ceil(5/4) = 2 bytes
    assert_eq!(start_offset, 0); // first row always starts at 0
    assert_eq!(vals_in_last, 1); // 5 % 4 = 1

    // Row 1 starts at value 5 → byte 1, offset 1.
    let (bytes1, start_offset1, vals_in_last1) = tensor.row_bytes(1);
    assert_eq!(start_offset1, 1); // 5 % 4 = 1
    assert!(bytes1.len() >= 2); // spans 2 bytes
    assert_eq!(vals_in_last1, 2); // (5+5)%4 = 2
}

#[test]
fn from_packed_roundtrip() {
    let values = vec![Ternary::Pos, Ternary::Neg, Ternary::Zero, Ternary::Pos];
    let original = TernaryTensor::pack(&values, 1, 4);
    let restored = TernaryTensor::from_packed(original.packed_data().to_vec(), 1, 4);
    for c in 0..4 {
        assert_eq!(original.get(0, c), restored.get(0, c));
    }
}

#[test]
fn activation_quantize_dequantize() {
    let values = vec![1.0, -0.5, 0.0, 0.75, -1.0];
    let quant = ActivationTensor::quantize(&reals(&values), vec![5]);

    assert_eq!(quant.len(), 5);
    assert_eq!(quant.shape(), &[5]);

    // Dequantize and check within tolerance.
    let restored = floats(&quant.dequantize());
    for (orig, rest) in values.iter().zip(restored.iter()) {
        assert!((orig - rest).abs() < 0.02, "expected ~{orig}, got {rest}");
    }
}

#[test]
fn activation_zero_input() {
    let values = vec![0.0; 4];
    let quant = ActivationTensor::quantize(&reals(&values), vec![4]);
    let restored = floats(&quant.dequantize());
    for v in &restored {
        assert_eq!(*v, 0.0);
    }
}

#[test]
fn activation_scale_correctness() {
    let values = vec![127.0, -127.0];
    let quant = ActivationTensor::quantize(&reals(&values), vec![2]);
    // absmax = 127.0, scale = 127.0/127.0 = 1.0
    assert!((quant.scale().0 - 1.0).abs() < f32::EPSILON);
    assert_eq!(quant.data(), &[127i8, -127i8]);
}

#[test]
fn float_tensor_to_activation() {
    let ft = FloatTensor::new(reals(&[0.5, -0.3, 0.0, 1.0]), vec![2, 2]);
    let act = ft.to_activation();
    assert_eq!(act.shape(), &[2, 2]);
    assert_eq!(act.len(), 4);
}

// 16× compression ratio test.
#[test]
fn compression_ratio() {
    let n = 1024;
    let f32_bytes = n * 4;
    let ternary_bytes = (n + 3) / 4;
    let ratio = f32_bytes as f64 / ternary_bytes as f64;
    assert!((ratio - 16.0).abs() < 0.1, "expected ~16× compression, got {ratio}×");
}
