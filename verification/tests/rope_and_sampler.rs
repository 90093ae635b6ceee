use ternary_rs::float_bits::{order_key, single_from_half};
use ternary_rs::layers::rope::{RoPE, RoPELayout};
use ternary_rs::layers::sampler::{argmax, Sampler, SamplerConfig};
use ternary_rs::numeric::Real;
use ternary_rs::tensor::FloatTensor;

#[derive(Clone, Copy, Debug, PartialEq)]
struct F(f32);

impl Real for F {
    fn zero() -> Self {
        F(0.0)
    }

    fn one() -> Self {
        F(1.0)
    }

    fn lowest() -> Self {
        F(f32::NEG_INFINITY)
    }

    fn from_i32(n: i32) -> Self {
        F(n as f32)
    }

    fn from_usize(n: usize) -> Self {
        F(n as f32)
    }

    fn from_half(bits: u16) -> Self {
        F(f32::from_bits(single_from_half(bits)))
    }

    fn plus(self, other: Self) -> Self {
        F(self.0 + other.0)
    }

    fn minus(self, other: Self) -> Self {
        F(self.0 - other.0)
    }

    fn times(self, other: Self) -> Self {
        F(self.0 * other.0)
    }

    fn over(self, other: Self) -> Self {
        F(self.0 / other.0)
    }

    fn negate(self) -> Self {
        F(-self.0)
    }

    fn abs(self) -> Self {
        F(self.0.abs())
    }

    fn max(self, other: Self) -> Self {
        F(self.0.max(other.0))
    }

    fn sqrt(self) -> Self {
        F(self.0.sqrt())
    }

    fn exp(self) -> Self {
        F(self.0.exp())
    }

    fn sin(self) -> Self {
        F(self.0.sin())
    }

    fn cos(self) -> Self {
        F(self.0.cos())
    }

    fn power(self, exponent: Self) -> Self {
        F(self.0.powf(exponent.0))
    }

    fn round_to_i32(self) -> i32 {
        self.0.round() as i32
    }

    fn less(self, other: Self) -> bool {
        self.0 < other.0
    }

    fn at_most(self, other: Self) -> bool {
        self.0 <= other.0
    }

    fn order_key(self) -> i64 {
        order_key(self.0.to_bits()).unwrap()
    }
}

fn reals(xs: &[f32]) -> Vec<F> {
    xs.iter().map(|&x| F(x)).collect()
}

fn floats(xs: &[F]) -> Vec<f32> {
    xs.iter().map(|x| x.0).collect()
}

#[test]
fn rope_construction() {
    let rope = RoPE::new(64, F(10000.0));
    assert_eq!(rope.dim(), 64);
    assert_eq!(rope.inv_freq().len(), 32);
}

#[test]
fn inv_freq_values() {
    let rope = RoPE::new(4, F(10000.0));
    // θ_0 = 1 / (10000^(0/4)) = 1.0
    // θ_1 = 1 / (10000^(2/4)) = 1/100 = 0.01
    assert!((rope.inv_freq()[0].0 - 1.0).abs() < 1e-6);
    assert!((rope.inv_freq()[1].0 - 0.01).abs() < 1e-6);
}

#[test]
fn position_zero_is_identity() {
    // At position 0, all angles are 0, cos=1, sin=0 → no rotation.
    let rope = RoPE::new(4, F(10000.0));
    let input = vec![1.0, 2.0, 3.0, 4.0];
    let output = floats(&rope.forward(&reals(&input), 0));

    for (i, (&inp, &out)) in input.iter().zip(output.iter()).enumerate() {
        assert!(
            (inp - out).abs() < 1e-6,
            "pos 0 should be identity, idx {i}: {inp} vs {out}"
        );
    }
}

#[test]
fn rotation_preserves_magnitude() {
    // Rotation should preserve the L2 norm of each pair.
    let rope = RoPE::new(4, F(10000.0));
    let input = vec![3.0, 4.0, 1.0, 2.0];

    for pos in [1, 5, 50, 500] {
        let output = floats(&rope.forward(&reals(&input), pos));

        // Check pair magnitudes
        let mag_in_0 = (input[0] * input[0] + input[1] * input[1]).sqrt();
        let mag_out_0 = (output[0] * output[0] + output[1] * output[1]).sqrt();
        assert!(
            (mag_in_0 - mag_out_0).abs() < 1e-5,
            "pair 0 magnitude changed at pos {pos}"
        );

        let mag_in_1 = (input[2] * input[2] + input[3] * input[3]).sqrt();
        let mag_out_1 = (output[2] * output[2] + output[3] * output[3]).sqrt();
        assert!(
            (mag_in_1 - mag_out_1).abs() < 1e-5,
            "pair 1 magnitude changed at pos {pos}"
        );
    }
}

#[test]
fn known_rotation() {
    // dim=2, base=1.0 → θ_0 = 1.0, so angle at pos p = p radians.
    // At pos = π/2: cos=0, sin=1 → (x,y) → (-y, x)
    let rope = RoPE::new(2, F(1.0));
    let input = vec![1.0, 0.0];
    let output = floats(&rope.forward(&reals(&input), 0)); // pos=0, should be identity

    assert!((output[0] - 1.0).abs() < 1e-6);
    assert!((output[1] - 0.0).abs() < 1e-6);

    // Manually compute at a known angle
    let angle = 1.0f32; // pos=1, freq=1.0
    let expected_x = 1.0 * angle.cos() - 0.0 * angle.sin();
    let expected_y = 1.0 * angle.sin() + 0.0 * angle.cos();
    let output1 = floats(&rope.forward(&reals(&input), 1));
    assert!((output1[0] - expected_x).abs() < 1e-6);
    assert!((output1[1] - expected_y).abs() < 1e-6);
}

#[test]
fn quarter_turn() {
    // base=1.0, dim=2 → freq=1.0. At pos = π/2: (1,0) → (0,1)
    let rope = RoPE::new(2, F(1.0));
    let input = vec![1.0, 0.0];

    // We can't pass a float position, but we can construct the expected
    // result for integer position and verify the rotation formula.
    // pos=1 → angle=1 rad → cos(1)≈0.5403, sin(1)≈0.8415
    let out = floats(&rope.forward(&reals(&input), 1));
    assert!((out[0] - 1.0f32.cos()).abs() < 1e-6);
    assert!((out[1] - 1.0f32.sin()).abs() < 1e-6);
}

#[test]
fn different_positions_differ() {
    let rope = RoPE::new(8, F(10000.0));
    let input = vec![1.0; 8];

    let out0 = floats(&rope.forward(&reals(&input), 0));
    let out1 = floats(&rope.forward(&reals(&input), 1));
    let out100 = floats(&rope.forward(&reals(&input), 100));

    // Outputs at different positions must differ
    assert!(
        out0.iter().zip(out1.iter()).any(|(a, b)| (a - b).abs() > 1e-6),
        "pos 0 and pos 1 should differ"
    );
    assert!(
        out1.iter().zip(out100.iter()).any(|(a, b)| (a - b).abs() > 1e-6),
        "pos 1 and pos 100 should differ"
    );
}

#[test]
fn rope_forward_into_matches_forward() {
    let rope = RoPE::new(8, F(10000.0));
    let input = vec![1.0, -0.5, 0.3, 2.1, -1.0, 0.7, 0.0, 3.0];

    let allocated = floats(&rope.forward(&reals(&input), 42));
    let mut inplace = reals(&[0.0f32; 8]);
    rope.forward_into(&reals(&input), 42, &mut inplace);
    let inplace = floats(&inplace);

    for (a, b) in allocated.iter().zip(inplace.iter()) {
        assert!((a - b).abs() < 1e-7);
    }
}

#[test]
fn forward_tensor_works() {
    let rope = RoPE::new(4, F(10000.0));
    let input = FloatTensor::new(reals(&[1.0, 2.0, 3.0, 4.0]), vec![4]);
    let output = rope.forward_tensor(&input, 5);
    assert_eq!(output.shape(), &[4]);
    assert_eq!(output.len(), 4);

    // Should match the slice version
    let expected = floats(&rope.forward(&reals(&[1.0, 2.0, 3.0, 4.0]), 5));
    for (a, b) in floats(output.data()).iter().zip(expected.iter()) {
        assert!((a - b).abs() < 1e-7);
    }
}

#[test]
fn forward_heads() {
    let rope = RoPE::new(4, F(10000.0));
    // 2 heads, each dim=4
    let input = vec![1.0, 2.0, 3.0, 4.0, 5.0, 6.0, 7.0, 8.0];
    let output = floats(&rope.forward_heads(&reals(&input), 2, 10));

    // Each head rotated independently at same position
    let head0 = floats(&rope.forward(&reals(&input[0..4]), 10));
    let head1 = floats(&rope.forward(&reals(&input[4..8]), 10));

    for (a, b) in output[0..4].iter().zip(head0.iter()) {
        assert!((a - b).abs() < 1e-7);
    }
    for (a, b) in output[4..8].iter().zip(head1.iter()) {
        assert!((a - b).abs() < 1e-7);
    }
}

#[test]
fn forward_sequence() {
    let rope = RoPE::new(4, F(10000.0));
    // 3 positions starting at pos 5
    let input = vec![1.0; 12]; // 3 * 4
    let output = floats(&rope.forward_sequence(&reals(&input), 3, 5));
    assert_eq!(output.len(), 12);

    // Each position should be rotated at 5, 6, 7
    for t in 0..3 {
        let expected = floats(&rope.forward(&reals(&input[0..4]), 5 + t));
        let start = t * 4;
        for (a, b) in output[start..start + 4].iter().zip(expected.iter()) {
            assert!((a - b).abs() < 1e-7);
        }
    }
}

#[test]
fn relative_position_property() {
    // RoPE's key property: dot product between rotated vectors depends
    // on relative position, not absolute position.
    // q at pos p, k at pos p+d should have the same dot product
    // regardless of p.
    let rope = RoPE::new(8, F(10000.0));
    let q = vec![1.0, 0.5, -0.3, 0.8, 0.2, -0.7, 1.1, 0.4];
    let k = vec![0.3, -0.2, 0.6, 1.0, -0.5, 0.9, 0.1, -0.8];

    let delta = 7; // relative distance

    // Compute dot product at (pos=10, pos=10+delta)
    let q_rot_a = floats(&rope.forward(&reals(&q), 10));
    let k_rot_a = floats(&rope.forward(&reals(&k), 10 + delta));
    let dot_a: f32 = q_rot_a.iter().zip(k_rot_a.iter()).map(|(a, b)| a * b).sum();

    // Compute dot product at (pos=500, pos=500+delta)
    let q_rot_b = floats(&rope.forward(&reals(&q), 500));
    let k_rot_b = floats(&rope.forward(&reals(&k), 500 + delta));
    let dot_b: f32 = q_rot_b.iter().zip(k_rot_b.iter()).map(|(a, b)| a * b).sum();

    assert!(
        (dot_a - dot_b).abs() < 1e-3,
        "relative position property violated: {dot_a} vs {dot_b}"
    );
}

#[test]
fn higher_dims_rotate_slower() {
    // Higher dimension pairs should rotate more slowly (lower frequency).
    let rope = RoPE::new(8, F(10000.0));
    let input = vec![1.0, 0.0, 1.0, 0.0, 1.0, 0.0, 1.0, 0.0];

    let out = floats(&rope.forward(&reals(&input), 1));

    // Pair 0 rotates at freq θ_0, pair 3 at freq θ_3.
    // θ_0 > θ_1 > θ_2 > θ_3, so pair 0 should deviate more from (1,0).
    let deviation = |pair: usize| -> f32 {
        let x = out[2 * pair];
        let y = out[2 * pair + 1];
        // Distance from (1, 0)
        ((x - 1.0) * (x - 1.0) + y * y).sqrt()
    };

    assert!(
        deviation(0) > deviation(1),
        "pair 0 should rotate more than pair 1"
    );
    assert!(
        deviation(1) > deviation(2),
        "pair 1 should rotate more than pair 2"
    );
    assert!(
        deviation(2) > deviation(3),
        "pair 2 should rotate more than pair 3"
    );
}

#[test]
fn rope_debug_format() {
    let rope = RoPE::new(64, F(10000.0));
    let debug = rope.describe();
    assert!(debug.contains("RoPE"));
    assert!(debug.contains("dim=64"));
    assert!(debug.contains("n_freqs=32"));
}

#[test]
fn halved_position_zero_is_identity() {
    let rope = RoPE::with_layout(4, F(10000.0), RoPELayout::Halved);
    let input = vec![1.0, 2.0, 3.0, 4.0];
    let output = floats(&rope.forward(&reals(&input), 0));
    for (i, (&inp, &out)) in input.iter().zip(output.iter()).enumerate() {
        assert!(
            (inp - out).abs() < 1e-6,
            "halved pos 0 should be identity, idx {i}: {inp} vs {out}"
        );
    }
}

#[test]
fn halved_preserves_magnitude() {
    let rope = RoPE::with_layout(4, F(10000.0), RoPELayout::Halved);
    let input = vec![3.0, 4.0, 1.0, 2.0];
    for pos in [1, 5, 50, 500] {
        let output = floats(&rope.forward(&reals(&input), pos));
        // Pair (0,2) and pair (1,3) magnitudes should be preserved
        let mag_in_0 = (input[0] * input[0] + input[2] * input[2]).sqrt();
        let mag_out_0 = (output[0] * output[0] + output[2] * output[2]).sqrt();
        assert!(
            (mag_in_0 - mag_out_0).abs() < 1e-5,
            "halved pair (0,2) magnitude changed at pos {pos}"
        );
        let mag_in_1 = (input[1] * input[1] + input[3] * input[3]).sqrt();
        let mag_out_1 = (output[1] * output[1] + output[3] * output[3]).sqrt();
        assert!(
            (mag_in_1 - mag_out_1).abs() < 1e-5,
            "halved pair (1,3) magnitude changed at pos {pos}"
        );
    }
}

#[test]
fn halved_different_positions_differ() {
    let rope = RoPE::with_layout(8, F(10000.0), RoPELayout::Halved);
    let input = vec![1.0; 8];
    let out0 = floats(&rope.forward(&reals(&input), 0));
    let out1 = floats(&rope.forward(&reals(&input), 1));
    assert!(
        out0.iter().zip(out1.iter()).any(|(a, b)| (a - b).abs() > 1e-6),
        "halved: pos 0 and pos 1 should differ"
    );
}

#[test]
fn halved_relative_position_property() {
    let rope = RoPE::with_layout(8, F(10000.0), RoPELayout::Halved);
    let q = vec![1.0, 0.5, -0.3, 0.8, 0.2, -0.7, 1.1, 0.4];
    let k = vec![0.3, -0.2, 0.6, 1.0, -0.5, 0.9, 0.1, -0.8];
    let delta = 7;

    let q_rot_a = floats(&rope.forward(&reals(&q), 10));
    let k_rot_a = floats(&rope.forward(&reals(&k), 10 + delta));
    let dot_a: f32 = q_rot_a.iter().zip(k_rot_a.iter()).map(|(a, b)| a * b).sum();

    let q_rot_b = floats(&rope.forward(&reals(&q), 500));
    let k_rot_b = floats(&rope.forward(&reals(&k), 500 + delta));
    let dot_b: f32 = q_rot_b.iter().zip(k_rot_b.iter()).map(|(a, b)| a * b).sum();

    assert!(
        (dot_a - dot_b).abs() < 1e-3,
        "halved: relative position property violated: {dot_a} vs {dot_b}"
    );
}

#[test]
fn halved_vs_interleaved_differ() {
    // The two layouts should produce different results for the same input
    // (unless the input happens to have a special structure).
    let inter = RoPE::with_layout(8, F(10000.0), RoPELayout::Interleaved);
    let halved = RoPE::with_layout(8, F(10000.0), RoPELayout::Halved);
    let input = vec![1.0, 2.0, 3.0, 4.0, 5.0, 6.0, 7.0, 8.0];

    let out_inter = floats(&inter.forward(&reals(&input), 5));
    let out_halved = floats(&halved.forward(&reals(&input), 5));

    assert!(
        out_inter.iter().zip(out_halved.iter()).any(|(a, b)| (a - b).abs() > 1e-4),
        "interleaved and halved should produce different outputs"
    );
}

#[test]
fn halved_known_rotation() {
    // dim=4, base=1.0, halved layout
    // Pairs: (0,2) with freq θ_0=1.0, (1,3) with freq θ_1=1/1^(2/4)=1.0
    // At pos=1: angle=1.0 for both pairs
    // (x0,x2) → (x0*cos(1) - x2*sin(1), x0*sin(1) + x2*cos(1))
    let rope = RoPE::with_layout(4, F(1.0), RoPELayout::Halved);
    let input = vec![1.0, 0.0, 0.0, 0.0];
    let output = floats(&rope.forward(&reals(&input), 1));
    // Pair (0,2): x0=1.0, x1=0.0 → (cos(1), sin(1))
    assert!((output[0] - 1.0f32.cos()).abs() < 1e-6);
    assert!((output[2] - 1.0f32.sin()).abs() < 1e-6);
    // Pair (1,3): x0=0.0, x1=0.0 → (0, 0)
    assert!(output[1].abs() < 1e-6);
    assert!(output[3].abs() < 1e-6);
}

#[test]
fn argmax_basic() {
    assert_eq!(argmax(&reals(&[1.0, 3.0, 2.0])), 1);
    assert_eq!(argmax(&reals(&[5.0, 1.0, 2.0])), 0);
    assert_eq!(argmax(&reals(&[1.0, 2.0, 5.0])), 2);
}

#[test]
fn argmax_negative() {
    assert_eq!(argmax(&reals(&[-3.0, -1.0, -2.0])), 1);
}

#[test]
fn argmax_single() {
    assert_eq!(argmax(&reals(&[42.0])), 0);
}

#[test]
fn config_default() {
    let c = SamplerConfig::<F>::default();
    assert_eq!(c.temperature, F(1.0));
    assert_eq!(c.top_k, 0);
    assert_eq!(c.top_p, F(1.0));
}

#[test]
fn config_greedy() {
    let c = SamplerConfig::<F>::greedy();
    assert_eq!(c.top_k, 1);
}

#[test]
fn greedy_always_picks_max() {
    let mut sampler = Sampler::<F>::greedy();
    let logits = vec![1.0, 5.0, 3.0, 2.0];
    for _ in 0..10 {
        assert_eq!(sampler.sample(&reals(&logits)), 1);
    }
}

#[test]
fn greedy_zero_temperature() {
    let mut sampler = Sampler::new(
        SamplerConfig {
            temperature: F(0.0),
            top_k: 0,
            top_p: F(1.0),
            ..Default::default()
        },
        42,
    );
    let logits = vec![1.0, 2.0, 10.0, 3.0];
    assert_eq!(sampler.sample(&reals(&logits)), 2);
}

#[test]
fn top_k_restricts_candidates() {
    let config = SamplerConfig::top_k(2, F(1.0));
    let mut sampler = Sampler::new(config, 42);
    let logits = vec![1.0, 10.0, 9.0, 0.1];

    // With top_k=2, only tokens 1 and 2 should ever be sampled
    let mut seen = std::collections::HashSet::new();
    for _ in 0..100 {
        seen.insert(sampler.sample(&reals(&logits)));
    }
    assert!(
        seen.iter().all(|&t| t == 1 || t == 2),
        "top_k=2 should only sample from top 2 tokens, got: {:?}",
        seen
    );
}

#[test]
fn top_k_1_is_greedy() {
    let config = SamplerConfig::top_k(1, F(1.0));
    let mut sampler = Sampler::new(config, 42);
    let logits = vec![1.0, 5.0, 3.0];
    for _ in 0..10 {
        assert_eq!(sampler.sample(&reals(&logits)), 1);
    }
}

#[test]
fn top_p_restricts_distribution() {
    // With very peaked logits and low top_p, should mostly pick the top token
    let config = SamplerConfig::top_p(F(0.5), F(1.0));
    let mut sampler = Sampler::new(config, 42);
    // Token 2 has logit 100, so after softmax it has >99% probability
    let logits = vec![1.0, 2.0, 100.0, 1.0];
    for _ in 0..100 {
        assert_eq!(sampler.sample(&reals(&logits)), 2);
    }
}

#[test]
fn top_p_1_allows_all() {
    let config = SamplerConfig::top_p(F(1.0), F(1.0));
    let mut sampler = Sampler::new(config, 42);
    // Equal logits — all tokens should eventually appear
    let logits = vec![0.0; 4];
    let mut seen = std::collections::HashSet::new();
    for _ in 0..200 {
        seen.insert(sampler.sample(&reals(&logits)));
    }
    assert_eq!(seen.len(), 4, "top_p=1.0 with equal logits should sample all tokens");
}

#[test]
fn low_temperature_sharpens() {
    // With very low temperature, should act like greedy
    let config = SamplerConfig {
        temperature: F(0.01),
        top_k: 0,
        ..Default::default()
    };
    let mut sampler = Sampler::new(config, 42);
    let logits = vec![1.0, 5.0, 3.0, 2.0];
    for _ in 0..20 {
        assert_eq!(sampler.sample(&reals(&logits)), 1);
    }
}

#[test]
fn high_temperature_flattens() {
    // High temperature with equal-ish logits should produce variety
    let config = SamplerConfig {
        temperature: F(10.0),
        top_k: 0,
        ..Default::default()
    };
    let mut sampler = Sampler::new(config, 42);
    let logits = vec![1.0, 1.1, 1.2, 1.3];
    let mut seen = std::collections::HashSet::new();
    for _ in 0..200 {
        seen.insert(sampler.sample(&reals(&logits)));
    }
    assert!(seen.len() >= 3, "high temperature should produce variety");
}

#[test]
fn top_k_and_top_p_combined() {
    let config = SamplerConfig {
        temperature: F(1.0),
        top_k: 3,
        top_p: F(0.9),
        ..Default::default()
    };
    let mut sampler = Sampler::new(config, 42);
    let logits = vec![10.0, 9.0, 8.0, 1.0, 0.5];

    let mut seen = std::collections::HashSet::new();
    for _ in 0..100 {
        seen.insert(sampler.sample(&reals(&logits)));
    }
    // Should only see tokens 0, 1, 2 (top-k=3 and they dominate probability)
    assert!(
        seen.iter().all(|&t| t <= 2),
        "combined filter should restrict to top tokens, got: {:?}",
        seen
    );
}

#[test]
fn sample_with_prob_greedy() {
    let mut sampler = Sampler::<F>::greedy();
    let logits = vec![1.0, 10.0, 3.0];
    let (token, F(prob)) = sampler.sample_with_prob(&reals(&logits));
    assert_eq!(token, 1);
    assert!(prob > 0.9, "top token should have high probability");
}

#[test]
fn sample_with_prob_returns_valid_prob() {
    let config = SamplerConfig::top_k(4, F(1.0));
    let mut sampler = Sampler::new(config, 42);
    let logits = vec![1.0, 2.0, 3.0, 4.0];
    let (_token, F(prob)) = sampler.sample_with_prob(&reals(&logits));
    assert!(prob > 0.0 && prob <= 1.0, "probability should be in (0, 1]");
}

#[test]
fn same_seed_same_sequence() {
    let logits = vec![1.0, 2.0, 3.0, 4.0];
    let config = SamplerConfig {
        temperature: F(1.0),
        top_k: 0,
        ..Default::default()
    };

    let mut s1 = Sampler::new(config.clone(), 12345);
    let mut s2 = Sampler::new(config, 12345);

    let seq1: Vec<u32> = (0..20).map(|_| s1.sample(&reals(&logits))).collect();
    let seq2: Vec<u32> = (0..20).map(|_| s2.sample(&reals(&logits))).collect();
    assert_eq!(seq1, seq2);
}

#[test]
fn different_seed_different_sequence() {
    let logits = vec![1.0, 1.0, 1.0, 1.0]; // uniform
    let config = SamplerConfig {
        temperature: F(1.0),
        top_k: 0,
        ..Default::default()
    };

    let mut s1 = Sampler::new(config.clone(), 111);
    let mut s2 = Sampler::new(config, 222);

    let seq1: Vec<u32> = (0..20).map(|_| s1.sample(&reals(&logits))).collect();
    let seq2: Vec<u32> = (0..20).map(|_| s2.sample(&reals(&logits))).collect();
    // Extremely unlikely to be identical with different seeds on uniform dist
    assert_ne!(seq1, seq2);
}

#[test]
fn single_token_vocab() {
    let mut sampler = Sampler::new(SamplerConfig::<F>::default(), 42);
    assert_eq!(sampler.sample(&reals(&[5.0])), 0);
}

#[test]
fn large_logit_range() {
    // Test numerical stability with huge logit differences
    let mut sampler = Sampler::<F>::greedy();
    let logits = vec![-1000.0, 1000.0, -1000.0];
    assert_eq!(sampler.sample(&reals(&logits)), 1);
}

#[test]
fn sampler_debug_format() {
    let sampler = Sampler::<F>::greedy();
    let debug = format!("{:?}", sampler);
    assert!(debug.contains("Sampler"));
}
