use ternary_rs::float_bits::{order_key, single_from_half};
use ternary_rs::layers::kv_cache::{KvCache, ModelKvCache};
use ternary_rs::layers::model::OutputProjection;
use ternary_rs::layers::rmsnorm::RmsNorm;
use ternary_rs::layers::sampler::SamplerConfig;
use ternary_rs::layers::softmax::softmax_inplace;
use ternary_rs::layers::swiglu::{relu_squared, silu, GateActivation};
use ternary_rs::numeric::Real;
use ternary_rs::tensor::{FloatTensor, Ternary, TernaryTensor};

#[derive(Clone, Copy, Debug, PartialEq)]
struct F(f32);

impl Real for F {
    fn zero() -> Self {
        F(0.0)
    }

    fn one() -> Self {
        F(1.0)
    }

    fn lowest() -> Self {
        F(f32::NEG_INFINITY)
    }

    fn from_i32(n: i32) -> Self {
        F(n as f32)
    }

    fn from_usize(n: usize) -> Self {
        F(n as f32)
    }

    fn from_half(bits: u16) -> Self {
        F(f32::from_bits(single_from_half(bits)))
    }

    fn plus(self, other: Self) -> Self {
        F(self.0 + other.0)
    }

    fn minus(self, other: Self) -> Self {
        F(self.0 - other.0)
    }

    fn times(self, other: Self) -> Self {
        F(self.0 * other.0)
    }

    fn over(self, other: Self) -> Self {
        F(self.0 / other.0)
    }

    fn negate(self) -> Self {
        F(-self.0)
    }

    fn abs(self) -> Self {
        F(self.0.abs())
    }

    fn max(self, other: Self) -> Self {
        F(self.0.max(other.0))
    }

    fn sqrt(self) -> Self {
        F(self.0.sqrt())
    }

    fn exp(self) -> Self {
        F(self.0.exp())
    }

    fn sin(self) -> Self {
        F(self.0.sin())
    }

    fn cos(self) -> Self {
        F(self.0.cos())
    }

    fn power(self, exponent: Self) -> Self {
        F(self.0.powf(exponent.0))
    }

    fn round_to_i32(self) -> i32 {
        self.0.round() as i32
    }

    fn less(self, other: Self) -> bool {
        self.0 < other.0
    }

    fn at_most(self, other: Self) -> bool {
        self.0 <= other.0
    }

    fn order_key(self) -> i64 {
        order_key(self.0.to_bits()).unwrap()
    }
}

fn reals(xs: &[f32]) -> Vec<F> {
    xs.iter().map(|&x| F(x)).collect()
}

fn floats(xs: &[F]) -> Vec<f32> {
    xs.iter().map(|x| x.0).collect()
}

fn weights_from_i8(values: &[i8], rows: usize, cols: usize) -> TernaryTensor {
    let ternary: Vec<Ternary> = values
        .iter()
        .map(|&v| match v {
            -1 => Ternary::Neg,
            0 => Ternary::Zero,
            1 => Ternary::Pos,
            _ => panic!("not ternary"),
        })
        .collect();
    TernaryTensor::pack(&ternary, rows, cols)
}

type BitLinear = ternary_rs::layers::bitlinear::BitLinear<F>;
type MultiHeadAttention = ternary_rs::layers::attention::MultiHeadAttention<F>;
type SwiGLU = ternary_rs::layers::swiglu::SwiGLU<F>;
type TransformerBlock = ternary_rs::layers::transformer::TransformerBlock<F>;
type TransformerModel = ternary_rs::layers::model::TransformerModel<F>;

fn make_bitlinear(weights: &[i8], rows: usize, cols: usize, scale: f32) -> BitLinear {
    BitLinear::new(weights_from_i8(weights, rows, cols), F(scale))
}

fn make_identity_proj(out_dim: usize, in_dim: usize) -> BitLinear {
    let mut weights = vec![0i8; out_dim * in_dim];
    for i in 0..out_dim.min(in_dim) {
        weights[i * in_dim + i] = 1;
    }
    make_bitlinear(&weights, out_dim, in_dim, 1.0)
}

// An attention layer with identity-like projections.
fn make_attention(embed_dim: usize, n_heads: usize, n_kv_heads: usize, head_dim: usize) -> MultiHeadAttention {
    let kv_dim = n_kv_heads * head_dim;
    MultiHeadAttention::new(
        make_identity_proj(embed_dim, embed_dim),
        make_identity_proj(kv_dim, embed_dim),
        make_identity_proj(kv_dim, embed_dim),
        make_identity_proj(embed_dim, embed_dim),
        n_heads,
        n_kv_heads,
        head_dim,
        F(10000.0),
    )
}

fn make_test_mha(n_heads: usize, n_kv_heads: usize, head_dim: usize) -> MultiHeadAttention {
    make_attention(n_heads * head_dim, n_heads, n_kv_heads, head_dim)
}

fn make_test_swiglu(embed_dim: usize, intermediate: usize) -> SwiGLU {
    let gate = make_identity_proj(intermediate, embed_dim);
    let up = make_identity_proj(intermediate, embed_dim);
    let down = make_identity_proj(embed_dim, intermediate);
    SwiGLU::new(gate, up, down)
}

fn make_test_block(
    embed_dim: usize,
    n_heads: usize,
    n_kv_heads: usize,
    intermediate: usize,
) -> TransformerBlock {
    let attention = make_attention(embed_dim, n_heads, n_kv_heads, embed_dim / n_heads);
    let ffn = make_test_swiglu(embed_dim, intermediate);
    let attn_norm = RmsNorm::new(reals(&vec![1.0; embed_dim]), F(1e-5));
    let ffn_norm = RmsNorm::new(reals(&vec![1.0; embed_dim]), F(1e-5));
    TransformerBlock::new(attn_norm, attention, ffn_norm, ffn)
}

fn make_test_model(n_layers: usize, tied: bool) -> TransformerModel {
    let vocab_size = 8;
    let embed_dim = 8;
    let n_heads = 2;
    let n_kv_heads = 2;
    let intermediate = 16;

    // Embedding: small distinct vectors per token
    let mut embed_data = vec![0.0f32; vocab_size * embed_dim];
    for v in 0..vocab_size {
        for d in 0..embed_dim {
            embed_data[v * embed_dim + d] = ((v * embed_dim + d) as f32 + 1.0) * 0.01;
        }
    }
    let embedding = FloatTensor::new(reals(&embed_data), vec![vocab_size, embed_dim]);

    let blocks: Vec<TransformerBlock> = (0..n_layers)
        .map(|_| make_test_block(embed_dim, n_heads, n_kv_heads, intermediate))
        .collect();

    let final_norm = RmsNorm::new(reals(&vec![1.0; embed_dim]), F(1e-5));

    let output_proj = if tied {
        OutputProjection::TiedEmbedding
    } else {
        OutputProjection::Linear(make_identity_proj(vocab_size, embed_dim))
    };

    TransformerModel::new(embedding, blocks, final_norm, output_proj)
}

#[test]
fn softmax_basic() {
    let v = vec![1.0, 2.0, 3.0];
    let mut x = reals(&v);
    softmax_inplace(&mut x);
    let v = floats(&x);

    // Sum should be 1.0
    let sum: f32 = v.iter().sum();
    assert!((sum - 1.0).abs() < 1e-6);

    // Monotonically increasing
    assert!(v[0] < v[1]);
    assert!(v[1] < v[2]);
}

#[test]
fn softmax_single() {
    let v = vec![42.0];
    let mut x = reals(&v);
    softmax_inplace(&mut x);
    let v = floats(&x);
    assert!((v[0] - 1.0).abs() < 1e-6);
}

#[test]
fn softmax_empty() {
    let v: Vec<f32> = vec![];
    let mut x = reals(&v);
    softmax_inplace(&mut x);
    let v = floats(&x);
    assert!(v.is_empty());
}

#[test]
fn softmax_equal_inputs() {
    let v = vec![1.0; 4];
    let mut x = reals(&v);
    softmax_inplace(&mut x);
    let v = floats(&x);
    for &val in &v {
        assert!((val - 0.25).abs() < 1e-6);
    }
}

#[test]
fn softmax_numerical_stability() {
    // Large values that would overflow without max subtraction
    let v = vec![1000.0, 1001.0, 1002.0];
    let mut x = reals(&v);
    softmax_inplace(&mut x);
    let v = floats(&x);
    let sum: f32 = v.iter().sum();
    assert!((sum - 1.0).abs() < 1e-5);
    assert!(v[2] > v[1]);
    assert!(v[1] > v[0]);
}

#[test]
fn construction_mha() {
    let mha = make_test_mha(4, 4, 8);
    assert_eq!(mha.embed_dim(), 32);
    assert_eq!(mha.n_heads(), 4);
    assert_eq!(mha.n_kv_heads(), 4);
    assert_eq!(mha.head_dim(), 8);
}

#[test]
fn construction_gqa() {
    let mha = make_test_mha(4, 2, 8);
    assert_eq!(mha.n_heads(), 4);
    assert_eq!(mha.n_kv_heads(), 2);
    assert_eq!(mha.heads_per_group(), 2);
}

#[test]
fn attention_forward_output_shape() {
    let mha = make_test_mha(2, 2, 4);
    let embed_dim = mha.embed_dim(); // 8
    let input = vec![1.0f32; embed_dim]; // single token
    let output = floats(&mha.forward(&reals(&input), 1, 0));
    assert_eq!(output.len(), embed_dim);
}

#[test]
fn attention_forward_sequence_shape() {
    let mha = make_test_mha(2, 2, 4);
    let embed_dim = mha.embed_dim(); // 8
    let seq_len = 3;
    let input = vec![0.5f32; seq_len * embed_dim];
    let output = floats(&mha.forward(&reals(&input), seq_len, 0));
    assert_eq!(output.len(), seq_len * embed_dim);
}

#[test]
fn forward_single_token_finite() {
    let mha = make_test_mha(2, 2, 4);
    let embed_dim = mha.embed_dim();
    let input = vec![1.0f32; embed_dim];
    let output = floats(&mha.forward(&reals(&input), 1, 0));
    for (i, &v) in output.iter().enumerate() {
        assert!(v.is_finite(), "output[{i}] is not finite: {v}");
    }
}

#[test]
fn forward_gqa_output_shape() {
    // GQA: 4 Q heads, 2 KV heads
    let mha = make_test_mha(4, 2, 4);
    let embed_dim = mha.embed_dim(); // 16
    let input = vec![0.3f32; embed_dim];
    let output = floats(&mha.forward(&reals(&input), 1, 0));
    assert_eq!(output.len(), embed_dim);
    for (i, &v) in output.iter().enumerate() {
        assert!(v.is_finite(), "gqa output[{i}] not finite: {v}");
    }
}

#[test]
fn causal_mask_first_token() {
    // First token can only attend to itself → attention weight must be 1.0
    // for that single position. With identity-ish projections, the output
    // should approximate the value projection of the input.
    let mha = make_test_mha(2, 2, 4);
    let embed_dim = mha.embed_dim();
    let seq_len = 3;
    let mut input = vec![0.0f32; seq_len * embed_dim];
    // Make first token distinctive
    for i in 0..embed_dim {
        input[i] = (i as f32 + 1.0) * 0.1;
    }
    let output = floats(&mha.forward(&reals(&input), seq_len, 0));
    // First token's output should be finite and non-zero
    let first_tok: &[f32] = &output[0..embed_dim];
    assert!(
        first_tok.iter().any(|&v| v.abs() > 1e-6),
        "first token output should be non-zero"
    );
}

#[test]
fn different_inputs_different_output() {
    let mha = make_test_mha(2, 2, 4);
    let embed_dim = mha.embed_dim();

    let input_a: Vec<f32> = (0..embed_dim).map(|i| (i as f32 + 1.0) * 0.1).collect();
    let input_b: Vec<f32> = (0..embed_dim).map(|i| (i as f32 + 1.0) * -0.2).collect();

    let out_a = floats(&mha.forward(&reals(&input_a), 1, 0));
    let out_b = floats(&mha.forward(&reals(&input_b), 1, 0));

    assert!(
        out_a.iter().zip(out_b.iter()).any(|(a, b)| (a - b).abs() > 1e-4),
        "different inputs should produce different outputs"
    );
}

#[test]
fn attention_debug_format() {
    let mha = make_test_mha(4, 2, 8);
    let debug = mha.describe();
    assert!(debug.contains("MultiHeadAttention"));
    assert!(debug.contains("heads=4"));
    assert!(debug.contains("kv_heads=2"));
    assert!(debug.contains("head_dim=8"));
}

#[test]
fn identity_forward() {
    let layer = make_bitlinear(&[1, 0, 0, 1], 2, 2, 1.0);
    let input = vec![1.0f32, 0.5];
    let output = floats(&layer.forward(&reals(&input)));

    assert!((output[0] - 1.0).abs() < 0.02);
    assert!((output[1] - 0.5).abs() < 0.02);
}

#[test]
fn negation_forward() {
    let layer = make_bitlinear(&[-1, 0, 0, -1], 2, 2, 1.0);
    let input = vec![1.0f32, 0.5];
    let output = floats(&layer.forward(&reals(&input)));

    assert!((output[0] - -1.0).abs() < 0.02);
    assert!((output[1] - -0.5).abs() < 0.02);
}

#[test]
fn scale_factor_applied() {
    let layer = make_bitlinear(&[1, 1, 1, 1], 1, 4, 0.1);
    let input = vec![1.0f32; 4];
    let output = floats(&layer.forward(&reals(&input)));
    assert!((output[0] - 0.4).abs() < 0.05, "got {}", output[0]);
}

#[test]
fn batch_forward() {
    let layer = make_bitlinear(&[1, -1], 1, 2, 1.0);
    let inputs = vec![
        1.0f32, 0.5,   // batch 0
        0.0, 1.0,      // batch 1
    ];
    let outputs: Vec<Vec<f32>> =
        layer.forward_batch(&reals(&inputs), 2).iter().map(|y| floats(y)).collect();
    assert_eq!(outputs.len(), 2);
    assert!((outputs[0][0] - 0.5).abs() < 0.05);
    assert!((outputs[1][0] - -1.0).abs() < 0.05);
}

#[test]
fn new_cache_empty() {
    let cache = KvCache::<F>::new(4, 64, 2048);
    assert_eq!(cache.len(), 0);
    assert!(cache.is_empty());
    assert_eq!(cache.max_seq_len(), 2048);
    assert_eq!(cache.kv_dim(), 256); // 4 * 64
}

#[test]
fn append_single_position() {
    let mut cache = KvCache::<F>::new(2, 4, 100);
    let kv_dim = cache.kv_dim(); // 8
    let keys = vec![1.0f32; kv_dim];
    let values = vec![2.0f32; kv_dim];

    cache.append(&reals(&keys), &reals(&values));
    assert_eq!(cache.len(), 1);
    assert!(!cache.is_empty());
}

#[test]
fn append_multiple_positions() {
    let mut cache = KvCache::<F>::new(2, 4, 100);
    let kv_dim = cache.kv_dim();

    // Append 3 positions at once
    let keys = vec![1.0f32; 3 * kv_dim];
    let values = vec![2.0f32; 3 * kv_dim];
    cache.append(&reals(&keys), &reals(&values));
    assert_eq!(cache.len(), 3);

    // Append 2 more
    let keys2 = vec![3.0f32; 2 * kv_dim];
    let values2 = vec![4.0f32; 2 * kv_dim];
    cache.append(&reals(&keys2), &reals(&values2));
    assert_eq!(cache.len(), 5);
}

#[test]
fn key_value_at_retrieval() {
    let mut cache = KvCache::<F>::new(2, 4, 100);

    // Position 0: keys = [1,2,3,4, 5,6,7,8] (head0=[1,2,3,4], head1=[5,6,7,8])
    let keys0: Vec<f32> = (1..=8).map(|x| x as f32).collect();
    let values0: Vec<f32> = (11..=18).map(|x| x as f32).collect();
    cache.append(&reals(&keys0), &reals(&values0));

    // Position 1
    let keys1: Vec<f32> = (21..=28).map(|x| x as f32).collect();
    let values1: Vec<f32> = (31..=38).map(|x| x as f32).collect();
    cache.append(&reals(&keys1), &reals(&values1));

    // Check pos 0, head 0
    assert_eq!(floats(cache.key_at(0, 0)), [1.0, 2.0, 3.0, 4.0]);
    // Check pos 0, head 1
    assert_eq!(floats(cache.key_at(0, 1)), [5.0, 6.0, 7.0, 8.0]);
    // Check pos 1, head 0
    assert_eq!(floats(cache.key_at(1, 0)), [21.0, 22.0, 23.0, 24.0]);

    // Values
    assert_eq!(floats(cache.value_at(0, 0)), [11.0, 12.0, 13.0, 14.0]);
    assert_eq!(floats(cache.value_at(1, 1)), [35.0, 36.0, 37.0, 38.0]);
}

#[test]
fn keys_values_slices() {
    let mut cache = KvCache::<F>::new(1, 2, 100);
    let keys = vec![1.0, 2.0, 3.0, 4.0]; // 2 positions × kv_dim=2
    let values = vec![5.0, 6.0, 7.0, 8.0];
    cache.append(&reals(&keys), &reals(&values));

    assert_eq!(floats(cache.keys()), [1.0, 2.0, 3.0, 4.0]);
    assert_eq!(floats(cache.values()), [5.0, 6.0, 7.0, 8.0]);
}

#[test]
fn clear_resets() {
    let mut cache = KvCache::<F>::new(2, 4, 100);
    let kv_dim = cache.kv_dim();
    cache.append(&reals(&vec![1.0; kv_dim]), &reals(&vec![2.0; kv_dim]));
    assert_eq!(cache.len(), 1);

    cache.clear();
    assert_eq!(cache.len(), 0);
    assert!(cache.is_empty());

    // Can reuse after clear
    cache.append(&reals(&vec![3.0; kv_dim]), &reals(&vec![4.0; kv_dim]));
    assert_eq!(cache.len(), 1);
}

#[test]
fn memory_bytes() {
    let cache = KvCache::<F>::new(4, 64, 2048);
    // 2 buffers × 2048 × 256 × 4 bytes = 4,194,304
    assert_eq!(cache.memory_bytes(), 2 * 2048 * 256 * 4);
}

#[test]
fn bitlinear_debug_format() {
    let layer = make_bitlinear(&[1, 0, 0, 1], 2, 2, 0.5);
    let debug = layer.describe(&format!("{:.6}", layer.weight_scale().0));
    assert!(debug.contains("BitLinear"));
    assert!(debug.contains("2→2"));
    assert_eq!(debug, "BitLinear(2→2, γ=0.500000)");
}

#[test]
fn descriptions_name_the_dimensions() {
    assert_eq!(RmsNorm::new(reals(&[1.0; 3]), F(0.5)).describe("0.5"), "RmsNorm(dim=3, eps=0.5)");
    let t = FloatTensor::new(reals(&[0.0; 12]), vec![2, 1, 6]);
    assert_eq!(t.describe(), "FloatTensor([2, 1, 6])");
    assert_eq!(FloatTensor::new(reals(&[1.0]), vec![]).describe(), "FloatTensor([])");
    assert_eq!(t.to_activation().describe("1"), "ActivationTensor([2, 1, 6], scale=1)");
}

#[test]
fn debug_format_cache() {
    let cache = KvCache::<F>::new(4, 64, 2048);
    let debug = cache.describe();
    assert!(debug.contains("KvCache"));
    assert!(debug.contains("0/2048"));
}

#[test]
fn debug_format_model_cache() {
    let mc = ModelKvCache::<F>::new(22, 4, 64, 2048);
    let debug = mc.describe();
    assert!(debug.contains("ModelKvCache"));
    assert!(debug.contains("layers=22"));
}

#[test]
fn cache_sizes_have_one_decimal() {
    for positions in [0, 1, 5, 16, 32, 37, 48, 96, 160, 1000, 2047] {
        let mut cache = KvCache::<F>::new(2, 2, positions);
        if positions > 0 {
            cache.append(&reals(&[1.0; 4]), &reals(&[2.0; 4]));
        }
        assert_eq!(
            cache.describe(),
            format!(
                "KvCache(kv_heads=2, head_dim=2, len={}/{positions}, {:.1}KB)",
                cache.len(),
                cache.memory_bytes() as f64 / 1024.0
            )
        );
        let mc = ModelKvCache::<F>::new(3, 16, 16, positions);
        assert_eq!(
            mc.describe(),
            format!(
                "ModelKvCache(layers=3, seq=0/{positions}, {:.1}MB)",
                mc.memory_bytes() as f64 / (1024.0 * 1024.0)
            )
        );
    }
    assert_eq!(ModelKvCache::<F>::new(0, 1, 1, 9).describe(), "ModelKvCache(layers=0, seq=0/0, 0.0MB)");
}

#[test]
fn model_cache_construction() {
    let mc = ModelKvCache::<F>::new(22, 4, 64, 4096);
    assert_eq!(mc.n_layers(), 22);
    assert_eq!(mc.seq_len(), 0);
}

#[test]
fn model_cache_per_layer() {
    let mut mc = ModelKvCache::<F>::new(3, 2, 4, 100);
    let kv_dim = mc.layer(0).kv_dim();

    // Append to layer 0 only
    mc.layer_mut(0).append(&reals(&vec![1.0; kv_dim]), &reals(&vec![2.0; kv_dim]));
    assert_eq!(mc.layer(0).len(), 1);
    assert_eq!(mc.layer(1).len(), 0);
    assert_eq!(mc.layer(2).len(), 0);
}

#[test]
fn model_cache_clear() {
    let mut mc = ModelKvCache::<F>::new(3, 2, 4, 100);
    let kv_dim = mc.layer(0).kv_dim();

    for i in 0..3 {
        mc.layer_mut(i).append(&reals(&vec![1.0; kv_dim]), &reals(&vec![2.0; kv_dim]));
    }
    assert_eq!(mc.layer(0).len(), 1);

    mc.clear();
    for i in 0..3 {
        assert_eq!(mc.layer(i).len(), 0);
    }
}

#[test]
fn model_cache_memory() {
    let mc = ModelKvCache::<F>::new(22, 4, 64, 2048);
    // 22 layers × 2 buffers × 2048 × 256 × 4 bytes
    let expected = 22 * 2 * 2048 * 256 * 4;
    assert_eq!(mc.memory_bytes(), expected);
    // ~92MB for a 2B model at 2K context — reasonable
}

#[test]
fn incremental_generation_pattern() {
    // Simulate the actual generation pattern:
    // 1. Prefill: append all prompt tokens at once
    // 2. Decode: append one token at a time
    let mut cache = KvCache::<F>::new(2, 4, 100);
    let kv_dim = cache.kv_dim();

    // Prefill 5 prompt tokens
    let prompt_keys = vec![1.0f32; 5 * kv_dim];
    let prompt_values = vec![2.0f32; 5 * kv_dim];
    cache.append(&reals(&prompt_keys), &reals(&prompt_values));
    assert_eq!(cache.len(), 5);

    // Generate 3 tokens one at a time
    for step in 0..3 {
        let new_key = vec![(10 + step) as f32; kv_dim];
        let new_value = vec![(20 + step) as f32; kv_dim];
        cache.append(&reals(&new_key), &reals(&new_value));
    }
    assert_eq!(cache.len(), 8); // 5 prompt + 3 generated

    // Can retrieve any position
    assert_eq!(floats(cache.key_at(0, 0)), [1.0; 4]); // prompt
    assert_eq!(floats(cache.key_at(5, 0)), [10.0; 4]); // first generated
    assert_eq!(floats(cache.key_at(7, 0)), [12.0; 4]); // third generated
}

#[test]
fn unit_weights_normalize() {
    let norm = RmsNorm::new(reals(&vec![1.0; 4]), F(1e-6));
    let input = vec![2.0, 2.0, 2.0, 2.0];
    let output = floats(&norm.forward(&reals(&input)));

    // RMS of [2,2,2,2] = 2.0, so normalized = [1,1,1,1].
    for &v in &output {
        assert!((v - 1.0).abs() < 1e-5, "expected 1.0, got {v}");
    }
}

#[test]
fn scale_weights_applied() {
    let norm = RmsNorm::new(reals(&vec![2.0; 4]), F(1e-6));
    let input = vec![2.0, 2.0, 2.0, 2.0];
    let output = floats(&norm.forward(&reals(&input)));

    // Normalized = 1.0, then scaled by 2.0.
    for &v in &output {
        assert!((v - 2.0).abs() < 1e-5, "expected 2.0, got {v}");
    }
}

#[test]
fn mixed_input() {
    let norm = RmsNorm::new(reals(&vec![1.0, 1.0]), F(1e-6));
    let input = vec![3.0, 4.0];
    let output = floats(&norm.forward(&reals(&input)));

    // mean(x²) = (9+16)/2 = 12.5
    // rms = √12.5 ≈ 3.5355
    let rms = 12.5f32.sqrt();
    assert!((output[0] - 3.0 / rms).abs() < 1e-5);
    assert!((output[1] - 4.0 / rms).abs() < 1e-5);
}

#[test]
fn zero_input_with_eps() {
    let norm = RmsNorm::new(reals(&vec![1.0; 4]), F(1e-6));
    let input = vec![0.0; 4];
    let output = floats(&norm.forward(&reals(&input)));

    // All zeros: mean_sq = 0, rms = √(0 + eps), output ≈ 0.
    for &v in &output {
        assert!(v.abs() < 1e-3, "expected ~0, got {v}");
    }
}

#[test]
fn rmsnorm_forward_into_matches_forward() {
    let norm = RmsNorm::new(reals(&vec![0.5, 1.5, 2.0]), F(1e-6));
    let input = vec![1.0, -2.0, 3.0];

    let expected = floats(&norm.forward(&reals(&input)));
    let mut actual = reals(&[0.0f32; 3]);
    norm.forward_into(&reals(&input), &mut actual);
    let actual = floats(&actual);

    for (e, a) in expected.iter().zip(actual.iter()) {
        assert!((e - a).abs() < 1e-6);
    }
}

#[test]
fn silu_zero() {
    // silu(0) = 0 / (1 + 1) = 0
    assert!((silu(F(0.0)).0).abs() < 1e-7);
}

#[test]
fn silu_positive() {
    // silu(x) > 0 for x > 0
    assert!(silu(F(1.0)).0 > 0.0);
    assert!(silu(F(5.0)).0 > 0.0);
}

#[test]
fn silu_negative() {
    // silu(x) < 0 for x < 0 (slight negative dip)
    assert!(silu(F(-1.0)).0 < 0.0);
}

#[test]
fn silu_large_positive() {
    // silu(x) ≈ x for large positive x (σ(x) → 1)
    let x = 10.0;
    assert!((silu(F(x)).0 - x).abs() < 0.01);
}

#[test]
fn silu_large_negative() {
    // silu(x) ≈ 0 for large negative x (σ(x) → 0)
    assert!(silu(F(-10.0)).0.abs() < 0.01);
}

#[test]
fn silu_known_value() {
    // silu(1) = 1 / (1 + exp(-1)) = 1 / (1 + 0.3679) ≈ 0.7311
    let expected = 1.0 / (1.0 + (-1.0f32).exp());
    assert!((silu(F(1.0)).0 - expected).abs() < 1e-6);
}

#[test]
fn swiglu_construction() {
    let ffn = make_test_swiglu(8, 16);
    assert_eq!(ffn.in_features(), 8);
    assert_eq!(ffn.intermediate_size(), 16);
    assert_eq!(ffn.out_features(), 8);
}

#[test]
fn swiglu_forward_output_shape() {
    let ffn = make_test_swiglu(8, 16);
    let input = vec![1.0f32; 8];
    let output = floats(&ffn.forward(&reals(&input)));
    assert_eq!(output.len(), 8);
}

#[test]
fn swiglu_forward_finite() {
    let ffn = make_test_swiglu(8, 16);
    let input = vec![0.5f32; 8];
    let output = floats(&ffn.forward(&reals(&input)));
    for (i, &v) in output.iter().enumerate() {
        assert!(v.is_finite(), "output[{i}] not finite: {v}");
    }
}

#[test]
fn forward_zero_input() {
    let ffn = make_test_swiglu(4, 8);
    let input = vec![0.0f32; 4];
    let output = floats(&ffn.forward(&reals(&input)));
    // silu(0) = 0, so gate output is all zero, so intermediate is all zero
    for &v in &output {
        assert!(
            v.abs() < 0.1,
            "zero input should produce near-zero output, got {v}"
        );
    }
}

#[test]
fn forward_different_inputs() {
    let ffn = make_test_swiglu(8, 16);
    let input_a = vec![1.0f32; 8];
    let input_b = vec![-1.0f32; 8];
    let out_a = floats(&ffn.forward(&reals(&input_a)));
    let out_b = floats(&ffn.forward(&reals(&input_b)));

    assert!(
        out_a.iter().zip(out_b.iter()).any(|(a, b)| (a - b).abs() > 1e-4),
        "different inputs should produce different outputs"
    );
}

#[test]
fn swiglu_forward_sequence_shape() {
    let ffn = make_test_swiglu(8, 16);
    let seq_len = 3;
    let input = vec![0.5f32; seq_len * 8];
    let output = floats(&ffn.forward_sequence(&reals(&input), seq_len));
    assert_eq!(output.len(), seq_len * 8);
}

#[test]
fn forward_sequence_matches_individual() {
    let ffn = make_test_swiglu(4, 8);
    let tok0 = vec![1.0f32, 0.5, -0.3, 0.8];
    let tok1 = vec![-0.2f32, 0.7, 0.1, -0.5];

    let out0 = floats(&ffn.forward(&reals(&tok0)));
    let out1 = floats(&ffn.forward(&reals(&tok1)));

    let mut seq_input = tok0.clone();
    seq_input.extend_from_slice(&tok1);
    let seq_output = floats(&ffn.forward_sequence(&reals(&seq_input), 2));

    for (a, b) in out0.iter().chain(out1.iter()).zip(seq_output.iter()) {
        assert!((a - b).abs() < 1e-7, "sequence should match individual: {a} vs {b}");
    }
}

#[test]
fn swiglu_debug_format() {
    let ffn = make_test_swiglu(8, 16);
    let debug = ffn.describe();
    assert!(debug.contains("SwiGLU"));
    assert!(debug.contains("8→16→8"));
}

#[test]
fn relu_squared_zero() {
    assert_eq!(relu_squared(F(0.0)).0, 0.0);
}

#[test]
fn relu_squared_positive() {
    assert!((relu_squared(F(2.0)).0 - 4.0).abs() < 1e-7);
    assert!((relu_squared(F(3.0)).0 - 9.0).abs() < 1e-7);
}

#[test]
fn relu_squared_negative() {
    assert_eq!(relu_squared(F(-1.0)).0, 0.0);
    assert_eq!(relu_squared(F(-100.0)).0, 0.0);
}

#[test]
fn relu2_activation_differs_from_silu() {
    // For negative inputs, ReLU² = 0 but SiLU < 0
    assert!(silu(F(-1.0)).0 < 0.0);
    assert_eq!(relu_squared(F(-1.0)).0, 0.0);

    // For positive inputs, ReLU²(x) = x² > SiLU(x) ≈ x*sigmoid(x) for x>0
    assert!(relu_squared(F(2.0)).0 > silu(F(2.0)).0);
}

#[test]
fn ffn_relu2_output_shape() {
    let gate = make_identity_proj(16, 8);
    let up = make_identity_proj(16, 8);
    let down = make_identity_proj(8, 16);
    let ffn = SwiGLU::with_activation(gate, up, down, GateActivation::ReLU2);

    let input = vec![1.0f32; 8];
    let output = floats(&ffn.forward(&reals(&input)));
    assert_eq!(output.len(), 8);
}

#[test]
fn ffn_relu2_zero_for_negative_input() {
    // With identity-ish weights and all-negative input,
    // ReLU²(gate) = 0, so intermediate = 0, so output ≈ 0
    let gate = make_identity_proj(8, 4);
    let up = make_identity_proj(8, 4);
    let down = make_identity_proj(4, 8);
    let ffn = SwiGLU::with_activation(gate, up, down, GateActivation::ReLU2);

    let input = vec![-1.0f32; 4];
    let output = floats(&ffn.forward(&reals(&input)));
    for &v in &output {
        assert!(v.abs() < 0.1, "relu2 should zero out negative gate: got {v}");
    }
}

#[test]
fn transformer_construction() {
    let block = make_test_block(8, 2, 2, 16);
    assert_eq!(block.embed_dim(), 8);
}

#[test]
fn transformer_forward_single_token_shape() {
    let block = make_test_block(8, 2, 2, 16);
    let input = vec![1.0f32; 8];
    let output = floats(&block.forward(&reals(&input), 1, 0));
    assert_eq!(output.len(), 8);
}

#[test]
fn transformer_forward_sequence_shape() {
    let block = make_test_block(8, 2, 2, 16);
    let seq_len = 4;
    let input = vec![0.5f32; seq_len * 8];
    let output = floats(&block.forward(&reals(&input), seq_len, 0));
    assert_eq!(output.len(), seq_len * 8);
}

#[test]
fn transformer_forward_finite() {
    let block = make_test_block(8, 2, 2, 16);
    let input = vec![0.3f32; 8];
    let output = floats(&block.forward(&reals(&input), 1, 0));
    for (i, &v) in output.iter().enumerate() {
        assert!(v.is_finite(), "output[{i}] not finite: {v}");
    }
}

#[test]
fn forward_gqa_block() {
    // 4 Q heads, 2 KV heads
    let block = make_test_block(16, 4, 2, 32);
    assert_eq!(block.embed_dim(), 16);
    let input = vec![0.5f32; 16];
    let output = floats(&block.forward(&reals(&input), 1, 0));
    assert_eq!(output.len(), 16);
    for (i, &v) in output.iter().enumerate() {
        assert!(v.is_finite(), "gqa output[{i}] not finite: {v}");
    }
}

#[test]
fn residual_connection_adds() {
    // With identity-ish projections, the residual should make
    // the output different from (and generally larger than) the
    // sublayer output alone.
    let block = make_test_block(8, 2, 2, 16);
    let input = vec![1.0f32; 8];
    let output = floats(&block.forward(&reals(&input), 1, 0));

    // Output should not be identical to input (sublayers add something)
    assert!(
        input.iter().zip(output.iter()).any(|(a, b)| (a - b).abs() > 1e-4),
        "residual should modify the output"
    );
}

#[test]
fn different_inputs_different_outputs() {
    let block = make_test_block(8, 2, 2, 16);
    let out_a = floats(&block.forward(&reals(&[1.0f32; 8]), 1, 0));
    let out_b = floats(&block.forward(&reals(&[-1.0f32; 8]), 1, 0));

    assert!(
        out_a.iter().zip(out_b.iter()).any(|(a, b)| (a - b).abs() > 1e-4),
        "different inputs should produce different outputs"
    );
}

#[test]
fn multi_token_sequence_runs() {
    // Verify a multi-token sequence runs end-to-end through
    // norm → attention (with causal mask) → residual → norm → FFN → residual.
    // With synthetic identity weights, detailed numerical assertions
    // aren't meaningful (quantization noise dominates), but the full
    // pipeline must produce finite output of correct shape.
    let block = make_test_block(8, 2, 2, 16);
    let seq_len = 5;
    let mut input = Vec::with_capacity(seq_len * 8);
    for t in 0..seq_len {
        for d in 0..8 {
            input.push((t as f32 * 0.3) + (d as f32 * 0.1));
        }
    }

    let output = floats(&block.forward(&reals(&input), seq_len, 0));
    assert_eq!(output.len(), seq_len * 8);
    for (i, &v) in output.iter().enumerate() {
        assert!(v.is_finite(), "output[{i}] not finite: {v}");
    }
}

#[test]
fn transformer_debug_format() {
    let block = make_test_block(8, 2, 2, 16);
    let debug = block.describe();
    assert!(debug.contains("TransformerBlock"));
    assert!(debug.contains("embed=8"));
}

#[test]
fn model_construction() {
    let model = make_test_model(2, false);
    assert_eq!(model.vocab_size(), 8);
    assert_eq!(model.embed_dim(), 8);
    assert_eq!(model.n_layers(), 2);
}

#[test]
fn construction_tied() {
    let model = make_test_model(1, true);
    assert_eq!(model.vocab_size(), 8);
}

#[test]
fn model_forward_single_token_shape() {
    let model = make_test_model(1, false);
    let logits = floats(&model.forward(&[0], 0));
    assert_eq!(logits.len(), 8); // vocab_size
}

#[test]
fn model_forward_sequence_shape() {
    let model = make_test_model(1, false);
    let logits = floats(&model.forward(&[0, 1, 2], 0));
    assert_eq!(logits.len(), 3 * 8); // seq_len * vocab_size
}

#[test]
fn model_forward_finite() {
    let model = make_test_model(1, false);
    let logits = floats(&model.forward(&[0, 3, 7], 0));
    for (i, &v) in logits.iter().enumerate() {
        assert!(v.is_finite(), "logit[{i}] not finite: {v}");
    }
}

#[test]
fn forward_tied_embedding() {
    let model = make_test_model(1, true);
    let logits = floats(&model.forward(&[0, 1], 0));
    assert_eq!(logits.len(), 2 * 8);
    for (i, &v) in logits.iter().enumerate() {
        assert!(v.is_finite(), "tied logit[{i}] not finite: {v}");
    }
}

#[test]
fn forward_multi_layer() {
    let model = make_test_model(3, false);
    let logits = floats(&model.forward(&[0, 1], 0));
    assert_eq!(logits.len(), 2 * 8);
    for (i, &v) in logits.iter().enumerate() {
        assert!(v.is_finite(), "3-layer logit[{i}] not finite: {v}");
    }
}

#[test]
fn forward_last_shape() {
    let model = make_test_model(1, false);
    let logits = floats(&model.forward_last(&[0, 1, 2], 0));
    assert_eq!(logits.len(), 8); // just vocab_size
}

#[test]
fn forward_last_matches_full() {
    let model = make_test_model(1, false);
    let tokens = &[0u32, 3, 5];
    let full = floats(&model.forward(tokens, 0));
    let last = floats(&model.forward_last(tokens, 0));

    // Last token logits from full should match forward_last
    let last_start = 2 * 8;
    for (a, b) in full[last_start..].iter().zip(last.iter()) {
        assert!((a - b).abs() < 1e-7, "forward_last mismatch: {a} vs {b}");
    }
}

#[test]
fn different_tokens_different_logits() {
    let model = make_test_model(1, false);
    let logits_a = floats(&model.forward(&[0], 0));
    let logits_b = floats(&model.forward(&[7], 0));

    assert!(
        logits_a.iter().zip(logits_b.iter()).any(|(a, b)| (a - b).abs() > 1e-4),
        "different tokens should produce different logits"
    );
}

#[test]
fn start_pos_offset() {
    // Verify that start_pos flows through to RoPE
    let model = make_test_model(1, false);
    let _logits_pos0 = floats(&model.forward(&[0, 1], 0));
    let logits_pos100 = floats(&model.forward(&[0, 1], 100));

    // With synthetic weights the difference may be small,
    // but the logits should at least be finite
    for (i, &v) in logits_pos100.iter().enumerate() {
        assert!(v.is_finite(), "logit[{i}] at pos 100 not finite: {v}");
    }
}

#[test]
fn model_debug_format() {
    let model = make_test_model(2, false);
    let debug = model.describe();
    assert!(debug.contains("TransformerModel"));
    assert!(debug.contains("vocab=8"));
    assert!(debug.contains("layers=2"));
    assert!(debug.contains("proj=linear"));
}

#[test]
fn debug_format_tied() {
    let model = make_test_model(1, true);
    let debug = model.describe();
    assert!(debug.contains("proj=tied"));
}

#[test]
fn forward_cached_single_token_shape() {
    let model = make_test_model(1, false);
    let mut cache = model.create_kv_cache(64);
    let logits = floats(&model.forward_cached(&[0], &mut cache));
    assert_eq!(logits.len(), 8); // vocab_size
    assert_eq!(cache.seq_len(), 1);
}

#[test]
fn forward_cached_prefill_shape() {
    let model = make_test_model(1, false);
    let mut cache = model.create_kv_cache(64);
    let logits = floats(&model.forward_cached(&[0, 1, 2], &mut cache));
    assert_eq!(logits.len(), 3 * 8);
    assert_eq!(cache.seq_len(), 3);
}

#[test]
fn forward_cached_incremental() {
    let model = make_test_model(1, false);
    let mut cache = model.create_kv_cache(64);

    // Prefill
    let _ = floats(&model.forward_cached(&[0, 1], &mut cache));
    assert_eq!(cache.seq_len(), 2);

    // Decode one token
    let logits = floats(&model.forward_cached(&[2], &mut cache));
    assert_eq!(logits.len(), 8);
    assert_eq!(cache.seq_len(), 3);

    // Decode another
    let logits2 = floats(&model.forward_cached(&[3], &mut cache));
    assert_eq!(logits2.len(), 8);
    assert_eq!(cache.seq_len(), 4);
}

#[test]
fn forward_cached_finite() {
    let model = make_test_model(2, false);
    let mut cache = model.create_kv_cache(64);

    let logits = floats(&model.forward_cached(&[0, 3, 7], &mut cache));
    for (i, &v) in logits.iter().enumerate() {
        assert!(v.is_finite(), "cached logit[{i}] not finite: {v}");
    }

    // Continue with single token
    let logits2 = floats(&model.forward_cached(&[1], &mut cache));
    for (i, &v) in logits2.iter().enumerate() {
        assert!(v.is_finite(), "cached decode logit[{i}] not finite: {v}");
    }
}

#[test]
fn create_kv_cache_correct_size() {
    let model = make_test_model(3, false);
    let cache = model.create_kv_cache(512);
    assert_eq!(cache.n_layers(), 3);
    assert_eq!(cache.seq_len(), 0);
}

#[test]
fn generate_returns_prompt_plus_tokens() {
    let model = make_test_model(1, false);
    let prompt = &[0u32, 1, 2];
    let output = model.generate(prompt, 5, SamplerConfig::greedy(), 42, None);

    // Should start with the prompt
    assert_eq!(&output[..3], prompt);
    // Should have generated up to 5 more tokens
    assert!(output.len() <= 8); // 3 + 5
    assert!(output.len() > 3); // at least one generated

    // All tokens should be valid
    for &tok in &output {
        assert!((tok as usize) < model.vocab_size());
    }
}

#[test]
fn generate_greedy_deterministic() {
    let model = make_test_model(1, false);
    let prompt = &[0u32, 1];

    let out1 = model.generate(prompt, 10, SamplerConfig::greedy(), 42, None);
    let out2 = model.generate(prompt, 10, SamplerConfig::greedy(), 99, None);
    assert_eq!(out1, out2, "greedy should be deterministic regardless of seed");
}

#[test]
fn generate_stop_token() {
    let model = make_test_model(1, false);
    let prompt = &[0u32];

    // Generate with a stop token — output should not contain the stop token
    // (we use token 7 as EOS; if the model happens to generate it, gen stops)
    let out = model.generate(prompt, 100, SamplerConfig::greedy(), 42, Some(7));
    assert!(!out[1..].contains(&7), "stop token should not appear in generated output");
}

#[test]
fn generate_same_seed_same_output() {
    let model = make_test_model(1, false);
    let prompt = &[0u32, 3];
    let config = SamplerConfig::top_k(4, F(0.8));

    let out1 = model.generate(prompt, 10, config.clone(), 42, None);
    let out2 = model.generate(prompt, 10, SamplerConfig::top_k(4, F(0.8)), 42, None);
    assert_eq!(out1, out2, "same seed should produce same output");
}

#[test]
fn generate_multi_layer_finite() {
    let model = make_test_model(3, false);
    let prompt = &[0u32, 1, 2];
    let output = model.generate(prompt, 5, SamplerConfig::greedy(), 1, None);
    assert!(output.len() > 3);
    for &tok in &output {
        assert!((tok as usize) < model.vocab_size());
    }
}

#[test]
fn generate_tied_embedding() {
    let model = make_test_model(1, true);
    let prompt = &[0u32, 1];
    let output = model.generate(prompt, 5, SamplerConfig::greedy(), 1, None);
    assert!(output.len() > 2);
    for &tok in &output {
        assert!((tok as usize) < model.vocab_size());
    }
}
