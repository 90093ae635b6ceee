use std::sync::Arc;
use ternary_rs::compute::scalar::ScalarBackend;
use ternary_rs::compute::ComputeBackend;
use ternary_rs::diagnostics::{
    attention_probe, l2_norm, mean, output_figures, probe_tokens, variance,
};
use ternary_rs::float_bits::{order_key, single_from_half};
use ternary_rs::layers::bitlinear::BitLinear;
use ternary_rs::layers::rope::RoPELayout;
use ternary_rs::layers::sampler::SamplerConfig;
use ternary_rs::layers::swiglu::GateActivation;
use ternary_rs::loader::{
    architecture, assemble, block_shape, check_block, gate_activation, output_source, rope_layout,
    tensor_name, BlockParts, BlockTensor, LoadError, ModelConfig, ModelParts, OutputParts,
    OutputSource, ScaledWeights, WeightFormat,
};
use ternary_rs::numeric::Real;
use ternary_rs::tensor::{FloatTensor, Ternary, TernaryTensor};
use ternary_rs::tokenizer::{TokenType, Tokenizer};

#[derive(Clone, Copy, Debug, PartialEq)]
struct F(f32);

impl Real for F {
    fn zero() -> Self {
        F(0.0)
    }

    fn one() -> Self {
        F(1.0)
    }

    fn lowest() -> Self {
        F(f32::NEG_INFINITY)
    }

    fn from_i32(n: i32) -> Self {
        F(n as f32)
    }

    fn from_usize(n: usize) -> Self {
        F(n as f32)
    }

    fn from_half(bits: u16) -> Self {
        F(f32::from_bits(single_from_half(bits)))
    }

    fn plus(self, other: Self) -> Self {
        F(self.0 + other.0)
    }

    fn minus(self, other: Self) -> Self {
        F(self.0 - other.0)
    }

    fn times(self, other: Self) -> Self {
        F(self.0 * other.0)
    }

    fn over(self, other: Self) -> Self {
        F(self.0 / other.0)
    }

    fn negate(self) -> Self {
        F(-self.0)
    }

    fn abs(self) -> Self {
        F(self.0.abs())
    }

    fn max(self, other: Self) -> Self {
        F(self.0.max(other.0))
    }

    fn sqrt(self) -> Self {
        F(self.0.sqrt())
    }

    fn exp(self) -> Self {
        F(self.0.exp())
    }

    fn sin(self) -> Self {
        F(self.0.sin())
    }

    fn cos(self) -> Self {
        F(self.0.cos())
    }

    fn power(self, exponent: Self) -> Self {
        F(self.0.powf(exponent.0))
    }

    fn round_to_i32(self) -> i32 {
        self.0.round() as i32
    }

    fn less(self, other: Self) -> bool {
        self.0 < other.0
    }

    fn at_most(self, other: Self) -> bool {
        self.0 <= other.0
    }

    fn order_key(self) -> i64 {
        order_key(self.0.to_bits()).unwrap()
    }
}

fn reals(xs: &[f32]) -> Vec<F> {
    xs.iter().map(|&x| F(x)).collect()
}

fn floats(xs: &[F]) -> Vec<f32> {
    xs.iter().map(|x| x.0).collect()
}

fn weights_from_i8(values: &[i8], rows: usize, cols: usize) -> TernaryTensor {
    let ternary: Vec<Ternary> = values
        .iter()
        .map(|&v| match v {
            -1 => Ternary::Neg,
            0 => Ternary::Zero,
            1 => Ternary::Pos,
            _ => panic!("not ternary"),
        })
        .collect();
    TernaryTensor::pack(&ternary, rows, cols)
}

const VOCAB: usize = 6;
const EMBED: usize = 8;

fn scaled(rows: usize, cols: usize) -> ScaledWeights<F> {
    let mut values = vec![0i8; rows * cols];
    for i in 0..rows {
        values[i * cols + i % cols] = if i % 3 == 2 { -1 } else { 1 };
    }
    ScaledWeights { weights: weights_from_i8(&values, rows, cols), scale: F(0.5) }
}

fn block(sub_norms: bool) -> BlockParts<F> {
    BlockParts {
        attn_q: scaled(EMBED, EMBED),
        attn_k: scaled(4, EMBED),
        attn_v: scaled(4, EMBED),
        attn_output: scaled(EMBED, EMBED),
        ffn_gate: scaled(12, EMBED),
        ffn_up: scaled(12, EMBED),
        ffn_down: scaled(EMBED, 12),
        attn_norm: reals(&[1.0; EMBED]),
        ffn_norm: reals(&[1.0; EMBED]),
        attn_sub_norm: if sub_norms { Some(reals(&[2.0; EMBED])) } else { None },
        ffn_sub_norm: if sub_norms { Some(reals(&[2.0; 12])) } else { None },
    }
}

fn parts(output: OutputParts<F>) -> ModelParts<F> {
    let data: Vec<f32> = (0..VOCAB * EMBED).map(|i| (i % 7) as f32 - 3.0).collect();
    ModelParts {
        embedding: FloatTensor::new(reals(&data), vec![VOCAB, EMBED]),
        blocks: vec![block(false), block(true)],
        output_norm: reals(&[1.0; EMBED]),
        output,
    }
}

fn config() -> ModelConfig<F> {
    ModelConfig {
        vocab_size: VOCAB as u32,
        embedding_dim: EMBED as u32,
        n_layers: 2,
        n_heads: 2,
        n_kv_heads: 1,
        intermediate_size: 12,
        context_length: 64,
        rope_theta: F(10000.0),
        rope_type: 0,
        rms_norm_eps: F(1e-5),
        hidden_act: "silu".to_string(),
        model_name: None,
    }
}

fn tokenizer(n: usize) -> Tokenizer {
    let vocab: Vec<String> = (0..n).map(|i| format!("t{i}")).collect();
    Tokenizer::from_parts(vocab, vec![0; n], vec![TokenType::Normal; n], 1, 2).unwrap()
}

fn backend() -> Arc<dyn ComputeBackend> {
    Arc::new(ScalarBackend)
}

fn load_error(parts: ModelParts<F>, config: ModelConfig<F>, vocab: usize) -> Option<LoadError> {
    assemble(parts, config, "llama", tokenizer(vocab), &backend()).err()
}

#[test]
fn a_model_is_assembled_from_its_tensors() {
    for output in [
        OutputParts::Tied,
        OutputParts::Ternary(scaled(VOCAB, EMBED)),
        OutputParts::Float(FloatTensor::new(reals(&[0.25; VOCAB * EMBED]), vec![VOCAB, EMBED])),
    ] {
        let loaded = match assemble(parts(output), config(), "bitnet-25", tokenizer(VOCAB), &backend()) {
            Ok(loaded) => loaded,
            Err(e) => panic!("{e:?}"),
        };
        assert_eq!(loaded.model.vocab_size(), VOCAB);
        assert_eq!(loaded.model.embed_dim(), EMBED);
        assert_eq!(loaded.model.n_layers(), 2);
        assert_eq!(loaded.tokenizer.vocab_size(), VOCAB);
        let logits = loaded.model.forward(&[0, 3, 5], 0);
        assert_eq!(logits.len(), 3 * VOCAB);
        assert!(floats(&logits).iter().all(|v| v.is_finite()));
        let text = loaded.model.generate(&[1, 2], 4, SamplerConfig::greedy(), 7, None);
        assert_eq!(text.len(), 6);
        assert_eq!(&text[..2], &[1, 2]);
    }
}

#[test]
fn misfits_are_told_apart() {
    assert_eq!(load_error(parts(OutputParts::Tied), config(), VOCAB), None);

    let mut c = config();
    c.n_kv_heads = 0;
    assert_eq!(load_error(parts(OutputParts::Tied), c, VOCAB), Some(LoadError::NoHeads));

    let mut p = parts(OutputParts::Tied);
    p.embedding = FloatTensor::new(reals(&[0.0; VOCAB * EMBED]), vec![VOCAB * EMBED]);
    assert_eq!(load_error(p, config(), VOCAB), Some(LoadError::Embedding));

    let mut p = parts(OutputParts::Tied);
    p.blocks.pop();
    assert_eq!(load_error(p, config(), VOCAB), Some(LoadError::BlockCount));

    let mut p = parts(OutputParts::Tied);
    p.blocks[1].ffn_down = scaled(EMBED, 11);
    assert_eq!(load_error(p, config(), VOCAB), Some(LoadError::Block(1)));

    let mut c = config();
    c.n_heads = 3;
    assert_eq!(load_error(parts(OutputParts::Tied), c, VOCAB), Some(LoadError::Block(0)));

    let mut p = parts(OutputParts::Tied);
    p.output_norm.push(F(1.0));
    assert_eq!(load_error(p, config(), VOCAB), Some(LoadError::OutputNorm));

    let p = parts(OutputParts::Ternary(scaled(VOCAB + 1, EMBED)));
    assert_eq!(load_error(p, config(), VOCAB), Some(LoadError::Output));

    assert_eq!(
        load_error(parts(OutputParts::Tied), config(), VOCAB + 1),
        Some(LoadError::Vocabulary)
    );
}

#[test]
fn tensor_names_follow_the_convention() {
    assert_eq!(tensor_name(0, BlockTensor::AttnQ), "blk.0.attn_q.weight");
    assert_eq!(tensor_name(29, BlockTensor::AttnOutput), "blk.29.attn_output.weight");
    assert_eq!(tensor_name(105, BlockTensor::FfnSubNorm), "blk.105.ffn_sub_norm.weight");
    assert_eq!(tensor_name(7, BlockTensor::AttnSubNorm), "blk.7.attn_sub_norm.weight");
}

#[test]
fn no_two_tensors_share_a_name() {
    let kinds = [
        BlockTensor::AttnQ,
        BlockTensor::AttnK,
        BlockTensor::AttnV,
        BlockTensor::AttnOutput,
        BlockTensor::FfnGate,
        BlockTensor::FfnUp,
        BlockTensor::FfnDown,
        BlockTensor::FfnSubNorm,
        BlockTensor::AttnNorm,
        BlockTensor::FfnNorm,
        BlockTensor::AttnSubNorm,
    ];
    let mut names: Vec<String> = Vec::new();
    for i in [0, 1, 9, 10, 11, 100] {
        for kind in kinds {
            let name = tensor_name(i, kind);
            assert!(!names.contains(&name), "{name} is taken");
            names.push(name);
        }
    }
    assert_eq!(names.len(), 66);
}

#[test]
fn architecture_decides_layout_and_activation() {
    assert_eq!(architecture(None), "llama");
    assert_eq!(architecture(Some("bitnet-b1.58")), "bitnet-b1.58");
    assert_eq!(rope_layout(2, "llama"), RoPELayout::Halved);
    assert_eq!(rope_layout(0, "bitnet-b1.58"), RoPELayout::Halved);
    assert_eq!(rope_layout(0, "llama"), RoPELayout::Interleaved);
    assert_eq!(gate_activation("relu2", "llama"), GateActivation::ReLU2);
    assert_eq!(gate_activation("squared_relu", "llama"), GateActivation::ReLU2);
    assert_eq!(gate_activation("relu_squared", "llama"), GateActivation::ReLU2);
    assert_eq!(gate_activation("silu", "bitnet"), GateActivation::ReLU2);
    assert_eq!(gate_activation("silu", "llama"), GateActivation::SiLU);
    assert_eq!(gate_activation("gelu", "bitnet"), GateActivation::SiLU);
}

#[test]
fn output_weights_are_read_by_their_format() {
    assert_eq!(output_source(None), OutputSource::Tied);
    assert_eq!(output_source(Some(WeightFormat::F32)), OutputSource::Float);
    assert_eq!(output_source(Some(WeightFormat::F16)), OutputSource::Float);
    assert_eq!(output_source(Some(WeightFormat::BF16)), OutputSource::Float);
    assert_eq!(output_source(Some(WeightFormat::Ternary)), OutputSource::Ternary);
}

#[test]
fn blocks_are_checked_against_the_heads() {
    let shape = block_shape(&config(), EMBED, "llama");
    assert_eq!(shape.head_dim, 4);
    assert!(check_block(&block(true), &shape));
    let mut b = block(true);
    b.attn_sub_norm = Some(reals(&[1.0; 3]));
    assert!(!check_block(&b, &shape));
    let mut odd = shape;
    odd.head_dim = 3;
    assert!(!check_block(&block(false), &odd));
}

#[test]
fn figures_of_numbers() {
    assert_eq!(l2_norm(&reals(&[3.0, 4.0])), F(5.0));
    assert_eq!(mean(&reals(&[1.0, 2.0, 6.0])), F(3.0));
    assert_eq!(variance(&reals(&[1.0, 2.0, 6.0])), F(14.0 / 3.0));
}

#[test]
fn probe_falls_back_to_the_start_token() {
    assert_eq!(probe_tokens(&[5, 6, 7], 1), (5, 6));
    assert_eq!(probe_tokens(&[5], 1), (5, 1));
    assert_eq!(probe_tokens(&[], 1), (1, 1));
}

#[test]
fn attention_probe_scores_both_layouts() {
    let mut identity = vec![0i8; 64];
    for i in 0..8 {
        identity[i * 8 + i] = 1;
    }
    let q = BitLinear::new(weights_from_i8(&identity, 8, 8), F(1.0));
    let k = BitLinear::new(weights_from_i8(&identity[..32], 4, 8), F(1.0));
    let a = reals(&[127.0, 0.0, 0.0, 0.0, 0.0, 0.0, 0.0, 0.0]);
    let b = reals(&[0.0, 127.0, 0.0, 0.0, 0.0, 0.0, 0.0, 0.0]);
    let probe = attention_probe(&q, &k, &a, &b, 4, 1, F(10000.0));
    assert_eq!((probe.head_dim, probe.kv_head_dim), (4, 4));
    assert_eq!(probe.scale, F(0.5));
    let square = 127.0 * 127.0 * 0.5;
    assert_eq!(floats(&probe.plain), [square, 0.0, 0.0, square]);
    // Neighbours rotate together: the second token turns by one radian.
    assert!((probe.interleaved[0].0 - square).abs() < 1e-2);
    assert!((probe.interleaved[1].0 + square * 1.0f32.sin()).abs() < 1.0);
    assert!((probe.interleaved[2].0 + square * 1.0f32.sin()).abs() < 1.0);
    // The halves rotate together: elements 0 and 1 belong to different pairs.
    assert!(probe.halved[1].0.abs() < 1e-2);
    assert!(probe.plain_variance.0 > 0.0);
}

#[test]
fn output_is_judged_head_by_head() {
    // Twenty columns make heads of one element.
    let f = output_figures(&reals(&[3.0, -4.0, 0.0]), 20);
    assert_eq!(f.l2, F(5.0));
    assert_eq!(f.max_abs, F(4.0));
    assert_eq!(floats(&f.head_norms), [3.0, 4.0, 0.0]);
    assert!((f.mean_norm.0 - 7.0 / 3.0).abs() < 1e-6);
    assert!((f.rms.0 - (25.0f32 / 3.0).sqrt()).abs() < 1e-6);
    // No more than twenty heads are looked at.
    let many = vec![1.0f32; 100];
    assert_eq!(output_figures(&reals(&many), 40).head_norms.len(), 20);
}
