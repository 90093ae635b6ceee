//! From the tensors of a model file to a running model.
//!
//! A model file names its tensors: `token_embd.weight` is the embedding table,
//! `output_norm.weight` the last normalization, `output.weight` the output
//! projection (the embedding table serves where it is absent), and
//! `blk.{i}.*.weight` the parts of block `i`. This module names the tensors to
//! read, decides how they are to be used, checks that they fit together and
//! assembles the model.

use crate::compute::ComputeBackend;
use crate::layers::attention::MultiHeadAttention;
use crate::layers::bitlinear::{BitLinear, given};
use crate::layers::model::{OutputProjection, TransformerModel, is_matrix};
use crate::layers::rmsnorm::RmsNorm;
use crate::layers::rope::{RoPELayout, is_frequency};
use crate::layers::swiglu::{GateActivation, SwiGLU};
use crate::layers::transformer::TransformerBlock;
use crate::numeric::{Real, is_positive};
use crate::ops::matmul::SAFE_QUANTIZED_COLS;
use crate::tensor::{FloatTensor, TernaryTensor};
use crate::text::{
    concatenated, contains_text, decimal, decimal_text, decimals_are_distinct, lemma_decimal_digits,
    same_text, text_contains,
};
use crate::tokenizer::Tokenizer;
use std::sync::Arc;
use vstd::prelude::*;
use vstd::string::*;

verus! {

/// The hyperparameters of a model.
#[derive(Debug)]
pub struct ModelConfig<T: Real> {
    pub vocab_size: u32,
    pub embedding_dim: u32,
    pub n_layers: u32,
    pub n_heads: u32,
    pub n_kv_heads: u32,
    pub intermediate_size: u32,
    pub context_length: u32,
    pub rope_theta: T,
    pub rope_type: u32,
    pub rms_norm_eps: T,
    pub hidden_act: String,
    pub model_name: Option<String>,
}

/// Ternary weights and the scale that belongs to them.
#[derive(Debug)]
pub struct ScaledWeights<T: Real> {
    pub weights: TernaryTensor,
    pub scale: T,
}

/// The tensors of one block.
#[derive(Debug)]
pub struct BlockParts<T: Real> {
    pub attn_q: ScaledWeights<T>,
    pub attn_k: ScaledWeights<T>,
    pub attn_v: ScaledWeights<T>,
    pub attn_output: ScaledWeights<T>,
    pub ffn_gate: ScaledWeights<T>,
    pub ffn_up: ScaledWeights<T>,
    pub ffn_down: ScaledWeights<T>,
    pub attn_norm: Vec<T>,
    pub ffn_norm: Vec<T>,
    pub attn_sub_norm: Option<Vec<T>>,
    pub ffn_sub_norm: Option<Vec<T>>,
}

/// The output projection as the file holds it.
#[derive(Debug)]
pub enum OutputParts<T: Real> {
    /// Numbers.
    Float(FloatTensor<T>),
    /// Ternary weights.
    Ternary(ScaledWeights<T>),
    /// Nothing: the embedding table serves.
    Tied,
}

/// The tensors of a model.
#[derive(Debug)]
pub struct ModelParts<T: Real> {
    pub embedding: FloatTensor<T>,
    pub blocks: Vec<BlockParts<T>>,
    pub output_norm: Vec<T>,
    pub output: OutputParts<T>,
}

/// A model ready for inference.
pub struct LoadedModel<T: Real> {
    pub model: TransformerModel<T>,
    pub tokenizer: Tokenizer,
    pub config: ModelConfig<T>,
}

/// Why tensors do not make a model.
#[derive(Debug, Clone, Copy, PartialEq, Eq, Structural)]
pub enum LoadError {
    /// There are no attention heads, or no key heads.
    NoHeads,
    /// The embedding table is not a matrix.
    Embedding,
    /// There are no blocks, or not as many as the hyperparameters say.
    BlockCount,
    /// The tensors of this block do not fit together.
    Block(usize),
    /// The last normalization has another length than the embeddings.
    OutputNorm,
    /// The output projection has other dimensions than the embedding table.
    Output,
    /// The tokenizer has another vocabulary size than the embedding table.
    Vocabulary,
}

/// How the numbers of a tensor are stored.
#[derive(Debug, Clone, Copy, PartialEq, Eq, Structural)]
pub enum WeightFormat {
    F32,
    F16,
    BF16,
    /// Two-bit weights, in any arrangement.
    Ternary,
}

/// How the output projection is to be read.
#[derive(Debug, Clone, Copy, PartialEq, Eq, Structural)]
pub enum OutputSource {
    Float,
    Ternary,
    Tied,
}

/// Decide how to read the output projection, given the format of
/// `output.weight`, if the file has it.
pub fn output_source(format: Option<WeightFormat>) -> (s: OutputSource)
    ensures
        s == match format {
            Some(WeightFormat::Ternary) => OutputSource::Ternary,
            Some(_) => OutputSource::Float,
            None => OutputSource::Tied,
        },
{
    match format {
        Some(WeightFormat::F32) => OutputSource::Float,
        Some(WeightFormat::F16) => OutputSource::Float,
        Some(WeightFormat::BF16) => OutputSource::Float,
        Some(WeightFormat::Ternary) => OutputSource::Ternary,
        None => OutputSource::Tied,
    }
}

/// The tensors of a block, in the order in which they are read.
#[derive(Debug, Clone, Copy, PartialEq, Eq, Structural)]
pub enum BlockTensor {
    AttnQ,
    AttnK,
    AttnV,
    AttnOutput,
    FfnGate,
    FfnUp,
    FfnDown,
    FfnSubNorm,
    AttnNorm,
    FfnNorm,
    AttnSubNorm,
}

impl BlockTensor {
    /// What a tensor is called within its block.
    pub open spec fn spec_key(&self) -> Seq<char> {
        match *self {
            BlockTensor::AttnQ => "attn_q"@,
            BlockTensor::AttnK => "attn_k"@,
            BlockTensor::AttnV => "attn_v"@,
            BlockTensor::AttnOutput => "attn_output"@,
            BlockTensor::FfnGate => "ffn_gate"@,
            BlockTensor::FfnUp => "ffn_up"@,
            BlockTensor::FfnDown => "ffn_down"@,
            BlockTensor::FfnSubNorm => "ffn_sub_norm"@,
            BlockTensor::AttnNorm => "attn_norm"@,
            BlockTensor::FfnNorm => "ffn_norm"@,
            BlockTensor::AttnSubNorm => "attn_sub_norm"@,
        }
    }

    /// What a tensor is called within its block.
    pub fn key(&self) -> (s: &str)
        ensures
            s@ == self.spec_key(),
    {
        match *self {
            BlockTensor::AttnQ => "attn_q",
            BlockTensor::AttnK => "attn_k",
            BlockTensor::AttnV => "attn_v",
            BlockTensor::AttnOutput => "attn_output",
            BlockTensor::FfnGate => "ffn_gate",
            BlockTensor::FfnUp => "ffn_up",
            BlockTensor::FfnDown => "ffn_down",
            BlockTensor::FfnSubNorm => "ffn_sub_norm",
            BlockTensor::AttnNorm => "attn_norm",
            BlockTensor::FfnNorm => "ffn_norm",
            BlockTensor::AttnSubNorm => "attn_sub_norm",
        }
    }
}

/// The name of a tensor of block `i`.
pub open spec fn block_tensor_name(i: nat, tensor: BlockTensor) -> Seq<char> {
    "blk."@ + decimal(i) + "."@ + tensor.spec_key() + ".weight"@
}

proof fn lemma_keys_are_distinct(a: BlockTensor, b: BlockTensor)
    requires
        a.spec_key() == b.spec_key(),
    ensures
        a == b,
{
    reveal_strlit("attn_q");
    reveal_strlit("attn_k");
    reveal_strlit("attn_v");
    reveal_strlit("attn_output");
    reveal_strlit("ffn_gate");
    reveal_strlit("ffn_up");
    reveal_strlit("ffn_down");
    reveal_strlit("ffn_sub_norm");
    reveal_strlit("attn_norm");
    reveal_strlit("ffn_norm");
    reveal_strlit("attn_sub_norm");
    let (s, t) = (a.spec_key(), b.spec_key());
    assert(s.len() == t.len() && s[0] == t[0] && s[4] == t[4] && s[5] == t[5]);
}

/// Every tensor of every block has a name of its own.
pub proof fn tensor_names_are_distinct(i: nat, a: BlockTensor, j: nat, b: BlockTensor)
    requires
        block_tensor_name(i, a) == block_tensor_name(j, b),
    ensures
        i == j,
        a == b,
{
    let s = block_tensor_name(i, a);
    let (di, dj) = (decimal(i), decimal(j));
    let (m, n) = (di.len() as int, dj.len() as int);
    reveal_strlit("blk.");
    reveal_strlit(".");
    lemma_decimal_digits(i);
    lemma_decimal_digits(j);
    assert(forall|k: int| 0 <= k < di.len() ==> s[4 + k] == #[trigger] di[k]);
    assert(forall|k: int| 0 <= k < dj.len() ==> s[4 + k] == #[trigger] dj[k]);
    assert(s[4 + m] == '.' && s[4 + n] == '.');
    if m < n {
        assert(s[4 + m] == dj[m]);
    }
    if n < m {
        assert(s[4 + n] == di[n]);
    }
    assert(di =~= dj);
    decimals_are_distinct(i, j);
    let tail = ".weight"@.len();
    assert(s.len() == 5 + m + a.spec_key().len() + tail);
    assert(s.len() == 5 + n + b.spec_key().len() + tail);
    assert(a.spec_key() =~= s.subrange(5 + m, 5 + m + a.spec_key().len()));
    assert(b.spec_key() =~= s.subrange(5 + m, 5 + m + b.spec_key().len()));
    lemma_keys_are_distinct(a, b);
}

/// The name of a tensor of block `i`.
pub fn tensor_name(i: usize, tensor: BlockTensor) -> (s: String)
    ensures
        s@ == block_tensor_name(i as nat, tensor),
{
    let s: String = concatenated("blk.", decimal_text(i).as_str());
    let s: String = concatenated(s.as_str(), ".");
    let s: String = concatenated(s.as_str(), tensor.key());
    concatenated(s.as_str(), ".weight")
}

/// The architecture that a file names; `llama` if it names none.
pub open spec fn architecture_of(arch: Option<Seq<char>>) -> Seq<char> {
    match arch {
        Some(name) => name,
        None => "llama"@,
    }
}

/// The architecture that a file names; `llama` if it names none.
pub fn architecture(arch: Option<&str>) -> (name: &str)
    ensures
        name@ == architecture_of(
            match arch {
                Some(name) => Some(name@),
                None => None,
            },
        ),
{
    match arch {
        Some(name) => name,
        None => "llama",
    }
}

/// Which elements are rotated together. BitNet models pair the two halves of a
/// head, whatever their file says.
pub open spec fn layout_for(rope_type: u32, arch: Seq<char>) -> RoPELayout {
    if rope_type == 2 || contains_text(arch, "bitnet"@) {
        RoPELayout::Halved
    } else {
        RoPELayout::Interleaved
    }
}

/// Choose which elements are rotated together.
pub fn rope_layout(rope_type: u32, arch: &str) -> (layout: RoPELayout)
    ensures
        layout == layout_for(rope_type, arch@),
{
    if rope_type == 2 || text_contains(arch, "bitnet") {
        RoPELayout::Halved
    } else {
        RoPELayout::Interleaved
    }
}

/// The gating function with a given name. BitNet models that name SiLU, which
/// is what files say by default, use squared ReLU.
pub open spec fn activation_for(hidden_act: Seq<char>, arch: Seq<char>) -> GateActivation {
    if hidden_act == "relu2"@ || hidden_act == "relu_squared"@ || hidden_act == "squared_relu"@ {
        GateActivation::ReLU2
    } else if hidden_act == "silu"@ && contains_text(arch, "bitnet"@) {
        GateActivation::ReLU2
    } else {
        GateActivation::SiLU
    }
}

/// Choose the gating function.
pub fn gate_activation(hidden_act: &str, arch: &str) -> (act: GateActivation)
    ensures
        act == activation_for(hidden_act@, arch@),
{
    if same_text(hidden_act, "relu2") || same_text(hidden_act, "relu_squared") || same_text(
        hidden_act,
        "squared_relu",
    ) {
        GateActivation::ReLU2
    } else if same_text(hidden_act, "silu") && text_contains(arch, "bitnet") {
        GateActivation::ReLU2
    } else {
        GateActivation::SiLU
    }
}

/// The shape of the attention layers and what else blocks have in common.
#[derive(Debug, Clone, Copy)]
pub struct BlockShape<T: Real> {
    pub embed_dim: usize,
    pub n_heads: usize,
    pub n_kv_heads: usize,
    pub head_dim: usize,
    pub rope_theta: T,
    pub layout: RoPELayout,
    pub activation: GateActivation,
    pub eps: T,
}

/// The weights have given dimensions, and few enough columns to accumulate in
/// 32 bits.
pub open spec fn has_dims<T: Real>(w: ScaledWeights<T>, rows: int, cols: int) -> bool {
    w.weights.spec_rows() == rows && w.weights.spec_cols() == cols && cols <= SAFE_QUANTIZED_COLS
}

/// The weights of a block are stored in full.
pub open spec fn block_is_stored<T: Real>(b: BlockParts<T>) -> bool {
    &&& b.attn_q.weights.wf()
    &&& b.attn_k.weights.wf()
    &&& b.attn_v.weights.wf()
    &&& b.attn_output.weights.wf()
    &&& b.ffn_gate.weights.wf()
    &&& b.ffn_up.weights.wf()
    &&& b.ffn_down.weights.wf()
}

/// The tensors of a model are stored in full.
pub open spec fn is_stored<T: Real>(parts: ModelParts<T>) -> bool {
    &&& parts.embedding.wf()
    &&& forall|i: int| 0 <= i < parts.blocks@.len() ==> block_is_stored(#[trigger] parts.blocks@[i])
    &&& match parts.output {
        OutputParts::Float(tensor) => tensor.wf(),
        OutputParts::Ternary(w) => w.weights.wf(),
        OutputParts::Tied => true,
    }
}

/// The tensors of a block fit together and fit the heads.
pub open spec fn block_fits<T: Real>(b: BlockParts<T>, shape: BlockShape<T>) -> bool {
    let q_dim = shape.n_heads * shape.head_dim;
    let kv_dim = shape.n_kv_heads * shape.head_dim;
    let embed = shape.embed_dim as int;
    let hidden = b.ffn_gate.weights.spec_rows() as int;
    &&& shape.n_heads % shape.n_kv_heads == 0
    &&& shape.head_dim > 0
    &&& shape.head_dim % 2 == 0
    &&& has_dims(b.attn_q, q_dim, embed)
    &&& has_dims(b.attn_k, kv_dim, embed)
    &&& has_dims(b.attn_v, kv_dim, embed)
    &&& has_dims(b.attn_output, embed, q_dim)
    &&& has_dims(b.ffn_gate, hidden, embed)
    &&& has_dims(b.ffn_up, hidden, embed)
    &&& has_dims(b.ffn_down, embed, hidden)
    &&& b.attn_norm@.len() == embed
    &&& b.ffn_norm@.len() == embed
    &&& (b.attn_sub_norm matches Some(w) ==> w@.len() == q_dim)
    &&& (b.ffn_sub_norm matches Some(w) ==> w@.len() == hidden)
}

/// A layer computes with given weights on a given backend.
pub open spec fn is_layer<T: Real>(
    l: BitLinear<T>,
    w: ScaledWeights<T>,
    backend: &Arc<dyn ComputeBackend>,
) -> bool {
    &&& l.spec_weights() == w.weights
    &&& l.spec_weight_scale() == w.scale
    &&& l.spec_backend() == given(*backend)
}

/// A layer normalizes with given weights.
pub open spec fn is_norm<T: Real>(n: RmsNorm<T>, weight: Seq<T>, eps: T) -> bool {
    n.spec_weight() == weight && n.spec_eps() == eps
}

/// A layer normalizes with given weights, or is absent with them.
pub open spec fn is_optional_norm<T: Real>(
    n: Option<RmsNorm<T>>,
    weight: Option<Vec<T>>,
    eps: T,
) -> bool {
    match weight {
        Some(w) => n matches Some(norm) && is_norm(norm, w@, eps),
        None => n is None,
    }
}

/// A block is made of given tensors.
pub open spec fn is_block<T: Real>(
    block: TransformerBlock<T>,
    b: BlockParts<T>,
    shape: BlockShape<T>,
    backend: &Arc<dyn ComputeBackend>,
) -> bool {
    let attention = block.spec_attention();
    let ffn = block.spec_ffn();
    &&& is_layer(attention.spec_q_proj(), b.attn_q, backend)
    &&& is_layer(attention.spec_k_proj(), b.attn_k, backend)
    &&& is_layer(attention.spec_v_proj(), b.attn_v, backend)
    &&& is_layer(attention.spec_o_proj(), b.attn_output, backend)
    &&& attention.spec_n_heads() == shape.n_heads
    &&& attention.spec_n_kv_heads() == shape.n_kv_heads
    &&& attention.spec_head_dim() == shape.head_dim
    &&& attention.spec_rope().spec_layout() == shape.layout
    &&& forall|i: int|
        0 <= i < attention.spec_rope().spec_freqs().len() ==> is_frequency(
            shape.rope_theta,
            shape.head_dim,
            i as usize,
            #[trigger] attention.spec_rope().spec_freqs()[i],
        )
    &&& is_optional_norm(attention.spec_o_sub_norm(), b.attn_sub_norm, shape.eps)
    &&& is_layer(ffn.spec_gate(), b.ffn_gate, backend)
    &&& is_layer(ffn.spec_up(), b.ffn_up, backend)
    &&& is_layer(ffn.spec_down(), b.ffn_down, backend)
    &&& ffn.spec_activation() == shape.activation
    &&& is_optional_norm(ffn.spec_sub_norm(), b.ffn_sub_norm, shape.eps)
    &&& is_norm(block.spec_attn_norm(), b.attn_norm@, shape.eps)
    &&& is_norm(block.spec_ffn_norm(), b.ffn_norm@, shape.eps)
}

/// Whether weights have given dimensions.
fn check_dims<T: Real>(w: &ScaledWeights<T>, rows: usize, cols: usize) -> (r: bool)
    ensures
        r == has_dims(*w, rows as int, cols as int),
{
    w.weights.rows() == rows && w.weights.cols() == cols && cols <= SAFE_QUANTIZED_COLS
}

/// Whether the tensors of a block fit together and fit the heads.
pub fn check_block<T: Real>(b: &BlockParts<T>, shape: &BlockShape<T>) -> (r: bool)
    requires
        shape.n_kv_heads > 0,
    ensures
        r == block_fits(*b, *shape),
{
    if shape.n_heads % shape.n_kv_heads != 0 || shape.head_dim == 0 || shape.head_dim % 2 != 0 {
        return false;
    }
    let q_rows: usize = b.attn_q.weights.rows();
    let kv_rows: usize = b.attn_k.weights.rows();
    let hidden: usize = b.ffn_gate.weights.rows();
    let q_dim: usize = match shape.n_heads.checked_mul(shape.head_dim) {
        Some(n) => n,
        None => {
            return false;
        },
    };
    let kv_dim: usize = match shape.n_kv_heads.checked_mul(shape.head_dim) {
        Some(n) => n,
        None => {
            return false;
        },
    };
    let attn_sub_norm_fits: bool = match &b.attn_sub_norm {
        Some(w) => w.len() == q_dim,
        None => true,
    };
    let ffn_sub_norm_fits: bool = match &b.ffn_sub_norm {
        Some(w) => w.len() == hidden,
        None => true,
    };
    check_dims(&b.attn_q, q_dim, shape.embed_dim) && check_dims(&b.attn_k, kv_dim, shape.embed_dim)
        && check_dims(&b.attn_v, kv_dim, shape.embed_dim) && check_dims(
        &b.attn_output,
        shape.embed_dim,
        q_dim,
    ) && check_dims(&b.ffn_gate, hidden, shape.embed_dim) && check_dims(
        &b.ffn_up,
        hidden,
        shape.embed_dim,
    ) && check_dims(&b.ffn_down, shape.embed_dim, hidden) && b.attn_norm.len() == shape.embed_dim
        && b.ffn_norm.len() == shape.embed_dim && attn_sub_norm_fits && ffn_sub_norm_fits
}

fn layer<T: Real>(w: ScaledWeights<T>, backend: &Arc<dyn ComputeBackend>) -> (l: BitLinear<T>)
    requires
        w.weights.wf(),
        w.weights.spec_cols() <= SAFE_QUANTIZED_COLS,
    ensures
        l.wf(),
        is_layer(l, w, backend),
{
    BitLinear::with_shared_backend(w.weights, w.scale, backend)
}

fn optional_norm<T: Real>(weight: Option<Vec<T>>, eps: T) -> (n: Option<RmsNorm<T>>)
    ensures
        is_optional_norm(n, weight, eps),
{
    match weight {
        Some(w) => Some(RmsNorm::new(w, eps)),
        None => None,
    }
}

/// Make a block of its tensors.
pub fn assemble_block<T: Real>(
    b: BlockParts<T>,
    shape: &BlockShape<T>,
    backend: &Arc<dyn ComputeBackend>,
) -> (block: TransformerBlock<T>)
    requires
        shape.n_heads > 0,
        shape.n_kv_heads > 0,
        block_is_stored(b),
        block_fits(b, *shape),
        is_positive(shape.rope_theta),
    ensures
        block.wf(),
        block.spec_embed_dim() == shape.embed_dim,
        is_block(block, b, *shape, backend),
{
    let attention: MultiHeadAttention<T> = MultiHeadAttention::with_rope_layout(
        layer(b.attn_q, backend),
        layer(b.attn_k, backend),
        layer(b.attn_v, backend),
        layer(b.attn_output, backend),
        shape.n_heads,
        shape.n_kv_heads,
        shape.head_dim,
        shape.rope_theta,
        shape.layout,
    );
    let gate: BitLinear<T> = layer(b.ffn_gate, backend);
    let up: BitLinear<T> = layer(b.ffn_up, backend);
    let down: BitLinear<T> = layer(b.ffn_down, backend);
    let ffn: SwiGLU<T> = match optional_norm(b.ffn_sub_norm, shape.eps) {
        Some(norm) => SwiGLU::with_sub_norm_and_activation(gate, up, down, norm, shape.activation),
        None => SwiGLU::with_activation(gate, up, down, shape.activation),
    };
    TransformerBlock::with_sub_norms(
        RmsNorm::new(b.attn_norm, shape.eps),
        attention,
        optional_norm(b.attn_sub_norm, shape.eps),
        RmsNorm::new(b.ffn_norm, shape.eps),
        ffn,
    )
}

/// What the blocks of a model have in common, given the length of its
/// embeddings.
pub open spec fn shape_of<T: Real>(
    config: ModelConfig<T>,
    embed_dim: usize,
    arch: Seq<char>,
) -> BlockShape<T> {
    BlockShape {
        embed_dim,
        n_heads: config.n_heads as usize,
        n_kv_heads: config.n_kv_heads as usize,
        head_dim: (config.embedding_dim / config.n_heads) as usize,
        rope_theta: config.rope_theta,
        layout: layout_for(config.rope_type, arch),
        activation: activation_for(config.hidden_act@, arch),
        eps: config.rms_norm_eps,
    }
}

/// Work out what the blocks of a model have in common.
pub fn block_shape<T: Real>(config: &ModelConfig<T>, embed_dim: usize, arch: &str) -> (shape:
    BlockShape<T>)
    requires
        config.n_heads > 0,
    ensures
        shape == shape_of(*config, embed_dim, arch@),
{
    BlockShape {
        embed_dim,
        n_heads: config.n_heads as usize,
        n_kv_heads: config.n_kv_heads as usize,
        head_dim: (config.embedding_dim / config.n_heads) as usize,
        rope_theta: config.rope_theta,
        layout: rope_layout(config.rope_type, arch),
        activation: gate_activation(config.hidden_act.as_str(), arch),
        eps: config.rms_norm_eps,
    }
}

/// The first block from `i` on whose tensors do not fit together.
pub open spec fn first_misfit<T: Real>(
    blocks: Seq<BlockParts<T>>,
    shape: BlockShape<T>,
    i: int,
) -> Option<usize>
    decreases blocks.len() - i,
{
    if i >= blocks.len() {
        None
    } else if !block_fits(blocks[i], shape) {
        Some(i as usize)
    } else {
        first_misfit(blocks, shape, i + 1)
    }
}

/// The output projection has the dimensions of the embedding table.
pub open spec fn output_fits<T: Real>(output: OutputParts<T>, vocab: int, embed: int) -> bool {
    match output {
        OutputParts::Float(tensor) => is_matrix(tensor, vocab, embed),
        OutputParts::Ternary(w) => has_dims(w, vocab, embed),
        OutputParts::Tied => true,
    }
}

/// The first reason why tensors do not make a model, if there is one.
pub open spec fn misfit<T: Real>(
    parts: ModelParts<T>,
    config: ModelConfig<T>,
    arch: Seq<char>,
    vocab_size: nat,
) -> Option<LoadError> {
    let shape = parts.embedding.spec_shape();
    if config.n_heads == 0 || config.n_kv_heads == 0 {
        Some(LoadError::NoHeads)
    } else if shape.len() != 2 {
        Some(LoadError::Embedding)
    } else if parts.blocks@.len() == 0 || parts.blocks@.len() != config.n_layers {
        Some(LoadError::BlockCount)
    } else if let Some(i) = first_misfit(
        parts.blocks@,
        shape_of(config, shape[1], arch),
        0,
    ) {
        Some(LoadError::Block(i))
    } else if parts.output_norm@.len() != shape[1] {
        Some(LoadError::OutputNorm)
    } else if !output_fits(parts.output, shape[0] as int, shape[1] as int) {
        Some(LoadError::Output)
    } else if vocab_size != shape[0] {
        Some(LoadError::Vocabulary)
    } else {
        None
    }
}

/// The output projection is made of given tensors.
pub open spec fn is_output<T: Real>(
    proj: OutputProjection<T>,
    output: OutputParts<T>,
    backend: &Arc<dyn ComputeBackend>,
) -> bool {
    match output {
        OutputParts::Float(tensor) => proj == OutputProjection::Float(tensor),
        OutputParts::Ternary(w) => proj matches OutputProjection::Linear(l) && is_layer(
            l,
            w,
            backend,
        ),
        OutputParts::Tied => proj is TiedEmbedding,
    }
}

/// A model is made of given tensors.
pub open spec fn is_model<T: Real>(
    model: TransformerModel<T>,
    parts: ModelParts<T>,
    shape: BlockShape<T>,
    backend: &Arc<dyn ComputeBackend>,
) -> bool {
    &&& model.spec_embedding() == parts.embedding
    &&& model.spec_blocks().len() == parts.blocks@.len()
    &&& forall|i: int|
        0 <= i < parts.blocks@.len() ==> is_block(
            #[trigger] model.spec_blocks()[i],
            parts.blocks@[i],
            shape,
            backend,
        )
    &&& is_norm(model.spec_final_norm(), parts.output_norm@, shape.eps)
    &&& is_output(model.spec_output_proj(), parts.output, backend)
}

/// Find the first block whose tensors do not fit together.
fn find_misfit<T: Real>(blocks: &Vec<BlockParts<T>>, shape: &BlockShape<T>) -> (r: Option<usize>)
    requires
        shape.n_kv_heads > 0,
    ensures
        r == first_misfit(blocks@, *shape, 0),
        r is None ==> forall|i: int|
            0 <= i < blocks@.len() ==> block_fits(#[trigger] blocks@[i], *shape),
{
    let mut i: usize = 0;
    while i < blocks.len()
        invariant
            shape.n_kv_heads > 0,
            i <= blocks@.len(),
            first_misfit(blocks@, *shape, 0) == first_misfit(blocks@, *shape, i as int),
            forall|j: int| 0 <= j < i ==> block_fits(#[trigger] blocks@[j], *shape),
        decreases blocks@.len() - i,
    {
        if !check_block(&blocks[i], shape) {
            return Some(i);
        }
        i += 1;
    }
    None
}

/// Whether the output projection has the dimensions of the embedding table.
fn check_output<T: Real>(output: &OutputParts<T>, vocab: usize, embed: usize) -> (r: bool)
    requires
        match *output {
            OutputParts::Float(tensor) => tensor.wf(),
            _ => true,
        },
    ensures
        r == output_fits(*output, vocab as int, embed as int),
{
    match output {
        OutputParts::Float(tensor) => tensor.shape().len() == 2 && tensor.shape()[0] == vocab
            && tensor.shape()[1] == embed,
        OutputParts::Ternary(w) => check_dims(w, vocab, embed),
        OutputParts::Tied => true,
    }
}

/// Make a model of its tensors, its hyperparameters and its tokenizer.
pub fn assemble<T: Real>(
    parts: ModelParts<T>,
    config: ModelConfig<T>,
    arch: &str,
    tokenizer: Tokenizer,
    backend: &Arc<dyn ComputeBackend>,
) -> (r: Result<LoadedModel<T>, LoadError>)
    requires
        is_stored(parts),
        is_positive(config.rope_theta),
    ensures
        match misfit(parts, config, arch@, tokenizer.spec_vocab().len()) {
            Some(e) => r == Err::<LoadedModel<T>, LoadError>(e),
            None => r matches Ok(loaded) && {
                &&& loaded.model.wf()
                &&& loaded.model.has_uniform_heads()
                &&& loaded.model.spec_vocab_size() == loaded.tokenizer.spec_vocab().len()
                &&& is_model(
                    loaded.model,
                    parts,
                    shape_of(config, parts.embedding.spec_shape()[1], arch@),
                    backend,
                )
                &&& loaded.tokenizer == tokenizer
                &&& loaded.config == config
            },
        },
{
    if config.n_heads == 0 || config.n_kv_heads == 0 {
        return Err(LoadError::NoHeads);
    }
    if parts.embedding.shape().len() != 2 {
        return Err(LoadError::Embedding);
    }
    let vocab: usize = parts.embedding.shape()[0];
    let embed: usize = parts.embedding.shape()[1];
    let n: usize = parts.blocks.len();
    if n == 0 || n as u64 != config.n_layers as u64 {
        return Err(LoadError::BlockCount);
    }
    let shape: BlockShape<T> = block_shape(&config, embed, arch);
    if let Some(i) = find_misfit(&parts.blocks, &shape) {
        return Err(LoadError::Block(i));
    }
    if parts.output_norm.len() != embed {
        return Err(LoadError::OutputNorm);
    }
    if !check_output(&parts.output, vocab, embed) {
        return Err(LoadError::Output);
    }
    if tokenizer.vocab_size() != vocab {
        return Err(LoadError::Vocabulary);
    }
    let ghost all = parts.blocks@;
    let mut rest: Vec<BlockParts<T>> = parts.blocks;
    let mut blocks: Vec<TransformerBlock<T>> = Vec::new();
    let mut i: usize = 0;
    while i < n
        invariant
            shape.n_heads > 0,
            shape.n_kv_heads > 0,
            is_positive(shape.rope_theta),
            n == all.len(),
            i <= n,
            rest@ == all.skip(i as int),
            forall|j: int| 0 <= j < n ==> block_is_stored(#[trigger] all[j]) && block_fits(
                all[j],
                shape,
            ),
            blocks@.len() == i,
            forall|j: int|
                0 <= j < i ==> {
                    &&& (#[trigger] blocks@[j]).wf()
                    &&& blocks@[j].spec_embed_dim() == shape.embed_dim
                    &&& is_block(blocks@[j], all[j], shape, backend)
                },
        decreases n - i,
    {
        assert(rest@[0] == all[i as int]);
        let part: BlockParts<T> = rest.remove(0);
        assert(rest@ =~= all.skip(i + 1));
        blocks.push(assemble_block(part, &shape, backend));
        i += 1;
    }
    let final_norm: RmsNorm<T> = RmsNorm::new(parts.output_norm, shape.eps);
    let output_proj: OutputProjection<T> = match parts.output {
        OutputParts::Float(tensor) => OutputProjection::Float(tensor),
        OutputParts::Ternary(w) => OutputProjection::Linear(layer(w, backend)),
        OutputParts::Tied => OutputProjection::TiedEmbedding,
    };
    let model: TransformerModel<T> = TransformerModel::new(
        parts.embedding,
        blocks,
        final_norm,
        output_proj,
    );
    Ok(LoadedModel { model, tokenizer, config })
}

/// A model whose embedding table has the size of its tokenizer's vocabulary, as
/// every assembled model's has, knows all tokens of every text.
pub proof fn encoded_texts_are_known<T: Real>(loaded: LoadedModel<T>, text: Seq<char>)
    requires
        loaded.tokenizer.wf(),
        loaded.model.spec_vocab_size() == loaded.tokenizer.spec_vocab().len(),
    ensures
        loaded.model.knows(loaded.tokenizer.encoded(text)),
{
    let tokens = loaded.tokenizer.encoded(text);
    assert forall|i: int| 0 <= i < tokens.len() implies (#[trigger] tokens[i])
        < loaded.model.spec_vocab_size() by {
        loaded.tokenizer.encoded_tokens_are_in_vocabulary(text, i);
    }
}

} // verus!
