//! Inference engine for transformers with ternary (1.58-bit) weights.
//!
//! Weights are packed four to a byte, activations are 8-bit integers, and the
//! matrix products between them are exact integer sums. The remaining
//! arithmetic is written against the [`numeric::Real`] trait, so that every layer
//! states which operations it performs, in which order and on which elements,
//! for whatever number type the program runs with.

pub mod chat;
pub mod compute;
pub mod diagnostics;
pub mod exact;
pub mod float_bits;
pub mod i2s;
pub mod layers;
pub mod loader;
pub mod metadata;
pub mod numeric;
pub mod ops;
pub mod rows;
pub mod sort;
pub mod tensor;
pub mod text;
pub mod tokenizer;

pub use loader::{LoadedModel, ModelConfig};
pub use metadata::GgufError;
pub use tensor::{ActivationTensor, Ternary, TernaryTensor};
pub use tokenizer::Tokenizer;
