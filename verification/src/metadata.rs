//! What a model file says about its tokenizer, as plain values.

use vstd::prelude::*;

verus! {

/// Why metadata could not be used.
#[derive(Debug)]
pub enum GgufError {
    /// A key that must be present is not.
    MissingMetadata(String),
    /// A key holds a value of another type.
    MetadataTypeMismatch { key: String, expected: String },
}

/// A metadata value that should be an array. An element of the wrong type
/// reads as `None`.
#[derive(Debug)]
pub enum ArrayField<T> {
    /// The key is absent.
    Missing,
    /// The key holds something else.
    NotArray,
    /// The elements.
    Items(Vec<Option<T>>),
}

/// The metadata that a tokenizer is built from.
#[derive(Debug)]
pub struct TokenizerMetadata {
    /// `tokenizer.ggml.model`.
    pub model: Option<String>,
    /// `tokenizer.ggml.pre`.
    pub pre: Option<String>,
    /// `tokenizer.ggml.tokens`.
    pub tokens: ArrayField<String>,
    /// `tokenizer.ggml.scores`, as bit patterns of single-precision numbers.
    pub scores: ArrayField<u32>,
    /// `tokenizer.ggml.token_type`.
    pub token_types: ArrayField<i32>,
    /// `tokenizer.ggml.merges`.
    pub merges: ArrayField<String>,
    /// `tokenizer.ggml.bos_token_id`.
    pub bos_token_id: Option<u32>,
    /// `tokenizer.ggml.eos_token_id`.
    pub eos_token_id: Option<u32>,
}

} // verus!
