//! The layers of a transformer.

pub mod attention;
pub mod attention_laws;
pub mod bitlinear;
pub mod causality;
pub mod decoding_laws;
pub mod determinism;
pub mod exact_laws;
pub mod gating_laws;
pub mod generate;
pub mod generation_laws;
pub mod kv_cache;
pub mod linear_laws;
pub mod model;
pub mod norm_laws;
pub mod reproducibility;
pub mod residual_laws;
pub mod rmsnorm;
pub mod rope;
pub mod sampler;
pub mod sampling_laws;
pub mod score_laws;
pub mod softmax;
pub mod swiglu;
pub mod transformer;
