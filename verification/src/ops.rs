//! Kernels over packed ternary weights, and activation quantization.

pub mod lut;
pub mod matmul;
pub mod quantize;
