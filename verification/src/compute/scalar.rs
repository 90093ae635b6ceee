//! Portable backend: the unpacking kernel, on any platform.

use crate::compute::ComputeBackend;
use crate::ops::matmul::ternary_matvec;
use crate::tensor::TernaryTensor;
use vstd::prelude::*;

verus! {

/// The portable backend.
#[derive(Debug, Clone, Copy)]
pub struct ScalarBackend;

impl ComputeBackend for ScalarBackend {
    fn name(&self) -> (name: &str)
        ensures
            name@ == "scalar"@,
    {
        "scalar"
    }

    fn ternary_matvec(&self, weights: &TernaryTensor, input: &[i8]) -> (output: Vec<i32>) {
        ternary_matvec(weights, input)
    }
}

} // verus!
