//! Linear layer with ternary weights: quantize the input, multiply in
//! integers, scale back.

use crate::compute::ComputeBackend;
use crate::numeric::Real;
use crate::ops::matmul::{
    SAFE_QUANTIZED_COLS, is_product, is_rescaled, is_scaled_product, quantized_rows_accumulate,
    rescale, ternary_matvec,
};
use crate::ops::quantize::{is_quantized, quantize_absmax, quantized_values_are_within_127};
use crate::rows::{lemma_row_bounds, row_of, row_slice};
use crate::tensor::{FloatTensor, TernaryTensor, lemma_elements};
use crate::text::{concatenated, decimal, with_number};
use std::sync::Arc;
use vstd::prelude::*;
use vstd::string::*;

verus! {

/// An optional value that is there.
pub open spec fn given<X>(x: X) -> Option<X> {
    Some(x)
}

fn present<X>(x: X) -> (r: Option<X>)
    ensures
        r == given(x),
{
    Some(x)
}

/// Another handle on a shared value.
///
/// Trusted: calls `std::sync::Arc::clone`, of which this claims that the new
/// handle points to the same value.
#[verifier::external_body]
fn shared<B: ?Sized>(handle: &Arc<B>) -> (r: Arc<B>)
    ensures
        r == *handle,
{
    Arc::clone(handle)
}

/// A linear layer without bias.
pub struct BitLinear<T: Real> {
    weights: TernaryTensor,
    weight_scale: T,
    backend: Option<Arc<dyn ComputeBackend>>,
}

impl<T: Real> BitLinear<T> {
    pub closed spec fn spec_weights(&self) -> TernaryTensor {
        self.weights
    }

    pub closed spec fn spec_weight_scale(&self) -> T {
        self.weight_scale
    }

    /// The backend that computes the products; the portable kernel if there
    /// is none.
    pub closed spec fn spec_backend(&self) -> Option<Arc<dyn ComputeBackend>> {
        self.backend
    }

    pub open spec fn spec_in(&self) -> usize {
        self.spec_weights().spec_cols()
    }

    pub open spec fn spec_out(&self) -> usize {
        self.spec_weights().spec_rows()
    }

    /// The weights are stored in full, and products with quantized inputs
    /// accumulate in 32 bits.
    pub open spec fn wf(&self) -> bool {
        self.spec_weights().wf() && self.spec_in() <= SAFE_QUANTIZED_COLS
    }

    /// What the layer makes of a vector.
    pub open spec fn is_forward(&self, xs: Seq<T>, ys: Seq<T>) -> bool {
        exists|qs: Seq<i8>, scale: T|
            #[trigger] is_quantized(xs, qs, scale) && is_scaled_product(
                self.spec_weights(),
                qs,
                scale,
                self.spec_weight_scale(),
                ys,
            )
    }

    /// A layer that computes with the portable kernel.
    pub fn new(weights: TernaryTensor, weight_scale: T) -> (l: Self)
        requires
            weights.wf(),
            weights.spec_cols() <= SAFE_QUANTIZED_COLS,
        ensures
            l.wf(),
            l.spec_weights() == weights,
            l.spec_weight_scale() == weight_scale,
            l.spec_backend() is None,
    {
        BitLinear { weights, weight_scale, backend: None }
    }

    /// A layer that computes with a given backend.
    pub fn with_backend(
        weights: TernaryTensor,
        weight_scale: T,
        backend: Arc<dyn ComputeBackend>,
    ) -> (l: Self)
        requires
            weights.wf(),
            weights.spec_cols() <= SAFE_QUANTIZED_COLS,
        ensures
            l.wf(),
            l.spec_weights() == weights,
            l.spec_weight_scale() == weight_scale,
            l.spec_backend() == Some(backend),
    {
        let backend = present(backend);
        BitLinear { weights, weight_scale, backend }
    }

    /// A layer that computes with a backend which others use too.
    pub fn with_shared_backend(
        weights: TernaryTensor,
        weight_scale: T,
        backend: &Arc<dyn ComputeBackend>,
    ) -> (l: Self)
        requires
            weights.wf(),
            weights.spec_cols() <= SAFE_QUANTIZED_COLS,
        ensures
            l.wf(),
            l.spec_weights() == weights,
            l.spec_weight_scale() == weight_scale,
            l.spec_backend() == given(*backend),
    {
        let backend = present(shared(backend));
        BitLinear { weights, weight_scale, backend }
    }

    /// Compute with another backend from now on.
    pub fn set_backend(&mut self, backend: Arc<dyn ComputeBackend>)
        ensures
            final(self).spec_weights() == old(self).spec_weights(),
            final(self).spec_weight_scale() == old(self).spec_weight_scale(),
            final(self).spec_backend() == Some(backend),
    {
        let backend = present(backend);
        self.backend = backend;
    }

    /// Number of output features.
    pub fn out_features(&self) -> (n: usize)
        ensures
            n == self.spec_out(),
    {
        self.weights.rows()
    }

    /// Number of input features.
    pub fn in_features(&self) -> (n: usize)
        ensures
            n == self.spec_in(),
    {
        self.weights.cols()
    }

    /// Apply the layer to a vector.
    pub fn forward(&self, input: &[T]) -> (output: Vec<T>)
        requires
            self.wf(),
            input@.len() == self.spec_in(),
        ensures
            self.is_forward(input@, output@),
            output@.len() == self.spec_out(),
    {
        let (quantized, scale) = quantize_absmax(input);
        proof {
            assert forall|i: int| 0 <= i < quantized@.len() implies -127 <= #[trigger] quantized@[i] by {
                quantized_values_are_within_127(input@, scale, quantized@, i);
            }
            quantized_rows_accumulate(self.weights, quantized@);
        }
        let accs: Vec<i32> = match &self.backend {
            Some(backend) => backend.ternary_matvec(&self.weights, quantized.as_slice()),
            None => ternary_matvec(&self.weights, quantized.as_slice()),
        };
        let combined = scale.times(self.weight_scale);
        let output: Vec<T> = rescale(accs.as_slice(), combined);
        assert(is_product(self.weights, quantized@, accs@) && is_rescaled(
            accs@,
            combined,
            output@,
        ));
        output
    }

    /// Apply the layer to a one-dimensional tensor.
    pub fn forward_tensor(&self, input: &FloatTensor<T>) -> (output: FloatTensor<T>)
        requires
            self.wf(),
            input.spec_shape().len() == 1,
            input.spec_data().len() == self.spec_in(),
        ensures
            self.is_forward(input.spec_data(), output.spec_data()),
            output.spec_shape() == seq![self.spec_out()],
            output.wf(),
    {
        let out: Vec<T> = self.forward(input.data());
        let mut shape: Vec<usize> = Vec::new();
        shape.push(self.out_features());
        proof {
            lemma_elements(shape@);
        }
        FloatTensor::new(out, shape)
    }

    /// Apply the layer to every row of a batch.
    pub fn forward_batch(&self, inputs: &[T], batch_size: usize) -> (outputs: Vec<Vec<T>>)
        requires
            self.wf(),
            inputs@.len() == batch_size * self.spec_in(),
        ensures
            outputs@.len() == batch_size,
            forall|b: int|
                0 <= b < batch_size ==> {
                    &&& (#[trigger] outputs@[b])@.len() == self.spec_out()
                    &&& self.is_forward(row_of(inputs@, self.spec_in() as int, b), outputs@[b]@)
                },
    {
        let cols: usize = self.in_features();
        let mut outputs: Vec<Vec<T>> = Vec::new();
        let mut b: usize = 0;
        while b < batch_size
            invariant
                self.wf(),
                cols == self.spec_in(),
                inputs@.len() == batch_size * cols,
                b <= batch_size,
                outputs@.len() == b,
                forall|k: int|
                    0 <= k < b ==> {
                        &&& (#[trigger] outputs@[k])@.len() == self.spec_out()
                        &&& self.is_forward(row_of(inputs@, cols as int, k), outputs@[k]@)
                    },
            decreases batch_size - b,
        {
            proof {
                lemma_row_bounds(b as int, batch_size as int, cols as int);
            }
            outputs.push(self.forward(row_slice(inputs, cols, b)));
            b += 1;
        }
        outputs
    }

    /// The weights.
    pub fn weights(&self) -> (w: &TernaryTensor)
        ensures
            *w == self.spec_weights(),
    {
        &self.weights
    }

    /// The scale of the weights.
    pub fn weight_scale(&self) -> (s: T)
        ensures
            s == self.spec_weight_scale(),
    {
        self.weight_scale
    }

    /// One line about a layer whose weight scale reads `scale`.
    pub open spec fn description(&self, scale: Seq<char>) -> Seq<char> {
        "BitLinear"@ + "("@ + decimal(self.spec_in() as nat) + "→"@ + decimal(
            self.spec_out() as nat,
        ) + ", γ="@ + scale + ")"@
    }

    /// One line about a layer, given the text of its weight scale.
    pub fn describe(&self, scale: &str) -> (s: String)
        ensures
            s@ == self.description(scale@),
    {
        let s: String = with_number(String::from_str("BitLinear"), "(", self.in_features());
        let s: String = with_number(s, "→", self.out_features());
        let s: String = concatenated(s.as_str(), ", γ=");
        let s: String = concatenated(s.as_str(), scale);
        concatenated(s.as_str(), ")")
    }
}

/// Which backend computes the products makes no difference to what a layer
/// can return.
pub proof fn backend_makes_no_difference<T: Real>(
    a: BitLinear<T>,
    b: BitLinear<T>,
    xs: Seq<T>,
    ys: Seq<T>,
)
    requires
        a.spec_weights() == b.spec_weights(),
        a.spec_weight_scale() == b.spec_weight_scale(),
    ensures
        a.is_forward(xs, ys) == b.is_forward(xs, ys),
{
}

} // verus!
