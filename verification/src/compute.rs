//! Compute backends: who multiplies the matrices, and on which hardware.

pub mod avx2;
pub mod device;
pub mod gpu;
pub mod half;
pub mod scalar;
pub mod select;

use crate::layers::rmsnorm::{inverse_rms, is_inverse_rms, is_normed_element};
use crate::layers::softmax::{is_shifted_exp, is_shifted_exps};
use crate::numeric::{Real, is_lowest, is_maximum, is_over, is_sum, is_times, maximum, sum};
use crate::ops::matmul::{accumulator_fits, is_product};
use crate::tensor::TernaryTensor;
use vstd::prelude::*;

verus! {

/// The shorter of two lengths.
pub open spec fn shorter(a: nat, b: nat) -> nat {
    if a <= b {
        a
    } else {
        b
    }
}

/// `ys` is `xs` normalized under the weights `ws`, as far as both reach.
pub open spec fn is_normed_common<T: Real>(xs: Seq<T>, ws: Seq<T>, eps: T, ys: Seq<T>) -> bool {
    exists|r: T|
        {
            &&& #[trigger] is_inverse_rms(xs, eps, r)
            &&& ys.len() == shorter(xs.len(), ws.len())
            &&& forall|i: int|
                0 <= i < ys.len() ==> is_normed_element(xs[i], r, ws[i], #[trigger] ys[i])
        }
}

/// `ps` holds the elements of `es` divided by `total`.
pub open spec fn is_shares<T: Real>(es: Seq<T>, total: T, ps: Seq<T>) -> bool {
    &&& ps.len() == es.len()
    &&& forall|i: int| 0 <= i < es.len() ==> is_over(es[i], total, #[trigger] ps[i])
}

/// `ps` holds the exponentials of `xs` relative to the largest, divided by
/// their sum.
pub open spec fn is_divided_softmax<T: Real>(xs: Seq<T>, ps: Seq<T>) -> bool {
    exists|low: T, m: T, es: Seq<T>, total: T|
        {
            &&& is_lowest(low)
            &&& #[trigger] is_maximum(low, xs, m)
            &&& #[trigger] is_shifted_exps(xs, m, es)
            &&& is_sum(es, total)
            &&& #[trigger] is_shares(es, total, ps)
        }
}

/// `rs` holds the products of `a` and `b`, as far as both reach.
pub open spec fn is_products_common<T: Real>(a: Seq<T>, b: Seq<T>, rs: Seq<T>) -> bool {
    &&& rs.len() == shorter(a.len(), b.len())
    &&& forall|i: int| 0 <= i < rs.len() ==> is_times(a[i], b[i], #[trigger] rs[i])
}

/// A hardware-independent interface for the hot operations of inference.
pub trait ComputeBackend: Send + Sync {
    /// Human-readable name (for example "scalar" or "avx2").
    fn name(&self) -> (name: &str);

    /// Ternary matrix-vector product: y = W x, one accumulator per row.
    fn ternary_matvec(&self, weights: &TernaryTensor, input: &[i8]) -> (output: Vec<i32>)
        requires
            weights.wf(),
            weights.spec_cols() == input@.len(),
            accumulator_fits(*weights, input@),
        ensures
            is_product(*weights, input@, output@),
    ;

    /// Root-mean-square normalization.
    fn rmsnorm<T: Real>(&self, input: &[T], weight: &[T], eps: T) -> (ys: Vec<T>) where Self: Sized
        ensures
            is_normed_common(input@, weight@, eps, ys@),
    {
        let r = inverse_rms(input, eps);
        let mut ys: Vec<T> = Vec::new();
        let mut i: usize = 0;
        while i < input.len() && i < weight.len()
            invariant
                i <= input@.len(),
                i <= weight@.len(),
                ys@.len() == i,
                forall|j: int|
                    0 <= j < i ==> is_normed_element(input@[j], r, weight@[j], #[trigger] ys@[j]),
            decreases input@.len() - i,
        {
            let y = input[i].times(r).times(weight[i]);
            assert(is_normed_element(input@[i as int], r, weight@[i as int], y));
            ys.push(y);
            i += 1;
        }
        assert(is_inverse_rms(input@, eps, r));
        ys
    }

    /// Softmax: probabilities that sum to one.
    fn softmax<T: Real>(&self, input: &[T]) -> (ps: Vec<T>) where Self: Sized
        ensures
            is_divided_softmax(input@, ps@),
    {
        let low = T::lowest();
        let m = maximum(low, input);
        let mut es: Vec<T> = Vec::new();
        let mut i: usize = 0;
        while i < input.len()
            invariant
                i <= input@.len(),
                es@.len() == i,
                forall|j: int| 0 <= j < i ==> is_shifted_exp(input@[j], m, #[trigger] es@[j]),
            decreases input@.len() - i,
        {
            let e = input[i].minus(m).exp();
            assert(is_shifted_exp(input@[i as int], m, e));
            es.push(e);
            i += 1;
        }
        let total = sum(es.as_slice());
        let mut ps: Vec<T> = Vec::new();
        let mut k: usize = 0;
        while k < es.len()
            invariant
                k <= es@.len(),
                ps@.len() == k,
                forall|j: int| 0 <= j < k ==> is_over(es@[j], total, #[trigger] ps@[j]),
            decreases es@.len() - k,
        {
            ps.push(es[k].over(total));
            k += 1;
        }
        assert(is_maximum(low, input@, m) && is_shifted_exps(input@, m, es@) && is_shares(
            es@,
            total,
            ps@,
        ));
        ps
    }

    /// Element-wise product.
    fn elementwise_mul<T: Real>(&self, a: &[T], b: &[T]) -> (rs: Vec<T>) where Self: Sized
        ensures
            is_products_common(a@, b@, rs@),
    {
        let mut rs: Vec<T> = Vec::new();
        let mut i: usize = 0;
        while i < a.len() && i < b.len()
            invariant
                i <= a@.len(),
                i <= b@.len(),
                rs@.len() == i,
                forall|j: int| 0 <= j < i ==> is_times(a@[j], b@[j], #[trigger] rs@[j]),
            decreases a@.len() - i,
        {
            rs.push(a[i].times(b[i]));
            i += 1;
        }
        rs
    }
}

/// All backends agree: the product has one value, whoever computes it.
pub proof fn backends_agree(weights: TernaryTensor, xs: Seq<i8>, y1: Seq<i32>, y2: Seq<i32>)
    requires
        is_product(weights, xs, y1),
        is_product(weights, xs, y2),
    ensures
        y1 == y2,
{
    assert(y1 =~= y2);
}

} // verus!
