//! Root-mean-square normalization: each element divided by the root of the
//! mean square, times a weight of its own.

use crate::numeric::{Real, dot, is_dot, is_one, is_over, is_plus, is_sqrt, is_times, is_usize};
use crate::text::{concatenated, decimal, with_number};
use vstd::prelude::*;
use vstd::string::*;

verus! {

/// `m` is the mean of the squares of `xs`.
pub open spec fn is_mean_square<T: Real>(xs: Seq<T>, m: T) -> bool {
    exists|s: T, n: T|
        #[trigger] is_dot(xs, xs, s) && is_usize(xs.len() as usize, n) && #[trigger] is_over(s, n, m)
}

/// `r` is one over the root of a mean square plus `eps`.
pub open spec fn is_inverse_root<T: Real>(m: T, eps: T, r: T) -> bool {
    exists|a: T, q: T, one: T|
        is_plus(m, eps, a) && #[trigger] is_sqrt(a, q) && is_one(one) && #[trigger] is_over(one, q, r)
}

/// `r` is the factor that normalizes `xs`.
pub open spec fn is_inverse_rms<T: Real>(xs: Seq<T>, eps: T, r: T) -> bool {
    exists|m: T| #[trigger] is_mean_square(xs, m) && is_inverse_root(m, eps, r)
}

/// `y` is `x` times `r` times `w`.
pub open spec fn is_normed_element<T: Real>(x: T, r: T, w: T, y: T) -> bool {
    exists|p: T| #[trigger] is_times(x, r, p) && is_times(p, w, y)
}

/// `ys` holds the elements of `xs` times `r` and their weights.
pub open spec fn is_weighted<T: Real>(xs: Seq<T>, r: T, ws: Seq<T>, ys: Seq<T>) -> bool {
    &&& ys.len() == xs.len()
    &&& forall|i: int| 0 <= i < xs.len() ==> is_normed_element(xs[i], r, ws[i], #[trigger] ys[i])
}

/// `ys` is `xs` normalized under the weights `ws`.
pub open spec fn is_normed<T: Real>(xs: Seq<T>, ws: Seq<T>, eps: T, ys: Seq<T>) -> bool {
    exists|r: T| #[trigger] is_inverse_rms(xs, eps, r) && is_weighted(xs, r, ws, ys)
}

/// The factor that normalizes a vector.
pub fn inverse_rms<T: Real>(input: &[T], eps: T) -> (r: T)
    ensures
        is_inverse_rms(input@, eps, r),
{
    let s = dot(input, input);
    let n = T::from_usize(input.len());
    let m = s.over(n);
    assert(is_mean_square(input@, m));
    let q = m.plus(eps).sqrt();
    T::one().over(q)
}

/// A normalization layer.
#[derive(Clone, Debug)]
pub struct RmsNorm<T: Real> {
    weight: Vec<T>,
    eps: T,
}

impl<T: Real> RmsNorm<T> {
    pub closed spec fn spec_weight(&self) -> Seq<T> {
        self.weight@
    }

    pub closed spec fn spec_eps(&self) -> T {
        self.eps
    }

    /// What the layer makes of a vector.
    pub open spec fn is_forward(&self, xs: Seq<T>, ys: Seq<T>) -> bool {
        is_normed(xs, self.spec_weight(), self.spec_eps(), ys)
    }

    /// A layer with given weights.
    pub fn new(weight: Vec<T>, eps: T) -> (n: Self)
        ensures
            n.spec_weight() == weight@,
            n.spec_eps() == eps,
    {
        RmsNorm { weight, eps }
    }

    /// Length of the vectors.
    pub fn dim(&self) -> (n: usize)
        ensures
            n == self.spec_weight().len(),
    {
        self.weight.len()
    }

    /// Normalize a vector.
    pub fn forward(&self, input: &[T]) -> (output: Vec<T>)
        requires
            input@.len() == self.spec_weight().len(),
        ensures
            self.is_forward(input@, output@),
            output@.len() == input@.len(),
    {
        let r = inverse_rms(input, self.eps);
        let mut output: Vec<T> = Vec::new();
        let mut i: usize = 0;
        while i < input.len()
            invariant
                input@.len() == self.weight@.len(),
                i <= input@.len(),
                output@.len() == i,
                forall|j: int|
                    0 <= j < i ==> is_normed_element(
                        input@[j],
                        r,
                        self.weight@[j],
                        #[trigger] output@[j],
                    ),
            decreases input@.len() - i,
        {
            let y = input[i].times(r).times(self.weight[i]);
            assert(is_normed_element(input@[i as int], r, self.weight@[i as int], y));
            output.push(y);
            i += 1;
        }
        assert(is_weighted(input@, r, self.weight@, output@));
        output
    }

    /// Normalize a vector into a buffer.
    pub fn forward_into(&self, input: &[T], output: &mut [T])
        requires
            input@.len() == self.spec_weight().len(),
            old(output)@.len() == self.spec_weight().len(),
        ensures
            self.is_forward(input@, final(output)@),
    {
        let r = inverse_rms(input, self.eps);
        let mut i: usize = 0;
        while i < input.len()
            invariant
                input@.len() == self.weight@.len() == output@.len(),
                i <= input@.len(),
                forall|j: int|
                    0 <= j < i ==> is_normed_element(
                        input@[j],
                        r,
                        self.weight@[j],
                        #[trigger] output@[j],
                    ),
            decreases input@.len() - i,
        {
            let y = input[i].times(r).times(self.weight[i]);
            assert(is_normed_element(input@[i as int], r, self.weight@[i as int], y));
            output[i] = y;
            i += 1;
        }
        assert(is_weighted(input@, r, self.weight@, output@));
    }

    /// The weights.
    pub fn weight(&self) -> (w: &[T])
        ensures
            w@ == self.spec_weight(),
    {
        self.weight.as_slice()
    }

    /// One line about a layer whose epsilon reads `eps`.
    pub open spec fn description(&self, eps: Seq<char>) -> Seq<char> {
        "RmsNorm"@ + "(dim="@ + decimal(self.spec_weight().len()) + ", eps="@ + eps + ")"@
    }

    /// One line about a layer, given the text of its epsilon.
    pub fn describe(&self, eps: &str) -> (s: String)
        ensures
            s@ == self.description(eps@),
    {
        let s: String = with_number(String::from_str("RmsNorm"), "(dim=", self.dim());
        let s: String = concatenated(s.as_str(), ", eps=");
        let s: String = concatenated(s.as_str(), eps);
        concatenated(s.as_str(), ")")
    }
}

} // verus!
