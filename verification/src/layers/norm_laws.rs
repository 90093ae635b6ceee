//! What normalization does to the size of a vector, in exact arithmetic.

use crate::exact::{
    adds, counts, dots_are_inner_products, inner, multiplies, takes_roots,
};
use crate::layers::rmsnorm::{
    RmsNorm, is_inverse_rms, is_inverse_root, is_mean_square, is_normed, is_normed_element,
    is_weighted,
};
use crate::numeric::{Real, is_dot, is_one, is_over, is_plus, is_sqrt, is_times, is_usize};
use vstd::prelude::*;

verus! {

/// The factor `c` brings `xs` to a mean square of one, but for `eps`.
pub open spec fn normalizes<T>(v: spec_fn(T) -> real, xs: Seq<T>, eps: T, c: real) -> bool {
    let n = xs.len() as real;
    &&& c > 0 as real
    &&& (c * c) * (inner(v, xs, xs) + n * v(eps)) == n
}

proof fn lemma_squares<T>(v: spec_fn(T) -> real, xs: Seq<T>, ys: Seq<T>)
    requires
        forall|i: int| 0 <= i < xs.len() ==> xs[i] == ys[i],
    ensures
        inner(v, xs, ys) >= 0 as real,
    decreases xs.len(),
{
    if xs.len() > 0 {
        lemma_squares(v, xs.drop_last(), ys);
        let x = v(xs.last());
        assert(x * x >= 0 as real) by (nonlinear_arith);
    }
}

proof fn lemma_factor(s: real, n: real, m: real, eps: real, q: real, r: real)
    requires
        n > 0 as real,
        s >= 0 as real,
        m * n == s,
        eps > 0 as real,
        m + eps >= 0 as real ==> q >= 0 as real && q * q == m + eps,
        q != 0 as real ==> r * q == 1 as real,
    ensures
        r > 0 as real,
        (r * r) * (s + n * eps) == n,
{
    assert(m >= 0 as real) by (nonlinear_arith)
        requires
            n > 0 as real,
            m * n >= 0 as real,
    ;
    assert(q != 0 as real) by (nonlinear_arith)
        requires
            q * q > 0 as real,
    ;
    assert(r > 0 as real) by (nonlinear_arith)
        requires
            r * q == 1 as real,
            q > 0 as real,
    ;
    let a = m + eps;
    assert(s + n * eps == n * a) by (nonlinear_arith)
        requires
            m * n == s,
            a == m + eps,
    ;
    assert((r * r) * (n * (q * q)) == n * ((r * q) * (r * q))) by (nonlinear_arith);
    assert(n * (1 as real * 1 as real) == n) by (nonlinear_arith);
}

/// Normalization multiplies every element by its weight and by one factor, which
/// brings the mean square to one, but for `eps`.
pub proof fn norms_bring_the_mean_square_to_one<T: Real>(
    v: spec_fn(T) -> real,
    xs: Seq<T>,
    ws: Seq<T>,
    eps: T,
    ys: Seq<T>,
)
    requires
        adds(v),
        multiplies(v),
        counts(v),
        takes_roots(v),
        0 < xs.len() <= usize::MAX,
        ws.len() == xs.len(),
        v(eps) > 0 as real,
        is_normed(xs, ws, eps, ys),
    ensures
        ys.len() == xs.len(),
        exists|c: real| #[trigger]
            normalizes(v, xs, eps, c) && forall|i: int|
                0 <= i < xs.len() ==> v(#[trigger] ys[i]) == (v(xs[i]) * c) * v(ws[i]),
{
    let r = choose|r: T| #[trigger] is_inverse_rms(xs, eps, r) && is_weighted(xs, r, ws, ys);
    let m = choose|m: T| #[trigger] is_mean_square(xs, m) && is_inverse_root(m, eps, r);
    let (s, n) = choose|s: T, n: T|
        #[trigger] is_dot(xs, xs, s) && is_usize(xs.len() as usize, n) && #[trigger] is_over(
            s,
            n,
            m,
        );
    let (a, q, one) = choose|a: T, q: T, one: T|
        is_plus(m, eps, a) && #[trigger] is_sqrt(a, q) && is_one(one) && #[trigger] is_over(
            one,
            q,
            r,
        );
    dots_are_inner_products(v, xs, xs, s);
    lemma_squares(v, xs, xs);
    lemma_factor(v(s), v(n), v(m), v(eps), v(q), v(r));
    assert(normalizes(v, xs, eps, v(r)));
    assert forall|i: int| 0 <= i < xs.len() implies v(#[trigger] ys[i]) == (v(xs[i]) * v(r)) * v(
        ws[i],
    ) by {
        assert(is_normed_element(xs[i], r, ws[i], ys[i]));
        let p = choose|p: T| #[trigger] is_times(xs[i], r, p) && is_times(p, ws[i], ys[i]);
    }
}

impl<T: Real> RmsNorm<T> {
    /// A layer keeps the direction of a vector up to its weights, and keeps the
    /// sign of every element where the weight is positive. An element is zero
    /// exactly where the vector or the weight is.
    pub proof fn layers_keep_signs(&self, v: spec_fn(T) -> real, xs: Seq<T>, ys: Seq<T>)
        requires
            adds(v),
            multiplies(v),
            counts(v),
            takes_roots(v),
            0 < xs.len() <= usize::MAX,
            self.spec_weight().len() == xs.len(),
            v(self.spec_eps()) > 0 as real,
            self.is_forward(xs, ys),
        ensures
            ys.len() == xs.len(),
            forall|i: int|
                0 <= i < xs.len() ==> (v(#[trigger] ys[i]) == 0 as real) == (v(xs[i]) == 0 as real
                    || v(self.spec_weight()[i]) == 0 as real),
            forall|i: int|
                0 <= i < xs.len() && v(self.spec_weight()[i]) > 0 as real ==> {
                    &&& (v(#[trigger] ys[i]) > 0 as real) == (v(xs[i]) > 0 as real)
                    &&& (v(ys[i]) < 0 as real) == (v(xs[i]) < 0 as real)
                },
    {
        let ws = self.spec_weight();
        norms_bring_the_mean_square_to_one(v, xs, ws, self.spec_eps(), ys);
        let c = choose|c: real| #[trigger]
            normalizes(v, xs, self.spec_eps(), c) && forall|i: int|
                0 <= i < xs.len() ==> v(#[trigger] ys[i]) == (v(xs[i]) * c) * v(ws[i]);
        assert forall|i: int| 0 <= i < xs.len() implies {
            &&& (v(#[trigger] ys[i]) == 0 as real) == (v(xs[i]) == 0 as real || v(ws[i])
                == 0 as real)
            &&& (v(ws[i]) > 0 as real ==> {
                &&& (v(ys[i]) > 0 as real) == (v(xs[i]) > 0 as real)
                &&& (v(ys[i]) < 0 as real) == (v(xs[i]) < 0 as real)
            })
        } by {
            lemma_sign(v(xs[i]), c, v(ws[i]));
        }
    }
}

proof fn lemma_sign(x: real, c: real, w: real)
    requires
        c > 0 as real,
    ensures
        ((x * c) * w == 0 as real) == (x == 0 as real || w == 0 as real),
        w > 0 as real ==> ((x * c) * w > 0 as real) == (x > 0 as real),
        w > 0 as real ==> ((x * c) * w < 0 as real) == (x < 0 as real),
{
    let p = x * c;
    assert(x > 0 as real ==> p > 0 as real) by (nonlinear_arith)
        requires
            c > 0 as real,
            p == x * c,
    ;
    assert(x < 0 as real ==> p < 0 as real) by (nonlinear_arith)
        requires
            c > 0 as real,
            p == x * c,
    ;
    assert(x == 0 as real ==> p == 0 as real) by (nonlinear_arith)
        requires
            p == x * c,
    ;
    assert(p > 0 as real && w > 0 as real ==> p * w > 0 as real) by (nonlinear_arith);
    assert(p < 0 as real && w > 0 as real ==> p * w < 0 as real) by (nonlinear_arith);
    assert(p > 0 as real && w < 0 as real ==> p * w < 0 as real) by (nonlinear_arith);
    assert(p < 0 as real && w < 0 as real ==> p * w > 0 as real) by (nonlinear_arith);
    assert(p == 0 as real || w == 0 as real ==> p * w == 0 as real) by (nonlinear_arith);
}

} // verus!
