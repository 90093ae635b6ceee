//! Over a number type whose operations are functions, every layer is a
//! function too: it has one possible result.

use crate::layers::attention::{
    MultiHeadAttention, head_at, is_attention_scale, is_read_out, is_score, is_weighted_sum,
};
use crate::layers::attention_laws::scale_is_fixed;
use crate::layers::bitlinear::BitLinear;
use crate::layers::kv_cache::KvCache;
use crate::layers::model::{
    OutputProjection, TransformerModel, is_scores, is_unrolled_dot, is_unrolled_sum, lane,
};
use crate::layers::rmsnorm::{
    RmsNorm, is_inverse_rms, is_inverse_root, is_mean_square, is_normed_element, is_weighted,
};
use crate::layers::rope::{
    RoPE, every_element_is_in_one_pair, is_rotated_by, is_rotated_pair, is_rotation, pair_first,
    pair_second,
};
use crate::layers::softmax::{
    is_inverse_sum, is_multiplied, is_shifted_exp, is_shifted_exps, is_softmax,
};
use crate::layers::swiglu::{GateActivation, SwiGLU, is_activated, is_gated, is_gated_element};
use crate::layers::transformer::{TransformerBlock, is_fed_rows, is_normed_rows};
use crate::numeric::{
    Real, dots_are_unique, is_abs, is_cos, is_dot, is_exp, is_functional, is_lowest, is_max,
    is_maximum, is_negate, is_one, is_over, is_plus, is_products, is_sin, is_sqrt, is_sum,
    is_sum_from, is_sums, is_times, is_usize, is_zero, maxima_are_unique, products_are_unique,
    sums_are_unique, sums_from_are_unique,
};
use crate::ops::matmul::{is_product, is_rescaled, is_rescaled_element, is_scaled_product};
use crate::ops::quantize::{
    is_abs_values, is_absmax, is_quantized, is_quantized_element, is_scale_of,
};
use crate::rows::{lemma_row_bounds, lemma_same_rows, row_of};
use vstd::prelude::*;

verus! {

proof fn lemma_absmax<T: Real>(xs: Seq<T>, m1: T, m2: T)
    requires
        is_functional::<T>(),
        is_absmax(xs, m1),
        is_absmax(xs, m2),
    ensures
        m1 == m2,
{
    let (abs1, z1) = choose|abs: Seq<T>, z: T|
        #[trigger] is_abs_values(xs, abs) && is_zero(z) && #[trigger] is_maximum(z, abs, m1);
    let (abs2, z2) = choose|abs: Seq<T>, z: T|
        #[trigger] is_abs_values(xs, abs) && is_zero(z) && #[trigger] is_maximum(z, abs, m2);
    assert forall|i: int| 0 <= i < abs1.len() implies abs1[i] == abs2[i] by {
        assert(is_abs(xs[i], abs1[i]) && is_abs(xs[i], abs2[i]));
    }
    assert(abs1 =~= abs2);
    maxima_are_unique(z1, abs1, m1, m2);
}

/// A vector has one quantization.
pub proof fn quantization_is_unique<T: Real>(
    xs: Seq<T>,
    qs1: Seq<i8>,
    scale1: T,
    qs2: Seq<i8>,
    scale2: T,
)
    requires
        is_functional::<T>(),
        is_quantized(xs, qs1, scale1),
        is_quantized(xs, qs2, scale2),
    ensures
        qs1 == qs2,
        scale1 == scale2,
{
    let m1 = choose|m: T| #[trigger] is_absmax(xs, m) && is_scale_of(m, scale1);
    let m2 = choose|m: T| #[trigger] is_absmax(xs, m) && is_scale_of(m, scale2);
    lemma_absmax(xs, m1, m2);
    assert(scale1 == scale2);
    assert forall|i: int| 0 <= i < qs1.len() implies qs1[i] == qs2[i] by {
        assert(is_quantized_element(xs[i], scale1, qs1[i]));
        assert(is_quantized_element(xs[i], scale1, qs2[i]));
    }
    assert(qs1 =~= qs2);
}

impl<T: Real> BitLinear<T> {
    /// A linear layer has one result.
    pub proof fn forward_is_unique(&self, xs: Seq<T>, ys1: Seq<T>, ys2: Seq<T>)
        requires
            is_functional::<T>(),
            self.is_forward(xs, ys1),
            self.is_forward(xs, ys2),
        ensures
            ys1 == ys2,
            ys1.len() == self.spec_out(),
    {
        let w = self.spec_weights();
        let (qs1, s1) = choose|qs: Seq<i8>, scale: T|
            #[trigger] is_quantized(xs, qs, scale) && is_scaled_product(
                w,
                qs,
                scale,
                self.spec_weight_scale(),
                ys1,
            );
        let (qs2, s2) = choose|qs: Seq<i8>, scale: T|
            #[trigger] is_quantized(xs, qs, scale) && is_scaled_product(
                w,
                qs,
                scale,
                self.spec_weight_scale(),
                ys2,
            );
        quantization_is_unique(xs, qs1, s1, qs2, s2);
        let (accs1, c1) = choose|accs: Seq<i32>, c: T|
            #[trigger] is_product(w, qs1, accs) && is_times(s1, self.spec_weight_scale(), c)
                && #[trigger] is_rescaled(accs, c, ys1);
        let (accs2, c2) = choose|accs: Seq<i32>, c: T|
            #[trigger] is_product(w, qs2, accs) && is_times(s2, self.spec_weight_scale(), c)
                && #[trigger] is_rescaled(accs, c, ys2);
        assert forall|i: int| 0 <= i < accs1.len() implies accs1[i] == accs2[i] by {}
        assert(accs1 =~= accs2);
        assert(c1 == c2);
        assert forall|i: int| 0 <= i < ys1.len() implies ys1[i] == ys2[i] by {
            assert(is_rescaled_element(accs1[i], c1, ys1[i]));
            assert(is_rescaled_element(accs1[i], c1, ys2[i]));
        }
        assert(ys1 =~= ys2);
    }
}

proof fn lemma_inverse_rms<T: Real>(xs: Seq<T>, eps: T, r1: T, r2: T)
    requires
        is_functional::<T>(),
        is_inverse_rms(xs, eps, r1),
        is_inverse_rms(xs, eps, r2),
    ensures
        r1 == r2,
{
    let m1 = choose|m: T| #[trigger] is_mean_square(xs, m) && is_inverse_root(m, eps, r1);
    let m2 = choose|m: T| #[trigger] is_mean_square(xs, m) && is_inverse_root(m, eps, r2);
    let (s1, n1) = choose|s: T, n: T|
        #[trigger] is_dot(xs, xs, s) && is_usize(xs.len() as usize, n) && #[trigger] is_over(s, n, m1);
    let (s2, n2) = choose|s: T, n: T|
        #[trigger] is_dot(xs, xs, s) && is_usize(xs.len() as usize, n) && #[trigger] is_over(s, n, m2);
    dots_are_unique(xs, xs, s1, s2);
    assert(n1 == n2);
    assert(m1 == m2);
    let (a1, q1, one1) = choose|a: T, q: T, one: T|
        is_plus(m1, eps, a) && #[trigger] is_sqrt(a, q) && is_one(one) && #[trigger] is_over(
            one,
            q,
            r1,
        );
    let (a2, q2, one2) = choose|a: T, q: T, one: T|
        is_plus(m1, eps, a) && #[trigger] is_sqrt(a, q) && is_one(one) && #[trigger] is_over(
            one,
            q,
            r2,
        );
    assert(a1 == a2);
    assert(q1 == q2);
    assert(one1 == one2);
}

impl<T: Real> RmsNorm<T> {
    /// A normalization has one result.
    pub proof fn forward_is_unique(&self, xs: Seq<T>, ys1: Seq<T>, ys2: Seq<T>)
        requires
            is_functional::<T>(),
            self.is_forward(xs, ys1),
            self.is_forward(xs, ys2),
        ensures
            ys1 == ys2,
    {
        let ws = self.spec_weight();
        let eps = self.spec_eps();
        let r1 = choose|r: T| #[trigger] is_inverse_rms(xs, eps, r) && is_weighted(xs, r, ws, ys1);
        let r2 = choose|r: T| #[trigger] is_inverse_rms(xs, eps, r) && is_weighted(xs, r, ws, ys2);
        lemma_inverse_rms(xs, eps, r1, r2);
        assert forall|i: int| 0 <= i < ys1.len() implies ys1[i] == ys2[i] by {
            assert(is_normed_element(xs[i], r1, ws[i], ys1[i]));
            assert(is_normed_element(xs[i], r1, ws[i], ys2[i]));
        }
        assert(ys1 =~= ys2);
    }
}

proof fn lemma_inverse_sum<T: Real>(es: Seq<T>, inv1: T, inv2: T)
    requires
        is_functional::<T>(),
        is_inverse_sum(es, inv1),
        is_inverse_sum(es, inv2),
    ensures
        inv1 == inv2,
{
    let (z1, t1, one1) = choose|z: T, total: T, one: T|
        is_zero(z) && #[trigger] is_sum_from(z, es, total) && is_one(one) && #[trigger] is_over(
            one,
            total,
            inv1,
        );
    let (z2, t2, one2) = choose|z: T, total: T, one: T|
        is_zero(z) && #[trigger] is_sum_from(z, es, total) && is_one(one) && #[trigger] is_over(
            one,
            total,
            inv2,
        );
    assert(z1 == z2);
    sums_from_are_unique(z1, es, t1, t2);
    assert(one1 == one2);
}

/// Scores have one softmax.
pub proof fn softmax_is_unique<T: Real>(xs: Seq<T>, ps1: Seq<T>, ps2: Seq<T>)
    requires
        is_functional::<T>(),
        is_softmax(xs, ps1),
        is_softmax(xs, ps2),
    ensures
        ps1 == ps2,
{
    if xs.len() >= 2 {
        let (low1, m1, es1, inv1) = choose|low: T, m: T, es: Seq<T>, inv: T|
            is_lowest(low) && #[trigger] is_maximum(low, xs, m) && #[trigger] is_shifted_exps(
                xs,
                m,
                es,
            ) && is_inverse_sum(es, inv) && #[trigger] is_multiplied(es, inv, ps1);
        let (low2, m2, es2, inv2) = choose|low: T, m: T, es: Seq<T>, inv: T|
            is_lowest(low) && #[trigger] is_maximum(low, xs, m) && #[trigger] is_shifted_exps(
                xs,
                m,
                es,
            ) && is_inverse_sum(es, inv) && #[trigger] is_multiplied(es, inv, ps2);
        assert(low1 == low2);
        maxima_are_unique(low1, xs, m1, m2);
        assert forall|i: int| 0 <= i < es1.len() implies es1[i] == es2[i] by {
            assert(is_shifted_exp(xs[i], m1, es1[i]));
            assert(is_shifted_exp(xs[i], m1, es2[i]));
        }
        assert(es1 =~= es2);
        lemma_inverse_sum(es1, inv1, inv2);
        assert forall|i: int| 0 <= i < ps1.len() implies ps1[i] == ps2[i] by {
            assert(is_times(es1[i], inv1, ps1[i]) && is_times(es1[i], inv1, ps2[i]));
        }
    } else if xs.len() == 1 {
        assert(ps1[0] == ps2[0]);
    }
    assert(ps1 =~= ps2);
}

proof fn lemma_rotated_pair<T: Real>(pos: T, f: T, x0: T, x1: T, y0: T, y1: T, z0: T, z1: T)
    requires
        is_functional::<T>(),
        is_rotated_pair(pos, f, x0, x1, y0, y1),
        is_rotated_pair(pos, f, x0, x1, z0, z1),
    ensures
        y0 == z0,
        y1 == z1,
{
    let (a1, c1, s1) = choose|angle: T, c: T, s: T|
        {
            &&& #[trigger] is_times(pos, f, angle)
            &&& #[trigger] is_cos(angle, c)
            &&& #[trigger] is_sin(angle, s)
            &&& is_rotation(x0, x1, c, s, y0, y1)
        };
    let (a2, c2, s2) = choose|angle: T, c: T, s: T|
        {
            &&& #[trigger] is_times(pos, f, angle)
            &&& #[trigger] is_cos(angle, c)
            &&& #[trigger] is_sin(angle, s)
            &&& is_rotation(x0, x1, c, s, z0, z1)
        };
    assert(a1 == a2);
    assert(c1 == c2);
    assert(s1 == s2);
}

impl<T: Real> RoPE<T> {
    /// A rotation has one result.
    pub proof fn forward_is_unique(&self, xs: Seq<T>, pos: usize, ys: Seq<T>, zs: Seq<T>)
        requires
            is_functional::<T>(),
            self.wf(),
            xs.len() == self.spec_dim(),
            self.is_forward(xs, pos, ys),
            self.is_forward(xs, pos, zs),
        ensures
            ys == zs,
    {
        let layout = self.spec_layout();
        let freqs = self.spec_freqs();
        let p = choose|p: T|
            #[trigger] is_usize(pos, p) && is_rotated_by(layout, freqs, p, xs, ys);
        let q = choose|q: T|
            #[trigger] is_usize(pos, q) && is_rotated_by(layout, freqs, q, xs, zs);
        assert(p == q);
        let half = freqs.len() as int;
        assert forall|d: int| 0 <= d < ys.len() implies ys[d] == zs[d] by {
            let i = every_element_is_in_one_pair(layout, half, d);
            let a = pair_first(layout, half, i);
            let b = pair_second(layout, half, i);
            assert(is_rotated_pair(p, freqs[i], xs[a], xs[b], ys[a], ys[b]));
            assert(is_rotated_pair(p, freqs[i], xs[a], xs[b], zs[a], zs[b]));
            lemma_rotated_pair(p, freqs[i], xs[a], xs[b], ys[a], ys[b], zs[a], zs[b]);
        }
        assert(ys =~= zs);
    }

    /// A rotation of heads has one result.
    pub proof fn heads_are_unique(&self, xs: Seq<T>, n: int, pos: usize, ys: Seq<T>, zs: Seq<T>)
        requires
            is_functional::<T>(),
            self.wf(),
            0 <= n,
            xs.len() == n * self.spec_dim(),
            self.is_forward_heads(xs, n, pos, ys),
            self.is_forward_heads(xs, n, pos, zs),
        ensures
            ys == zs,
    {
        let dim = self.spec_dim() as int;
        assert forall|h: int| 0 <= h < n implies #[trigger] row_of(ys, dim, h) == row_of(
            zs,
            dim,
            h,
        ) by {
            lemma_row_bounds(h, n, dim);
            self.forward_is_unique(
                row_of(xs, dim, h),
                pos,
                row_of(ys, dim, h),
                row_of(zs, dim, h),
            );
        }
        lemma_same_rows(ys, zs, dim, n);
    }
}

proof fn lemma_activated<T: Real>(act: GateActivation, x: T, r: T, s: T)
    requires
        is_functional::<T>(),
        is_activated(act, x, r),
        is_activated(act, x, s),
    ensures
        r == s,
{
    match act {
        GateActivation::SiLU => {
            let (n1, e1, one1, d1) = choose|n: T, e: T, one: T, d: T|
                {
                    &&& #[trigger] is_negate(x, n)
                    &&& #[trigger] is_exp(n, e)
                    &&& is_one(one)
                    &&& #[trigger] is_plus(one, e, d)
                    &&& is_over(x, d, r)
                };
            let (n2, e2, one2, d2) = choose|n: T, e: T, one: T, d: T|
                {
                    &&& #[trigger] is_negate(x, n)
                    &&& #[trigger] is_exp(n, e)
                    &&& is_one(one)
                    &&& #[trigger] is_plus(one, e, d)
                    &&& is_over(x, d, s)
                };
            assert(n1 == n2);
            assert(e1 == e2);
            assert(one1 == one2);
            assert(d1 == d2);
        },
        GateActivation::ReLU2 => {
            let (z1, m1) = choose|z: T, m: T|
                is_zero(z) && #[trigger] is_max(x, z, m) && is_times(m, m, r);
            let (z2, m2) = choose|z: T, m: T|
                is_zero(z) && #[trigger] is_max(x, z, m) && is_times(m, m, s);
            assert(z1 == z2);
            assert(m1 == m2);
        },
    }
}

proof fn lemma_gated<T: Real>(act: GateActivation, gs: Seq<T>, us: Seq<T>, rs: Seq<T>, ss: Seq<T>)
    requires
        is_functional::<T>(),
        is_gated(act, gs, us, rs),
        is_gated(act, gs, us, ss),
    ensures
        rs == ss,
{
    assert forall|i: int| 0 <= i < rs.len() implies rs[i] == ss[i] by {
        assert(is_gated_element(act, gs[i], us[i], rs[i]));
        assert(is_gated_element(act, gs[i], us[i], ss[i]));
        let a = choose|a: T| is_activated(act, gs[i], a) && #[trigger] is_times(a, us[i], rs[i]);
        let b = choose|b: T| is_activated(act, gs[i], b) && #[trigger] is_times(b, us[i], ss[i]);
        lemma_activated(act, gs[i], a, b);
    }
    assert(rs =~= ss);
}

impl<T: Real> SwiGLU<T> {
    /// A gated network has one result.
    pub proof fn forward_is_unique(&self, xs: Seq<T>, ys: Seq<T>, zs: Seq<T>)
        requires
            is_functional::<T>(),
            self.is_forward(xs, ys),
            self.is_forward(xs, zs),
        ensures
            ys == zs,
    {
        let act = self.spec_activation();
        let (g1, u1, mid1) = choose|g: Seq<T>, u: Seq<T>, mid: Seq<T>|
            {
                &&& #[trigger] self.spec_gate().is_forward(xs, g)
                &&& #[trigger] self.spec_up().is_forward(xs, u)
                &&& #[trigger] is_gated(act, g, u, mid)
                &&& self.is_projected_down(mid, ys)
            };
        let (g2, u2, mid2) = choose|g: Seq<T>, u: Seq<T>, mid: Seq<T>|
            {
                &&& #[trigger] self.spec_gate().is_forward(xs, g)
                &&& #[trigger] self.spec_up().is_forward(xs, u)
                &&& #[trigger] is_gated(act, g, u, mid)
                &&& self.is_projected_down(mid, zs)
            };
        self.spec_gate().forward_is_unique(xs, g1, g2);
        self.spec_up().forward_is_unique(xs, u1, u2);
        lemma_gated(act, g1, u1, mid1, mid2);
        match self.spec_sub_norm() {
            Some(norm) => {
                let m1 = choose|m: Seq<T>|
                    #[trigger] norm.is_forward(mid1, m) && self.spec_down().is_forward(m, ys);
                let m2 = choose|m: Seq<T>|
                    #[trigger] norm.is_forward(mid1, m) && self.spec_down().is_forward(m, zs);
                norm.forward_is_unique(mid1, m1, m2);
                self.spec_down().forward_is_unique(m1, ys, zs);
            },
            None => {
                self.spec_down().forward_is_unique(mid1, ys, zs);
            },
        }
    }
}

proof fn lemma_attention_scale<T: Real>(head_dim: usize, a: T, b: T)
    requires
        is_functional::<T>(),
        is_attention_scale(head_dim, a),
        is_attention_scale(head_dim, b),
    ensures
        a == b,
{
    let (f1, q1, one1) = choose|f: T, q: T, one: T|
        is_usize(head_dim, f) && #[trigger] is_sqrt(f, q) && is_one(one) && #[trigger] is_over(
            one,
            q,
            a,
        );
    let (f2, q2, one2) = choose|f: T, q: T, one: T|
        is_usize(head_dim, f) && #[trigger] is_sqrt(f, q) && is_one(one) && #[trigger] is_over(
            one,
            q,
            b,
        );
    assert(f1 == f2);
    assert(q1 == q2);
    assert(one1 == one2);
}

proof fn lemma_score<T: Real>(q: Seq<T>, k: Seq<T>, scale: T, a: T, b: T)
    requires
        is_functional::<T>(),
        is_score(q, k, scale, a),
        is_score(q, k, scale, b),
    ensures
        a == b,
{
    let d = choose|d: T| #[trigger] is_dot(q, k, d) && is_times(d, scale, a);
    let e = choose|e: T| #[trigger] is_dot(q, k, e) && is_times(e, scale, b);
    dots_are_unique(q, k, d, e);
}

proof fn lemma_weighted_sum<T: Real>(
    weights: Seq<T>,
    values: Seq<T>,
    n_heads: int,
    head_dim: int,
    h: int,
    d: int,
    a: T,
    b: T,
)
    requires
        is_functional::<T>(),
        is_weighted_sum(weights, values, n_heads, head_dim, h, d, a),
        is_weighted_sum(weights, values, n_heads, head_dim, h, d, b),
    ensures
        a == b,
{
    let ps = choose|ps: Seq<T>|
        {
            &&& ps.len() == weights.len()
            &&& #[trigger] is_sum(ps, a)
            &&& forall|s: int|
                0 <= s < weights.len() ==> is_times(
                    weights[s],
                    head_at(values, n_heads, head_dim, s, h)[d],
                    #[trigger] ps[s],
                )
        };
    let qs = choose|ps: Seq<T>|
        {
            &&& ps.len() == weights.len()
            &&& #[trigger] is_sum(ps, b)
            &&& forall|s: int|
                0 <= s < weights.len() ==> is_times(
                    weights[s],
                    head_at(values, n_heads, head_dim, s, h)[d],
                    #[trigger] ps[s],
                )
        };
    assert forall|s: int| 0 <= s < ps.len() implies ps[s] == qs[s] by {
        let v = head_at(values, n_heads, head_dim, s, h)[d];
        assert(is_times(weights[s], v, ps[s]) && is_times(weights[s], v, qs[s]));
    }
    assert(ps =~= qs);
    sums_are_unique(ps, a, b);
}

/// What a head reads is unique.
pub proof fn reading_is_unique<T: Real>(
    q: Seq<T>,
    keys: Seq<T>,
    values: Seq<T>,
    n_heads: int,
    head_dim: int,
    h: int,
    n: int,
    scale: T,
    out1: Seq<T>,
    out2: Seq<T>,
)
    requires
        is_functional::<T>(),
        is_read_out(q, keys, values, n_heads, head_dim, h, n, scale, out1),
        is_read_out(q, keys, values, n_heads, head_dim, h, n, scale, out2),
    ensures
        out1 == out2,
{
    let (scores1, weights1) = choose|scores: Seq<T>, weights: Seq<T>|
        {
            &&& scores.len() == n
            &&& forall|s: int|
                0 <= s < n ==> is_score(
                    q,
                    head_at(keys, n_heads, head_dim, s, h),
                    scale,
                    #[trigger] scores[s],
                )
            &&& #[trigger] is_softmax(scores, weights)
            &&& weights.len() == n
            &&& out1.len() == head_dim
            &&& forall|d: int|
                0 <= d < head_dim ==> is_weighted_sum(
                    weights,
                    values,
                    n_heads,
                    head_dim,
                    h,
                    d,
                    #[trigger] out1[d],
                )
        };
    let (scores2, weights2) = choose|scores: Seq<T>, weights: Seq<T>|
        {
            &&& scores.len() == n
            &&& forall|s: int|
                0 <= s < n ==> is_score(
                    q,
                    head_at(keys, n_heads, head_dim, s, h),
                    scale,
                    #[trigger] scores[s],
                )
            &&& #[trigger] is_softmax(scores, weights)
            &&& weights.len() == n
            &&& out2.len() == head_dim
            &&& forall|d: int|
                0 <= d < head_dim ==> is_weighted_sum(
                    weights,
                    values,
                    n_heads,
                    head_dim,
                    h,
                    d,
                    #[trigger] out2[d],
                )
        };
    assert forall|s: int| 0 <= s < scores1.len() implies scores1[s] == scores2[s] by {
        let k = head_at(keys, n_heads, head_dim, s, h);
        assert(is_score(q, k, scale, scores1[s]));
        assert(is_score(q, k, scale, scores2[s]));
        lemma_score(q, k, scale, scores1[s], scores2[s]);
    }
    assert(scores1 =~= scores2);
    softmax_is_unique(scores1, weights1, weights2);
    assert forall|d: int| 0 <= d < out1.len() implies out1[d] == out2[d] by {
        assert(is_weighted_sum(weights1, values, n_heads, head_dim, h, d, out1[d]));
        assert(is_weighted_sum(weights1, values, n_heads, head_dim, h, d, out2[d]));
        lemma_weighted_sum(weights1, values, n_heads, head_dim, h, d, out1[d], out2[d]);
    }
    assert(out1 =~= out2);
}

impl<T: Real> MultiHeadAttention<T> {
    proof fn lemma_token_output(
        &self,
        q: Seq<T>,
        keys: Seq<T>,
        values: Seq<T>,
        n: int,
        scale: T,
        y1: Seq<T>,
        y2: Seq<T>,
    )
        requires
            is_functional::<T>(),
            self.is_token_output(q, keys, values, n, scale, y1),
            self.is_token_output(q, keys, values, n, scale, y2),
        ensures
            y1 == y2,
    {
        let hd = self.spec_head_dim() as int;
        let c1 = choose|concat: Seq<T>|
            #[trigger] self.is_attended(q, keys, values, n, scale, concat) && self.is_output(
                concat,
                y1,
            );
        let c2 = choose|concat: Seq<T>|
            #[trigger] self.is_attended(q, keys, values, n, scale, concat) && self.is_output(
                concat,
                y2,
            );
        assert forall|qh: int| 0 <= qh < self.spec_n_heads() implies #[trigger] row_of(c1, hd, qh)
            == row_of(c2, hd, qh) by {
            reading_is_unique(
                row_of(q, hd, qh),
                keys,
                values,
                self.spec_n_kv_heads() as int,
                hd,
                self.kv_head_of(qh),
                n,
                scale,
                row_of(c1, hd, qh),
                row_of(c2, hd, qh),
            );
        }
        lemma_same_rows(c1, c2, hd, self.spec_n_heads() as int);
        match self.spec_o_sub_norm() {
            Some(norm) => {
                let m1 = choose|m: Seq<T>|
                    #[trigger] norm.is_forward(c1, m) && self.spec_o_proj().is_forward(m, y1);
                let m2 = choose|m: Seq<T>|
                    #[trigger] norm.is_forward(c1, m) && self.spec_o_proj().is_forward(m, y2);
                norm.forward_is_unique(c1, m1, m2);
                self.spec_o_proj().forward_is_unique(m1, y1, y2);
            },
            None => {
                self.spec_o_proj().forward_is_unique(c1, y1, y2);
            },
        }
    }

    proof fn lemma_projection(
        &self,
        x: Seq<T>,
        pos: usize,
        q1: Seq<T>,
        k1: Seq<T>,
        v1: Seq<T>,
        q2: Seq<T>,
        k2: Seq<T>,
        v2: Seq<T>,
    )
        requires
            is_functional::<T>(),
            self.wf(),
            self.is_projection(x, pos, q1, k1, v1),
            self.is_projection(x, pos, q2, k2, v2),
        ensures
            q1 == q2,
            k1 == k2,
            v1 == v2,
    {
        let nh = self.spec_n_heads() as int;
        let nk = self.spec_n_kv_heads() as int;
        let rope = self.spec_rope();
        let (a1, b1) = choose|q0: Seq<T>, k0: Seq<T>|
            {
                &&& #[trigger] self.spec_q_proj().is_forward(x, q0)
                &&& #[trigger] self.spec_k_proj().is_forward(x, k0)
                &&& self.spec_v_proj().is_forward(x, v1)
                &&& rope.is_forward_heads(q0, nh, pos, q1)
                &&& rope.is_forward_heads(k0, nk, pos, k1)
            };
        let (a2, b2) = choose|q0: Seq<T>, k0: Seq<T>|
            {
                &&& #[trigger] self.spec_q_proj().is_forward(x, q0)
                &&& #[trigger] self.spec_k_proj().is_forward(x, k0)
                &&& self.spec_v_proj().is_forward(x, v2)
                &&& rope.is_forward_heads(q0, nh, pos, q2)
                &&& rope.is_forward_heads(k0, nk, pos, k2)
            };
        self.spec_q_proj().forward_is_unique(x, a1, a2);
        self.spec_k_proj().forward_is_unique(x, b1, b2);
        self.spec_v_proj().forward_is_unique(x, v1, v2);
        rope.heads_are_unique(a1, nh, pos, q1, q2);
        rope.heads_are_unique(b1, nk, pos, k1, k2);
    }

    /// A pass of an attention layer has one result.
    #[verifier::rlimit(40)]
    pub proof fn step_is_unique(
        &self,
        past_keys: Seq<T>,
        past_values: Seq<T>,
        past: int,
        xs: Seq<T>,
        n: int,
        start_pos: int,
        k1: Seq<T>,
        v1: Seq<T>,
        ys1: Seq<T>,
        k2: Seq<T>,
        v2: Seq<T>,
        ys2: Seq<T>,
    )
        requires
            is_functional::<T>(),
            self.wf(),
            0 <= n,
            self.is_step(past_keys, past_values, past, xs, n, start_pos, k1, v1, ys1),
            self.is_step(past_keys, past_values, past, xs, n, start_pos, k2, v2, ys2),
        ensures
            k1 == k2,
            v1 == v2,
            ys1 == ys2,
    {
        let (q1, s1) = choose|q: Seq<T>, scale: T|
            {
                &&& #[trigger] self.is_projected(xs, n, start_pos, q, k1, v1)
                &&& is_attention_scale(self.spec_head_dim(), scale)
                &&& #[trigger] self.is_outputs(
                    past,
                    n,
                    q,
                    past_keys + k1,
                    past_values + v1,
                    scale,
                    ys1,
                )
            };
        let (q2, s2) = choose|q: Seq<T>, scale: T|
            {
                &&& #[trigger] self.is_projected(xs, n, start_pos, q, k2, v2)
                &&& is_attention_scale(self.spec_head_dim(), scale)
                &&& #[trigger] self.is_outputs(
                    past,
                    n,
                    q,
                    past_keys + k2,
                    past_values + v2,
                    scale,
                    ys2,
                )
            };
        lemma_attention_scale(self.spec_head_dim(), s1, s2);
        let ed = self.spec_embed_dim() as int;
        let qd = self.q_dim();
        let kd = self.kv_dim();
        assert(0 <= qd && 0 <= kd) by (nonlinear_arith)
            requires
                qd == self.spec_n_heads() * self.spec_head_dim(),
                kd == self.spec_n_kv_heads() * self.spec_head_dim(),
        ;
        assert forall|t: int| 0 <= t < n implies #[trigger] row_of(q1, qd, t) == row_of(q2, qd, t)
            && row_of(k1, kd, t) == row_of(k2, kd, t) && row_of(v1, kd, t) == row_of(v2, kd, t) by {
            assert(self.is_projection(
                row_of(xs, ed, t),
                (start_pos + t) as usize,
                row_of(q1, qd, t),
                row_of(k1, kd, t),
                row_of(v1, kd, t),
            ));
            assert(self.is_projection(
                row_of(xs, ed, t),
                (start_pos + t) as usize,
                row_of(q2, qd, t),
                row_of(k2, kd, t),
                row_of(v2, kd, t),
            ));
            self.lemma_projection(
                row_of(xs, ed, t),
                (start_pos + t) as usize,
                row_of(q1, qd, t),
                row_of(k1, kd, t),
                row_of(v1, kd, t),
                row_of(q2, qd, t),
                row_of(k2, kd, t),
                row_of(v2, kd, t),
            );
        }
        lemma_same_rows(q1, q2, qd, n);
        assert forall|t: int| 0 <= t < n implies #[trigger] row_of(k1, kd, t) == row_of(k2, kd, t) by {
            assert(row_of(q1, qd, t) == row_of(q2, qd, t));
        }
        lemma_same_rows(k1, k2, kd, n);
        assert forall|t: int| 0 <= t < n implies #[trigger] row_of(v1, kd, t) == row_of(v2, kd, t) by {
            assert(row_of(q1, qd, t) == row_of(q2, qd, t));
        }
        lemma_same_rows(v1, v2, kd, n);
        let keys = past_keys + k1;
        let values = past_values + v1;
        assert forall|t: int| 0 <= t < n implies #[trigger] row_of(ys1, ed, t) == row_of(
            ys2,
            ed,
            t,
        ) by {
            self.lemma_token_output(
                row_of(q1, qd, t),
                keys,
                values,
                past + t + 1,
                s1,
                row_of(ys1, ed, t),
                row_of(ys2, ed, t),
            );
        }
        lemma_same_rows(ys1, ys2, ed, n);
    }

    /// An attention layer makes one thing of a sequence.
    pub proof fn forward_is_unique(
        &self,
        xs: Seq<T>,
        n: int,
        start_pos: int,
        ys1: Seq<T>,
        ys2: Seq<T>,
    )
        requires
            is_functional::<T>(),
            self.wf(),
            0 <= n,
            self.is_forward(xs, n, start_pos, ys1),
            self.is_forward(xs, n, start_pos, ys2),
        ensures
            ys1 == ys2,
    {
        let none = Seq::<T>::empty();
        let (k1, v1) = choose|k: Seq<T>, v: Seq<T>| #[trigger]
            self.is_step(none, none, 0, xs, n, start_pos, k, v, ys1);
        let (k2, v2) = choose|k: Seq<T>, v: Seq<T>| #[trigger]
            self.is_step(none, none, 0, xs, n, start_pos, k, v, ys2);
        self.step_is_unique(none, none, 0, xs, n, start_pos, k1, v1, ys1, k2, v2, ys2);
    }
}

pub(crate) proof fn lemma_sums<T: Real>(xs: Seq<T>, ys: Seq<T>, rs: Seq<T>, ss: Seq<T>)
    requires
        is_functional::<T>(),
        is_sums(xs, ys, rs),
        is_sums(xs, ys, ss),
    ensures
        rs == ss,
{
    assert forall|i: int| 0 <= i < rs.len() implies rs[i] == ss[i] by {
        assert(is_plus(xs[i], ys[i], rs[i]) && is_plus(xs[i], ys[i], ss[i]));
    }
    assert(rs =~= ss);
}

pub(crate) proof fn lemma_normed_rows<T: Real>(
    norm: RmsNorm<T>,
    xs: Seq<T>,
    n: int,
    width: int,
    ys: Seq<T>,
    zs: Seq<T>,
)
    requires
        is_functional::<T>(),
        0 <= n,
        0 <= width,
        is_normed_rows(norm, xs, n, width, ys),
        is_normed_rows(norm, xs, n, width, zs),
    ensures
        ys == zs,
{
    assert forall|t: int| 0 <= t < n implies #[trigger] row_of(ys, width, t) == row_of(
        zs,
        width,
        t,
    ) by {
        norm.forward_is_unique(row_of(xs, width, t), row_of(ys, width, t), row_of(zs, width, t));
    }
    lemma_same_rows(ys, zs, width, n);
}

pub(crate) proof fn lemma_fed_rows<T: Real>(
    ffn: SwiGLU<T>,
    xs: Seq<T>,
    n: int,
    width: int,
    ys: Seq<T>,
    zs: Seq<T>,
)
    requires
        is_functional::<T>(),
        0 <= n,
        0 <= width,
        is_fed_rows(ffn, xs, n, width, ys),
        is_fed_rows(ffn, xs, n, width, zs),
    ensures
        ys == zs,
{
    assert forall|t: int| 0 <= t < n implies #[trigger] row_of(ys, width, t) == row_of(
        zs,
        width,
        t,
    ) by {
        ffn.forward_is_unique(row_of(xs, width, t), row_of(ys, width, t), row_of(zs, width, t));
    }
    lemma_same_rows(ys, zs, width, n);
}

/// Two caches hold the same positions.
pub open spec fn same_contents<T: Real>(a: KvCache<T>, b: KvCache<T>) -> bool {
    &&& a.spec_len() == b.spec_len()
    &&& a.spec_keys() == b.spec_keys()
    &&& a.spec_values() == b.spec_values()
}

impl<T: Real> TransformerBlock<T> {
    proof fn lemma_completed(&self, xs: Seq<T>, n: int, attn: Seq<T>, ys: Seq<T>, zs: Seq<T>)
        requires
            is_functional::<T>(),
            0 <= n,
            self.is_completed(xs, n, attn, ys),
            self.is_completed(xs, n, attn, zs),
        ensures
            ys == zs,
    {
        let width = self.spec_embed_dim() as int;
        let norm = self.spec_ffn_norm();
        let ffn = self.spec_ffn();
        let (h1, normed1, fed1) = choose|h: Seq<T>, normed: Seq<T>, fed: Seq<T>|
            {
                &&& #[trigger] is_sums(xs, attn, h)
                &&& #[trigger] is_normed_rows(norm, h, n, width, normed)
                &&& #[trigger] is_fed_rows(ffn, normed, n, width, fed)
                &&& is_sums(h, fed, ys)
            };
        let (h2, normed2, fed2) = choose|h: Seq<T>, normed: Seq<T>, fed: Seq<T>|
            {
                &&& #[trigger] is_sums(xs, attn, h)
                &&& #[trigger] is_normed_rows(norm, h, n, width, normed)
                &&& #[trigger] is_fed_rows(ffn, normed, n, width, fed)
                &&& is_sums(h, fed, zs)
            };
        lemma_sums(xs, attn, h1, h2);
        lemma_normed_rows(norm, h1, n, width, normed1, normed2);
        lemma_fed_rows(ffn, normed1, n, width, fed1, fed2);
        lemma_sums(h1, fed1, ys, zs);
    }

    /// A cached pass of a block has one result, and leaves one content of the
    /// cache.
    pub proof fn cached_forward_is_unique(
        &self,
        before1: &KvCache<T>,
        after1: &KvCache<T>,
        ys1: Seq<T>,
        before2: &KvCache<T>,
        after2: &KvCache<T>,
        ys2: Seq<T>,
        xs: Seq<T>,
        n: int,
    )
        requires
            is_functional::<T>(),
            self.wf(),
            0 <= n,
            same_contents(*before1, *before2),
            self.is_cached_forward(before1, xs, n, after1, ys1),
            self.is_cached_forward(before2, xs, n, after2, ys2),
        ensures
            ys1 == ys2,
            same_contents(*after1, *after2),
    {
        let attention = self.spec_attention();
        let (normed1, attn1) = choose|normed: Seq<T>, attn: Seq<T>|
            {
                &&& #[trigger] self.is_attention_input(xs, n, normed)
                &&& #[trigger] attention.is_cached_forward(before1, normed, n, after1, attn)
                &&& self.is_completed(xs, n, attn, ys1)
            };
        let (normed2, attn2) = choose|normed: Seq<T>, attn: Seq<T>|
            {
                &&& #[trigger] self.is_attention_input(xs, n, normed)
                &&& #[trigger] attention.is_cached_forward(before2, normed, n, after2, attn)
                &&& self.is_completed(xs, n, attn, ys2)
            };
        lemma_normed_rows(
            self.spec_attn_norm(),
            xs,
            n,
            self.spec_embed_dim() as int,
            normed1,
            normed2,
        );
        let len = before1.spec_len() as int;
        let (k1, v1) = choose|k: Seq<T>, v: Seq<T>|
            {
                &&& #[trigger] attention.is_step(
                    before1.spec_keys(),
                    before1.spec_values(),
                    len,
                    normed1,
                    n,
                    len,
                    k,
                    v,
                    attn1,
                )
                &&& after1.spec_keys() == before1.spec_keys() + k
                &&& after1.spec_values() == before1.spec_values() + v
                &&& after1.spec_len() == before1.spec_len() + n
            };
        let (k2, v2) = choose|k: Seq<T>, v: Seq<T>|
            {
                &&& #[trigger] attention.is_step(
                    before2.spec_keys(),
                    before2.spec_values(),
                    len,
                    normed1,
                    n,
                    len,
                    k,
                    v,
                    attn2,
                )
                &&& after2.spec_keys() == before2.spec_keys() + k
                &&& after2.spec_values() == before2.spec_values() + v
                &&& after2.spec_len() == before2.spec_len() + n
            };
        attention.step_is_unique(
            before1.spec_keys(),
            before1.spec_values(),
            len,
            normed1,
            n,
            len,
            k1,
            v1,
            attn1,
            k2,
            v2,
            attn2,
        );
        self.lemma_completed(xs, n, attn1, ys1, ys2);
    }

    /// A pass of a block has one result.
    pub proof fn forward_is_unique(
        &self,
        xs: Seq<T>,
        n: int,
        start_pos: int,
        ys1: Seq<T>,
        ys2: Seq<T>,
    )
        requires
            is_functional::<T>(),
            self.wf(),
            0 <= n,
            self.is_forward(xs, n, start_pos, ys1),
            self.is_forward(xs, n, start_pos, ys2),
        ensures
            ys1 == ys2,
    {
        let attention = self.spec_attention();
        let none = Seq::<T>::empty();
        let (normed1, attn1) = choose|normed: Seq<T>, attn: Seq<T>|
            {
                &&& #[trigger] self.is_attention_input(xs, n, normed)
                &&& #[trigger] attention.is_forward(normed, n, start_pos, attn)
                &&& self.is_completed(xs, n, attn, ys1)
            };
        let (normed2, attn2) = choose|normed: Seq<T>, attn: Seq<T>|
            {
                &&& #[trigger] self.is_attention_input(xs, n, normed)
                &&& #[trigger] attention.is_forward(normed, n, start_pos, attn)
                &&& self.is_completed(xs, n, attn, ys2)
            };
        lemma_normed_rows(
            self.spec_attn_norm(),
            xs,
            n,
            self.spec_embed_dim() as int,
            normed1,
            normed2,
        );
        let (k1, v1) = choose|k: Seq<T>, v: Seq<T>| #[trigger]
            attention.is_step(none, none, 0, normed1, n, start_pos, k, v, attn1);
        let (k2, v2) = choose|k: Seq<T>, v: Seq<T>| #[trigger]
            attention.is_step(none, none, 0, normed1, n, start_pos, k, v, attn2);
        attention.step_is_unique(
            none,
            none,
            0,
            normed1,
            n,
            start_pos,
            k1,
            v1,
            attn1,
            k2,
            v2,
            attn2,
        );
        self.lemma_completed(xs, n, attn1, ys1, ys2);
    }
}

proof fn lemma_unrolled_dot<T: Real>(xs: Seq<T>, ys: Seq<T>, r: T, s: T)
    requires
        is_functional::<T>(),
        is_unrolled_dot(xs, ys, r),
        is_unrolled_dot(xs, ys, s),
    ensures
        r == s,
{
    let ps = choose|ps: Seq<T>| #[trigger] is_products(xs, ys, ps) && is_unrolled_sum(ps, r);
    let qs = choose|qs: Seq<T>| #[trigger] is_products(xs, ys, qs) && is_unrolled_sum(qs, s);
    products_are_unique(xs, ys, ps, qs);
    let n = ps.len() as int / 4;
    let (a0, a1, a2, a3, t1, t2, t3) = choose|s0: T, s1: T, s2: T, s3: T, t1: T, t2: T, t3: T|
        {
            &&& is_sum(lane(ps, n, 0), s0)
            &&& is_sum(lane(ps, n, 1), s1)
            &&& is_sum(lane(ps, n, 2), s2)
            &&& is_sum(lane(ps, n, 3), s3)
            &&& #[trigger] is_plus(s0, s1, t1)
            &&& #[trigger] is_plus(t1, s2, t2)
            &&& #[trigger] is_plus(t2, s3, t3)
            &&& is_sum_from(t3, ps.skip(4 * n), r)
        };
    let (b0, b1, b2, b3, u1, u2, u3) = choose|s0: T, s1: T, s2: T, s3: T, t1: T, t2: T, t3: T|
        {
            &&& is_sum(lane(ps, n, 0), s0)
            &&& is_sum(lane(ps, n, 1), s1)
            &&& is_sum(lane(ps, n, 2), s2)
            &&& is_sum(lane(ps, n, 3), s3)
            &&& #[trigger] is_plus(s0, s1, t1)
            &&& #[trigger] is_plus(t1, s2, t2)
            &&& #[trigger] is_plus(t2, s3, t3)
            &&& is_sum_from(t3, ps.skip(4 * n), s)
        };
    sums_are_unique(lane(ps, n, 0), a0, b0);
    sums_are_unique(lane(ps, n, 1), a1, b1);
    sums_are_unique(lane(ps, n, 2), a2, b2);
    sums_are_unique(lane(ps, n, 3), a3, b3);
    assert(t1 == u1);
    assert(t2 == u2);
    assert(t3 == u3);
    sums_from_are_unique(t3, ps.skip(4 * n), r, s);
}

proof fn lemma_scores<T: Real>(h: Seq<T>, weights: Seq<T>, width: int, ls1: Seq<T>, ls2: Seq<T>)
    requires
        is_functional::<T>(),
        ls1.len() == ls2.len(),
        is_scores(h, weights, width, ls1),
        is_scores(h, weights, width, ls2),
    ensures
        ls1 == ls2,
{
    assert forall|v: int| 0 <= v < ls1.len() implies ls1[v] == ls2[v] by {
        assert(is_unrolled_dot(h, row_of(weights, width, v), ls1[v]));
        assert(is_unrolled_dot(h, row_of(weights, width, v), ls2[v]));
        lemma_unrolled_dot(h, row_of(weights, width, v), ls1[v], ls2[v]);
    }
    assert(ls1 =~= ls2);
}

impl<T: Real> TransformerModel<T> {
    proof fn lemma_logits(&self, xs: Seq<T>, n: int, ls1: Seq<T>, ls2: Seq<T>)
        requires
            is_functional::<T>(),
            0 <= n,
            self.is_logits(xs, n, ls1),
            self.is_logits(xs, n, ls2),
        ensures
            ls1 == ls2,
    {
        let width = self.spec_embed_dim() as int;
        let vocab = self.spec_vocab_size() as int;
        let norm = self.spec_final_norm();
        let normed1 = choose|normed: Seq<T>|
            {
                &&& #[trigger] is_normed_rows(norm, xs, n, width, normed)
                &&& ls1.len() == n * vocab
                &&& forall|t: int|
                    0 <= t < n ==> self.is_token_scores(
                        row_of(normed, width, t),
                        #[trigger] row_of(ls1, vocab, t),
                    )
            };
        let normed2 = choose|normed: Seq<T>|
            {
                &&& #[trigger] is_normed_rows(norm, xs, n, width, normed)
                &&& ls2.len() == n * vocab
                &&& forall|t: int|
                    0 <= t < n ==> self.is_token_scores(
                        row_of(normed, width, t),
                        #[trigger] row_of(ls2, vocab, t),
                    )
            };
        lemma_normed_rows(norm, xs, n, width, normed1, normed2);
        assert forall|t: int| 0 <= t < n implies #[trigger] row_of(ls1, vocab, t) == row_of(
            ls2,
            vocab,
            t,
        ) by {
            lemma_row_bounds(t, n, vocab);
            let h = row_of(normed1, width, t);
            let a = row_of(ls1, vocab, t);
            let b = row_of(ls2, vocab, t);
            assert(self.is_token_scores(h, a));
            assert(self.is_token_scores(h, b));
            match self.spec_output_proj() {
                OutputProjection::Linear(layer) => layer.forward_is_unique(h, a, b),
                OutputProjection::Float(tensor) => lemma_scores(h, tensor.spec_data(), width, a, b),
                OutputProjection::TiedEmbedding => lemma_scores(
                    h,
                    self.spec_embedding().spec_data(),
                    width,
                    a,
                    b,
                ),
            }
        }
        lemma_same_rows(ls1, ls2, vocab, n);
    }

    proof fn lemma_embedded(&self, tokens: Seq<u32>, xs: Seq<T>, ys: Seq<T>)
        requires
            self.is_embedded(tokens, xs),
            self.is_embedded(tokens, ys),
        ensures
            xs == ys,
    {
        let width = self.spec_embed_dim() as int;
        let n = tokens.len() as int;
        assert forall|t: int| 0 <= t < n implies #[trigger] row_of(xs, width, t) == row_of(
            ys,
            width,
            t,
        ) by {
            assert(row_of(ys, width, t) == row_of(ys, width, t));
        }
        lemma_same_rows(xs, ys, width, n);
    }

    proof fn lemma_stack(
        &self,
        n: int,
        start_pos: int,
        hs1: Seq<Seq<T>>,
        hs2: Seq<Seq<T>>,
        i: int,
    )
        requires
            is_functional::<T>(),
            self.wf(),
            0 <= n,
            self.is_stack(n, start_pos, hs1),
            self.is_stack(n, start_pos, hs2),
            hs1[0] == hs2[0],
            0 <= i <= self.spec_blocks().len(),
        ensures
            hs1[i] == hs2[i],
        decreases i,
    {
        if i > 0 {
            self.lemma_stack(n, start_pos, hs1, hs2, i - 1);
            let block = self.spec_blocks()[i - 1];
            assert(block.wf());
            assert(block.is_forward(hs1[i - 1], n, start_pos, hs1[i]));
            assert(block.is_forward(hs2[i - 1], n, start_pos, hs2[i]));
            block.forward_is_unique(hs1[i - 1], n, start_pos, hs1[i], hs2[i]);
        }
    }

    /// The scores of the last token are the last row of the scores of all.
    pub proof fn last_scores_are_the_last_row(
        &self,
        tokens: Seq<u32>,
        start_pos: int,
        last: Seq<T>,
        ls: Seq<T>,
    )
        requires
            is_functional::<T>(),
            self.wf(),
            self.is_last_scores(tokens, start_pos, last),
            self.is_forward(tokens, start_pos, ls),
        ensures
            last == row_of(ls, self.spec_vocab_size() as int, tokens.len() - 1),
    {
        let all = choose|all: Seq<T>| #[trigger]
            self.is_forward(tokens, start_pos, all) && last == row_of(
                all,
                self.spec_vocab_size() as int,
                tokens.len() - 1,
            );
        self.forward_is_unique(tokens, start_pos, all, ls);
    }

    /// The model gives tokens one set of scores.
    pub proof fn forward_is_unique(
        &self,
        tokens: Seq<u32>,
        start_pos: int,
        ls1: Seq<T>,
        ls2: Seq<T>,
    )
        requires
            is_functional::<T>(),
            self.wf(),
            self.is_forward(tokens, start_pos, ls1),
            self.is_forward(tokens, start_pos, ls2),
        ensures
            ls1 == ls2,
    {
        let n = tokens.len() as int;
        let k = self.spec_blocks().len() as int;
        let hs1 = choose|hs: Seq<Seq<T>>|
            {
                &&& #[trigger] self.is_stack(n, start_pos, hs)
                &&& self.is_embedded(tokens, hs[0])
                &&& self.is_logits(hs[k], n, ls1)
            };
        let hs2 = choose|hs: Seq<Seq<T>>|
            {
                &&& #[trigger] self.is_stack(n, start_pos, hs)
                &&& self.is_embedded(tokens, hs[0])
                &&& self.is_logits(hs[k], n, ls2)
            };
        self.lemma_embedded(tokens, hs1[0], hs2[0]);
        self.lemma_stack(n, start_pos, hs1, hs2, k);
        self.lemma_logits(hs1[k], n, ls1, ls2);
    }

    /// The caches of the blocks hold the same positions.
    pub open spec fn same_caches(&self, a: Seq<KvCache<T>>, b: Seq<KvCache<T>>) -> bool {
        forall|i: int|
            0 <= i < self.spec_blocks().len() ==> same_contents(#[trigger] a[i], b[i])
    }

    proof fn lemma_cached_stack(
        &self,
        n: int,
        before1: Seq<KvCache<T>>,
        after1: Seq<KvCache<T>>,
        hs1: Seq<Seq<T>>,
        before2: Seq<KvCache<T>>,
        after2: Seq<KvCache<T>>,
        hs2: Seq<Seq<T>>,
        i: int,
    )
        requires
            is_functional::<T>(),
            self.wf(),
            0 <= n,
            self.same_caches(before1, before2),
            self.is_cached_stack(n, before1, after1, hs1),
            self.is_cached_stack(n, before2, after2, hs2),
            hs1[0] == hs2[0],
            0 <= i <= self.spec_blocks().len(),
        ensures
            hs1[i] == hs2[i],
            forall|j: int| 0 <= j < i ==> same_contents(#[trigger] after1[j], after2[j]),
        decreases i,
    {
        if i > 0 {
            self.lemma_cached_stack(n, before1, after1, hs1, before2, after2, hs2, i - 1);
            let block = self.spec_blocks()[i - 1];
            assert(block.wf());
            assert(same_contents(before1[i - 1], before2[i - 1]));
            assert(block.is_cached_forward(
                &before1[i - 1],
                hs1[i - 1],
                n,
                &after1[i - 1],
                hs1[i],
            ));
            assert(block.is_cached_forward(
                &before2[i - 1],
                hs2[i - 1],
                n,
                &after2[i - 1],
                hs2[i],
            ));
            block.cached_forward_is_unique(
                &before1[i - 1],
                &after1[i - 1],
                hs1[i],
                &before2[i - 1],
                &after2[i - 1],
                hs2[i],
                hs1[i - 1],
                n,
            );
        }
    }

    /// The model gives tokens one set of scores on caches of one content, and
    /// leaves caches of one content.
    pub proof fn cached_forward_is_unique(
        &self,
        tokens: Seq<u32>,
        before1: Seq<KvCache<T>>,
        after1: Seq<KvCache<T>>,
        ls1: Seq<T>,
        before2: Seq<KvCache<T>>,
        after2: Seq<KvCache<T>>,
        ls2: Seq<T>,
    )
        requires
            is_functional::<T>(),
            self.wf(),
            self.same_caches(before1, before2),
            self.is_cached_forward(before1, tokens, after1, ls1),
            self.is_cached_forward(before2, tokens, after2, ls2),
        ensures
            ls1 == ls2,
            self.same_caches(after1, after2),
    {
        let n = tokens.len() as int;
        let k = self.spec_blocks().len() as int;
        let hs1 = choose|hs: Seq<Seq<T>>|
            {
                &&& #[trigger] self.is_cached_stack(n, before1, after1, hs)
                &&& self.is_embedded(tokens, hs[0])
                &&& self.is_logits(hs[k], n, ls1)
            };
        let hs2 = choose|hs: Seq<Seq<T>>|
            {
                &&& #[trigger] self.is_cached_stack(n, before2, after2, hs)
                &&& self.is_embedded(tokens, hs[0])
                &&& self.is_logits(hs[k], n, ls2)
            };
        self.lemma_embedded(tokens, hs1[0], hs2[0]);
        self.lemma_cached_stack(n, before1, after1, hs1, before2, after2, hs2, k);
        self.lemma_logits(hs1[k], n, ls1, ls2);
    }
}

/// A number type whose operations are functions computes one scale of scores.
pub proof fn scales_of_functions_are_fixed<T: Real>(head_dim: usize)
    requires
        is_functional::<T>(),
    ensures
        scale_is_fixed::<T>(head_dim),
{
    assert forall|a: T, b: T| #[trigger]
        is_attention_scale(head_dim, a) && #[trigger] is_attention_scale(head_dim, b) implies a
        == b by {
        lemma_attention_scale(head_dim, a, b);
    }
}

} // verus!
