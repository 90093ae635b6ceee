//! What linear layers approximate: the product of their weights with their
//! input, up to what quantization loses.

use crate::exact::{adds, counts, multiplies, orders, rounds, size};
use crate::layers::bitlinear::BitLinear;
use crate::numeric::{
    Real, is_abs, is_at_most, is_i32, is_max, is_maximum, is_one, is_over, is_rounded, is_times,
    is_zero,
};
use crate::ops::matmul::{dot_product, is_product, is_rescaled, is_rescaled_element, is_scaled_product, partial_dot};
use crate::ops::quantize::{
    clamped, is_abs_values, is_absmax, is_quantized, is_quantized_element, is_scale_of,
};
use crate::tensor::{Ternary, weight_value};
use vstd::prelude::*;

verus! {

/// The sum of the first `k` weighted values.
pub open spec fn weighted<T>(v: spec_fn(T) -> real, ws: Seq<Ternary>, xs: Seq<T>, k: nat) -> real
    decreases k,
{
    if k == 0 {
        0 as real
    } else {
        weighted(v, ws, xs, (k - 1) as nat) + (weight_value(ws[k - 1]) as real) * v(xs[k - 1])
    }
}

proof fn lemma_maximum<T: Real>(v: spec_fn(T) -> real, start: T, xs: Seq<T>, r: T)
    requires
        orders(v),
        is_maximum(start, xs, r),
    ensures
        v(r) >= v(start),
        forall|i: int| 0 <= i < xs.len() ==> v(r) >= v(#[trigger] xs[i]),
        v(r) == v(start) || exists|i: int| 0 <= i < xs.len() && v(r) == v(#[trigger] xs[i]),
    decreases xs.len(),
{
    if xs.len() > 0 {
        let p = choose|p: T|
            is_maximum(start, xs.drop_last(), p) && #[trigger] is_max(p, xs.last(), r);
        lemma_maximum(v, start, xs.drop_last(), p);
        assert forall|i: int| 0 <= i < xs.len() implies v(r) >= v(#[trigger] xs[i]) by {
            if i < xs.len() - 1 {
                assert(xs.drop_last()[i] == xs[i]);
            }
        }
        if v(r) == v(p) && v(p) != v(start) {
            let i = choose|i: int|
                0 <= i < xs.drop_last().len() && v(p) == v(#[trigger] xs.drop_last()[i]);
            assert(v(r) == v(xs[i]));
        } else if v(r) != v(start) {
            assert(v(r) == v(xs[xs.len() - 1]));
        }
    }
}

proof fn lemma_absmax<T: Real>(v: spec_fn(T) -> real, xs: Seq<T>, m: T, b: real)
    requires
        adds(v),
        orders(v),
        is_absmax(xs, m),
        0 as real <= b,
        forall|j: int| 0 <= j < xs.len() ==> size(v(#[trigger] xs[j])) <= b,
    ensures
        0 as real <= v(m) <= b,
        forall|j: int| 0 <= j < xs.len() ==> size(v(#[trigger] xs[j])) <= v(m),
{
    let (abs, z) = choose|abs: Seq<T>, z: T|
        #[trigger] is_abs_values(xs, abs) && is_zero(z) && #[trigger] is_maximum(z, abs, m);
    lemma_maximum(v, z, abs, m);
    assert forall|j: int| 0 <= j < xs.len() implies size(v(#[trigger] xs[j])) <= v(m) && v(abs[j])
        == size(v(xs[j])) by {
        assert(is_abs(xs[j], abs[j]));
    }
    if v(m) != v(z) {
        let i = choose|i: int| 0 <= i < abs.len() && v(m) == v(#[trigger] abs[i]);
        assert(size(v(xs[i])) <= b);
    }
}

/// Quantization is faithful: every value is within half a step of the multiple
/// of the scale that stands for it, and a step is the 127th part of the largest
/// size.
pub proof fn quantization_is_faithful<T: Real>(
    v: spec_fn(T) -> real,
    xs: Seq<T>,
    qs: Seq<i8>,
    scale: T,
    b: real,
)
    requires
        adds(v),
        multiplies(v),
        counts(v),
        orders(v),
        rounds(v),
        is_quantized(xs, qs, scale),
        0 as real <= b,
        forall|j: int| 0 <= j < xs.len() ==> size(v(#[trigger] xs[j])) <= b,
    ensures
        v(scale) > 0 as real,
        qs.len() == xs.len(),
        forall|j: int|
            0 <= j < xs.len() ==> 254 as real * size(
                v(#[trigger] xs[j]) - (qs[j] as real) * v(scale),
            ) <= b,
{
    let m = choose|m: T| #[trigger] is_absmax(xs, m) && is_scale_of(m, scale);
    lemma_absmax(v, xs, m, b);
    let (z, none) = choose|z: T, none: bool|
        is_zero(z) && #[trigger] is_at_most(m, z, none) && if none {
            is_one(scale)
        } else {
            exists|c: T| is_i32(127, c) && #[trigger] is_over(m, c, scale)
        };
    let s = v(scale);
    if none {
        assert(v(m) == 0 as real && s == 1 as real);
    } else {
        let c = choose|c: T| is_i32(127, c) && #[trigger] is_over(m, c, scale);
        assert(s * 127 as real == v(m));
        let top = v(m);
        assert(s > 0 as real) by (nonlinear_arith)
            requires
                s * 127 as real == top,
                top > 0 as real,
        ;
    }
    assert forall|j: int| 0 <= j < xs.len() implies 254 as real * size(
        v(#[trigger] xs[j]) - (qs[j] as real) * v(scale),
    ) <= b by {
        assert(is_quantized_element(xs[j], scale, qs[j]));
        let (p, n) = choose|p: T, n: i32|
            #[trigger] is_over(xs[j], scale, p) && #[trigger] is_rounded(p, n) && qs[j] == clamped(
                n as int,
            );
        let (x, r, k) = (v(xs[j]), v(p), n as real);
        assert(r * s == x);
        if none {
            assert(x == 0 as real);
            assert(r == 0 as real) by (nonlinear_arith)
                requires
                    r * s == 0 as real,
                    s == 1 as real,
            ;
            assert(2 as real * size(r - k) <= 1 as real);
            assert(n == 0);
            assert((qs[j] as real) * s == 0 as real) by (nonlinear_arith)
                requires
                    qs[j] == 0,
            ;
        } else {
            let top = v(m);
            assert(size(x) <= top);
            assert(-(127 as real) <= r <= 127 as real) by (nonlinear_arith)
                requires
                    r * s == x,
                    s > 0 as real,
                    s * 127 as real == top,
                    -top <= x <= top,
            ;
            assert(2 as real * size(r - k) <= 1 as real);
            assert(-127 <= n <= 127);
            let q = qs[j] as real;
            assert(q == k);
            assert(-s <= 2 as real * (x - q * s) <= s) by (nonlinear_arith)
                requires
                    r * s == x,
                    s > 0 as real,
                    -(1 as real) <= 2 as real * (r - q) <= 1 as real,
            ;
        }
    }
}

proof fn lemma_weight_times(w: int, q: int, wr: real, y: real)
    requires
        w == -1 || w == 0 || w == 1,
        wr == w as real,
    ensures
        w == -1 ==> w * q == -q && wr * y == -y,
        w == 0 ==> w * q == 0 && wr * y == 0 as real,
        w == 1 ==> w * q == q && wr * y == y,
{
    if w == -1 {
        assert(w * q == -q) by (nonlinear_arith)
            requires
                w == -1,
        ;
        assert(wr * y == -y) by (nonlinear_arith)
            requires
                wr == -(1 as real),
        ;
    } else if w == 0 {
        assert(w * q == 0) by (nonlinear_arith)
            requires
                w == 0,
        ;
        assert(wr * y == 0 as real) by (nonlinear_arith)
            requires
                wr == 0 as real,
        ;
    } else {
        assert(w * q == q) by (nonlinear_arith)
            requires
                w == 1,
        ;
        assert(wr * y == y) by (nonlinear_arith)
            requires
                wr == 1 as real,
        ;
    }
}

proof fn lemma_partial<T: Real>(
    v: spec_fn(T) -> real,
    ws: Seq<Ternary>,
    xs: Seq<T>,
    qs: Seq<i8>,
    s: real,
    b: real,
    k: nat,
)
    requires
        k <= xs.len(),
        forall|j: int|
            0 <= j < xs.len() ==> 254 as real * size(v(#[trigger] xs[j]) - (qs[j] as real) * s) <= b,
    ensures
        254 as real * size(weighted(v, ws, xs, k) - (partial_dot(ws, qs, k) as real) * s) <= b * (
        k as real),
    decreases k,
{
    if k == 0 {
        assert((0 as real) * s == 0 as real && b * (0 as real) == 0 as real) by (nonlinear_arith);
    } else {
        lemma_partial(v, ws, xs, qs, s, b, (k - 1) as nat);
        let w = weight_value(ws[k - 1]);
        let (x, q) = (v(xs[k - 1]), qs[k - 1] as int);
        let (a, d) = (weighted(v, ws, xs, (k - 1) as nat), partial_dot(ws, qs, (k - 1) as nat));
        let d2 = d + w * q;
        assert(partial_dot(ws, qs, k) == d2);
        let y = x - (q as real) * s;
        assert(254 as real * size(x - (qs[k - 1] as real) * s) <= b);
        let wr = w as real;
        let step = (q as real) * s;
        lemma_weight_times(w, q, wr, step);
        lemma_weight_times(w, q, wr, y);
        assert((d2 as real) == (d as real) + ((w * q) as real));
        let (dr, p) = (d as real, (w * q) as real);
        assert((dr + p) * s == dr * s + p * s) by (nonlinear_arith);
        assert(p * s == wr * step) by {
            if w == -1 {
                assert(p == -(q as real));
                assert((-(q as real)) * s == -((q as real) * s)) by (nonlinear_arith);
            } else if w == 0 {
                assert((0 as real) * s == 0 as real) by (nonlinear_arith);
            }
        }
        assert(wr * x - wr * ((q as real) * s) == wr * y) by (nonlinear_arith)
            requires
                y == x - (q as real) * s,
        ;
        assert(size(wr * y) <= size(y));
        let (kr, k1) = (k as real, (k - 1) as nat as real);
        assert(kr == k1 + 1 as real);
        assert(b * kr == b * k1 + b) by (nonlinear_arith)
            requires
                kr == k1 + 1 as real,
        ;
    }
}

impl<T: Real> BitLinear<T> {
    /// A layer computes the product of its weights and its input, up to what
    /// quantization loses: for inputs of size at most `b`, an output is off by
    /// no more than a 254th of `b` for each column, times the weight scale.
    pub proof fn layers_approximate_the_product(
        &self,
        v: spec_fn(T) -> real,
        xs: Seq<T>,
        ys: Seq<T>,
        b: real,
        row: int,
    )
        requires
            adds(v),
            multiplies(v),
            counts(v),
            orders(v),
            rounds(v),
            0 as real <= b,
            xs.len() == self.spec_in(),
            forall|j: int| 0 <= j < xs.len() ==> size(v(#[trigger] xs[j])) <= b,
            self.is_forward(xs, ys),
            self.spec_weights().wf(),
            0 <= row < self.spec_out(),
        ensures
            ys.len() == self.spec_out(),
            254 as real * size(
                v(ys[row]) - v(self.spec_weight_scale()) * weighted(
                    v,
                    self.spec_weights().row(row),
                    xs,
                    xs.len(),
                ),
            ) <= size(v(self.spec_weight_scale())) * (b * (xs.len() as real)),
    {
        let weights = self.spec_weights();
        let ws = weights.row(row);
        let n = xs.len();
        let (qs, scale) = choose|qs: Seq<i8>, scale: T|
            #[trigger] is_quantized(xs, qs, scale) && is_scaled_product(
                weights,
                qs,
                scale,
                self.spec_weight_scale(),
                ys,
            );
        quantization_is_faithful(v, xs, qs, scale, b);
        let (accs, combined) = choose|accs: Seq<i32>, combined: T|
            #[trigger] is_product(weights, qs, accs) && is_times(
                scale,
                self.spec_weight_scale(),
                combined,
            ) && #[trigger] is_rescaled(accs, combined, ys);
        assert(is_rescaled_element(accs[row], combined, ys[row]));
        let f = choose|f: T| #[trigger] is_i32(accs[row], f) && is_times(f, combined, ys[row]);
        let (s, g) = (v(scale), v(self.spec_weight_scale()));
        assert(ws.len() == n);
        assert(accs[row] == dot_product(ws, qs));
        lemma_partial(v, ws, xs, qs, s, b, n);
        let (a, t) = (accs[row] as real, weighted(v, ws, xs, n));
        assert(partial_dot(ws, qs, n) as real == a);
        let off = t - a * s;
        assert(a * (s * g) - g * t == -(g * off)) by (nonlinear_arith)
            requires
                off == t - a * s,
        ;
        let most = b * (n as real);
        assert(254 as real * size(off) <= most);
        assert(254 as real * size(g * off) <= size(g) * most) by (nonlinear_arith)
            requires
                254 as real * size(off) <= most,
        ;
    }

    /// Weights of a row that are all zero give zero.
    pub proof fn zero_rows_give_zero(
        &self,
        v: spec_fn(T) -> real,
        xs: Seq<T>,
        ys: Seq<T>,
        row: int,
    )
        requires
            multiplies(v),
            counts(v),
            self.is_forward(xs, ys),
            0 <= row < self.spec_out(),
            forall|j: int|
                0 <= j < self.spec_weights().row(row).len() ==> #[trigger] self.spec_weights().row(
                    row,
                )[j] == Ternary::Zero,
        ensures
            v(ys[row]) == 0 as real,
    {
        let weights = self.spec_weights();
        let ws = weights.row(row);
        let (qs, scale) = choose|qs: Seq<i8>, scale: T|
            #[trigger] is_quantized(xs, qs, scale) && is_scaled_product(
                weights,
                qs,
                scale,
                self.spec_weight_scale(),
                ys,
            );
        let (accs, combined) = choose|accs: Seq<i32>, combined: T|
            #[trigger] is_product(weights, qs, accs) && is_times(
                scale,
                self.spec_weight_scale(),
                combined,
            ) && #[trigger] is_rescaled(accs, combined, ys);
        assert(is_rescaled_element(accs[row], combined, ys[row]));
        lemma_zero_dot(ws, qs, ws.len());
        assert(accs[row] == dot_product(ws, qs));
        let c = v(combined);
        assert((0 as real) * c == 0 as real) by (nonlinear_arith);
    }
}

proof fn lemma_zero_dot(ws: Seq<Ternary>, qs: Seq<i8>, k: nat)
    requires
        k <= ws.len(),
        forall|j: int| 0 <= j < ws.len() ==> #[trigger] ws[j] == Ternary::Zero,
    ensures
        partial_dot(ws, qs, k) == 0,
    decreases k,
{
    if k > 0 {
        lemma_zero_dot(ws, qs, (k - 1) as nat);
        assert(ws[k - 1] == Ternary::Zero);
        assert(0 * qs[k - 1] == 0);
    }
}

} // verus!
