//! What the layers are for, in exact arithmetic: who attends to what, which
//! signs and sizes come out, what passes through unchanged.

use crate::exact::{
    adds, counts, dots_are_inner_products, exponentiates, inner, lemma_sum_from,
    lemma_total_positive, lemma_total_scaled, multiplies, sums_are_totals, takes_roots, total,
};
use crate::layers::attention::{
    MultiHeadAttention, head_at, is_attention_scale, is_read_out, is_score, is_weighted_sum,
};
use crate::layers::kv_cache::KvCache;
use crate::layers::softmax::{
    is_inverse_sum, is_multiplied, is_shifted_exp, is_shifted_exps, is_softmax,
};
use crate::numeric::{
    Real, is_dot, is_exp, is_lowest, is_maximum, is_minus, is_one, is_over, is_sqrt, is_sum,
    is_sum_from, is_times, is_usize, is_zero,
};
use crate::rows::{lemma_row_bounds, row_of};
use vstd::prelude::*;

verus! {

/// Softmax makes a distribution of scores: positive probabilities that sum to
/// one and stand to each other as the exponentials of the scores.
pub proof fn softmax_is_a_distribution<T: Real>(
    v: spec_fn(T) -> real,
    e: spec_fn(real) -> real,
    xs: Seq<T>,
    ps: Seq<T>,
)
    requires
        adds(v),
        multiplies(v),
        exponentiates(v, e),
        is_softmax(xs, ps),
        xs.len() > 0,
    ensures
        ps.len() == xs.len(),
        total(v, ps) == 1 as real,
        forall|i: int| 0 <= i < ps.len() ==> v(#[trigger] ps[i]) > 0 as real,
        forall|i: int, j: int|
            0 <= i < ps.len() && 0 <= j < ps.len() ==> v(#[trigger] ps[i]) * e(v(xs[j])) == v(
                #[trigger] ps[j],
            ) * e(v(xs[i])),
{
    if xs.len() == 1 {
        assert(ps.drop_last() =~= Seq::<T>::empty());
        assert(ps.last() == ps[0]);
        assert(total(v, ps.drop_last()) == 0 as real);
    } else {
        let (low, m, es, inv) = choose|low: T, m: T, es: Seq<T>, inv: T|
            is_lowest(low) && #[trigger] is_maximum(low, xs, m) && #[trigger] is_shifted_exps(
                xs,
                m,
                es,
            ) && is_inverse_sum(es, inv) && #[trigger] is_multiplied(es, inv, ps);
        assert forall|i: int| 0 <= i < es.len() implies v(#[trigger] es[i]) > 0 as real && v(es[i])
            * e(v(m)) == e(v(xs[i])) by {
            assert(is_shifted_exp(xs[i], m, es[i]));
            let d = choose|d: T| #[trigger] is_minus(xs[i], m, d) && is_exp(d, es[i]);
            assert(v(d) + v(m) == v(xs[i]));
            assert(e(v(d) + v(m)) == e(v(d)) * e(v(m)));
        }
        let (z, sum, one) = choose|z: T, sum: T, one: T|
            is_zero(z) && #[trigger] is_sum_from(z, es, sum) && is_one(one) && #[trigger] is_over(
                one,
                sum,
                inv,
            );
        lemma_sum_from(v, z, es, sum);
        lemma_total_positive(v, es);
        assert(v(inv) * v(sum) == 1 as real);
        let (a, b) = (v(inv), v(sum));
        assert(a > 0 as real) by (nonlinear_arith)
            requires
                a * b == 1 as real,
                b > 0 as real,
        ;
        assert forall|i: int| 0 <= i < ps.len() implies v(#[trigger] ps[i]) == v(es[i]) * v(inv) by {
            assert(is_times(es[i], inv, ps[i]));
        }
        lemma_total_scaled(v, es, v(inv), ps);
        assert(b * a == a * b) by (nonlinear_arith);
        assert forall|i: int| 0 <= i < ps.len() implies v(#[trigger] ps[i]) > 0 as real by {
            let x = v(es[i]);
            assert(x * a > 0 as real) by (nonlinear_arith)
                requires
                    x > 0 as real,
                    a > 0 as real,
            ;
        }
        assert forall|i: int, j: int| 0 <= i < ps.len() && 0 <= j < ps.len() implies v(
            #[trigger] ps[i],
        ) * e(v(xs[j])) == v(#[trigger] ps[j]) * e(v(xs[i])) by {
            let (x, y, w) = (v(es[i]), v(es[j]), e(v(m)));
            assert((x * a) * (y * w) == (y * a) * (x * w)) by (nonlinear_arith);
        }
    }
}

/// The values at one place of every position, weighted and added up. Position
/// `s` starts at `s * stride`.
pub open spec fn blend<T>(
    v: spec_fn(T) -> real,
    ws: Seq<T>,
    xs: Seq<T>,
    stride: int,
    place: int,
) -> real
    decreases ws.len(),
{
    if ws.len() == 0 {
        0 as real
    } else {
        blend(v, ws.drop_last(), xs, stride, place) + v(ws.last()) * v(
            xs[(ws.len() - 1) * stride + place],
        )
    }
}

/// How well a query matches the key that stands at a place of position `s`.
pub open spec fn match_at<T>(
    v: spec_fn(T) -> real,
    q: Seq<T>,
    keys: Seq<T>,
    stride: int,
    place: int,
    s: int,
) -> real {
    inner(v, q, keys.subrange(s * stride + place, s * stride + place + q.len()))
}

/// `out` is a blend of the values at a place of the positions, with positive
/// weights that sum to one. The weights of two positions stand to each other as
/// the exponentials of their matches, times `c`.
pub open spec fn is_blended<T>(
    v: spec_fn(T) -> real,
    e: spec_fn(real) -> real,
    c: real,
    q: Seq<T>,
    keys: Seq<T>,
    values: Seq<T>,
    stride: int,
    place: int,
    ws: Seq<T>,
    out: Seq<T>,
) -> bool {
    &&& total(v, ws) == 1 as real
    &&& forall|s: int| 0 <= s < ws.len() ==> v(#[trigger] ws[s]) > 0 as real
    &&& forall|s: int, r: int|
        0 <= s < ws.len() && 0 <= r < ws.len() ==> v(#[trigger] ws[s]) * e(
            match_at(v, q, keys, stride, place, r) * c,
        ) == v(#[trigger] ws[r]) * e(match_at(v, q, keys, stride, place, s) * c)
    &&& forall|d: int|
        0 <= d < out.len() ==> v(#[trigger] out[d]) == blend(v, ws, values, stride, place + d)
}

proof fn lemma_head_at<T>(xs: Seq<T>, n_heads: int, head_dim: int, n: int, s: int, h: int)
    requires
        0 <= s < n,
        0 <= h < n_heads,
        0 <= head_dim,
        n * (n_heads * head_dim) <= xs.len(),
    ensures
        ({
            let start = s * (n_heads * head_dim) + h * head_dim;
            &&& 0 <= start
            &&& start + head_dim <= xs.len()
            &&& head_at(xs, n_heads, head_dim, s, h) == xs.subrange(start, start + head_dim)
        }),
{
    let width = n_heads * head_dim;
    lemma_row_bounds(h, n_heads, head_dim);
    assert(0 <= width) by (nonlinear_arith)
        requires
            width == n_heads * head_dim,
            0 <= n_heads,
            0 <= head_dim,
    ;
    lemma_row_bounds(s, n, width);
    assert(head_at(xs, n_heads, head_dim, s, h) =~= xs.subrange(
        s * width + h * head_dim,
        s * width + h * head_dim + head_dim,
    ));
}

proof fn lemma_products_blend<T: Real>(
    v: spec_fn(T) -> real,
    ws: Seq<T>,
    xs: Seq<T>,
    stride: int,
    place: int,
    ps: Seq<T>,
)
    requires
        ps.len() == ws.len(),
        forall|s: int|
            0 <= s < ws.len() ==> v(#[trigger] ps[s]) == v(ws[s]) * v(xs[s * stride + place]),
    ensures
        total(v, ps) == blend(v, ws, xs, stride, place),
    decreases ws.len(),
{
    if ws.len() > 0 {
        let n = ws.len() - 1;
        assert forall|s: int| 0 <= s < n implies v(#[trigger] ps.drop_last()[s]) == v(
            ws.drop_last()[s],
        ) * v(xs[s * stride + place]) by {
            assert(ps.drop_last()[s] == ps[s]);
        }
        lemma_products_blend(v, ws.drop_last(), xs, stride, place, ps.drop_last());
        assert(v(ps[n]) == v(ws[n]) * v(xs[n * stride + place]));
    }
}

proof fn lemma_read_out<T: Real>(
    v: spec_fn(T) -> real,
    e: spec_fn(real) -> real,
    q: Seq<T>,
    keys: Seq<T>,
    values: Seq<T>,
    n_heads: int,
    head_dim: int,
    h: int,
    n: int,
    scale: T,
    out: Seq<T>,
) -> (ws: Seq<T>)
    requires
        adds(v),
        multiplies(v),
        exponentiates(v, e),
        0 <= h < n_heads,
        0 <= head_dim,
        0 < n,
        q.len() == head_dim,
        n * (n_heads * head_dim) <= keys.len(),
        n * (n_heads * head_dim) <= values.len(),
        is_read_out(q, keys, values, n_heads, head_dim, h, n, scale, out),
    ensures
        ws.len() == n,
        out.len() == head_dim,
        is_blended(
            v,
            e,
            v(scale),
            q,
            keys,
            values,
            n_heads * head_dim,
            h * head_dim,
            ws,
            out,
        ),
{
    let stride = n_heads * head_dim;
    let place = h * head_dim;
    let (scores, ws) = choose|scores: Seq<T>, ws: Seq<T>|
        {
            &&& scores.len() == n
            &&& forall|s: int|
                0 <= s < n ==> is_score(
                    q,
                    head_at(keys, n_heads, head_dim, s, h),
                    scale,
                    #[trigger] scores[s],
                )
            &&& #[trigger] is_softmax(scores, ws)
            &&& ws.len() == n
            &&& out.len() == head_dim
            &&& forall|d: int|
                0 <= d < head_dim ==> is_weighted_sum(
                    ws,
                    values,
                    n_heads,
                    head_dim,
                    h,
                    d,
                    #[trigger] out[d],
                )
        };
    softmax_is_a_distribution(v, e, scores, ws);
    assert forall|s: int| 0 <= s < n implies v(#[trigger] scores[s]) == match_at(
        v,
        q,
        keys,
        stride,
        place,
        s,
    ) * v(scale) by {
        let key = head_at(keys, n_heads, head_dim, s, h);
        lemma_head_at(keys, n_heads, head_dim, n, s, h);
        assert(is_score(q, key, scale, scores[s]));
        let d = choose|d: T| #[trigger] is_dot(q, key, d) && is_times(d, scale, scores[s]);
        dots_are_inner_products(v, q, key, d);
    }
    assert forall|s: int, r: int| 0 <= s < ws.len() && 0 <= r < ws.len() implies v(#[trigger] ws[s])
        * e(match_at(v, q, keys, stride, place, r) * v(scale)) == v(#[trigger] ws[r]) * e(
        match_at(v, q, keys, stride, place, s) * v(scale),
    ) by {
        assert(v(scores[s]) == match_at(v, q, keys, stride, place, s) * v(scale));
        assert(v(scores[r]) == match_at(v, q, keys, stride, place, r) * v(scale));
    }
    assert forall|d: int| 0 <= d < out.len() implies v(#[trigger] out[d]) == blend(
        v,
        ws,
        values,
        stride,
        place + d,
    ) by {
        assert(is_weighted_sum(ws, values, n_heads, head_dim, h, d, out[d]));
        let ps = choose|ps: Seq<T>|
            {
                &&& ps.len() == ws.len()
                &&& #[trigger] is_sum(ps, out[d])
                &&& forall|s: int|
                    0 <= s < ws.len() ==> is_times(
                        ws[s],
                        head_at(values, n_heads, head_dim, s, h)[d],
                        #[trigger] ps[s],
                    )
            };
        sums_are_totals(v, ps, out[d]);
        assert forall|s: int| 0 <= s < ws.len() implies v(#[trigger] ps[s]) == v(ws[s]) * v(
            values[s * stride + (place + d)],
        ) by {
            lemma_head_at(values, n_heads, head_dim, n, s, h);
            assert(is_times(ws[s], head_at(values, n_heads, head_dim, s, h)[d], ps[s]));
            assert(s * stride + place + d == s * stride + (place + d));
        }
        lemma_products_blend(v, ws, values, stride, place + d, ps);
    }
    ws
}

/// A blend lies between bounds of what is blended.
pub proof fn blends_lie_between<T>(
    v: spec_fn(T) -> real,
    ws: Seq<T>,
    xs: Seq<T>,
    stride: int,
    place: int,
    lo: real,
    hi: real,
)
    requires
        forall|s: int| 0 <= s < ws.len() ==> v(#[trigger] ws[s]) > 0 as real,
        forall|s: int|
            0 <= s < ws.len() ==> lo <= v(xs[#[trigger] (s * stride) + place]) <= hi,
    ensures
        lo * total(v, ws) <= blend(v, ws, xs, stride, place) <= hi * total(v, ws),
    decreases ws.len(),
{
    if ws.len() == 0 {
        assert(lo * 0 as real == 0 as real && hi * 0 as real == 0 as real) by (nonlinear_arith);
    } else {
        let n = ws.len() - 1;
        let rest = ws.drop_last();
        assert forall|s: int| 0 <= s < rest.len() implies v(#[trigger] rest[s]) > 0 as real by {
            assert(rest[s] == ws[s]);
        }
        blends_lie_between(v, rest, xs, stride, place, lo, hi);
        let (t, w, x) = (total(v, rest), v(ws[n]), v(xs[n * stride + place]));
        assert(lo <= x <= hi);
        assert(lo * (t + w) == lo * t + lo * w && hi * (t + w) == hi * t + hi * w)
            by (nonlinear_arith);
        assert(lo * w <= w * x <= hi * w) by (nonlinear_arith)
            requires
                lo <= x <= hi,
                w > 0 as real,
        ;
    }
}

/// `c` is one over the root of `n`.
pub open spec fn is_inverse_root_of(c: real, n: usize) -> bool {
    c > 0 as real && c * c * (n as real) == 1 as real
}

proof fn lemma_attention_scale<T: Real>(v: spec_fn(T) -> real, head_dim: usize, scale: T)
    requires
        multiplies(v),
        counts(v),
        takes_roots(v),
        head_dim > 0,
        is_attention_scale(head_dim, scale),
    ensures
        is_inverse_root_of(v(scale), head_dim),
{
    let (f, q, one) = choose|f: T, q: T, one: T|
        is_usize(head_dim, f) && #[trigger] is_sqrt(f, q) && is_one(one) && #[trigger] is_over(
            one,
            q,
            scale,
        );
    let (h, a, c) = (head_dim as real, v(q), v(scale));
    assert(v(f) == h && h > 0 as real);
    assert(a != 0 as real) by (nonlinear_arith)
        requires
            a * a == h,
            h > 0 as real,
    ;
    assert(c * a == 1 as real);
    assert(c > 0 as real) by (nonlinear_arith)
        requires
            c * a == 1 as real,
            a >= 0 as real,
    ;
    assert(c * c * h == (c * a) * (c * a)) by (nonlinear_arith)
        requires
            a * a == h,
    ;
}

impl<T: Real> MultiHeadAttention<T> {
    /// How many query heads each key head serves.
    pub open spec fn group_size(&self) -> int {
        self.spec_n_heads() as int / self.spec_n_kv_heads() as int
    }

    /// Query head `j` of group `g` reads a blend of what key head `g` holds at
    /// the first `n` positions. Groups follow one another, and so do the heads
    /// of a group.
    pub open spec fn blends_group(
        &self,
        v: spec_fn(T) -> real,
        e: spec_fn(real) -> real,
        c: real,
        q: Seq<T>,
        keys: Seq<T>,
        values: Seq<T>,
        n: int,
        concat: Seq<T>,
        g: int,
        j: int,
    ) -> bool {
        let d = self.spec_head_dim() as int;
        let start = (g * self.group_size() + j) * d;
        exists|ws: Seq<T>|
            ws.len() == n && #[trigger] is_blended(
                v,
                e,
                c,
                q.subrange(start, start + d),
                keys,
                values,
                self.spec_n_kv_heads() * d,
                g * d,
                ws,
                concat.subrange(start, start + d),
            )
    }

    /// `y` is the projection of what the heads of one token read, normalized
    /// first if the layer has a norm.
    pub open spec fn is_projected_out(&self, concat: Seq<T>, y: Seq<T>) -> bool {
        exists|m: Seq<T>| #[trigger]
            self.spec_o_proj().is_forward(m, y) && match self.spec_o_sub_norm() {
                Some(norm) => norm.is_forward(concat, m),
                None => m == concat,
            }
    }

    /// In exact arithmetic, `y` is what a token `x` at a position makes of the
    /// first `n` keys and values.
    pub open spec fn attends(
        &self,
        v: spec_fn(T) -> real,
        e: spec_fn(real) -> real,
        x: Seq<T>,
        pos: usize,
        keys: Seq<T>,
        values: Seq<T>,
        n: int,
        y: Seq<T>,
    ) -> bool {
        exists|q0: Seq<T>, q: Seq<T>, concat: Seq<T>, c: real|
            {
                &&& #[trigger] self.spec_q_proj().is_forward(x, q0)
                &&& #[trigger] self.spec_rope().is_forward_heads(
                    q0,
                    self.spec_n_heads() as int,
                    pos,
                    q,
                )
                &&& #[trigger] is_inverse_root_of(c, self.spec_head_dim())
                &&& concat.len() == self.spec_n_heads() * self.spec_head_dim()
                &&& forall|g: int, j: int|
                    0 <= g < self.spec_n_kv_heads() && 0 <= j < self.group_size()
                        ==> #[trigger] self.blends_group(
                        v,
                        e,
                        c,
                        q,
                        keys,
                        values,
                        n,
                        concat,
                        g,
                        j,
                    )
                &&& #[trigger] self.is_projected_out(concat, y)
            }
    }

    /// `k` and `w` hold the keys and values of tokens that start at a position:
    /// the keys rotated, the values not.
    pub open spec fn holds_tokens(
        &self,
        xs: Seq<T>,
        n: int,
        start_pos: int,
        k: Seq<T>,
        w: Seq<T>,
    ) -> bool {
        let kv = self.spec_n_kv_heads() * self.spec_head_dim();
        &&& k.len() == n * kv
        &&& w.len() == n * kv
        &&& forall|t: int|
            0 <= t < n ==> self.spec_v_proj().is_forward(
                row_of(xs, self.spec_embed_dim() as int, t),
                #[trigger] row_of(w, kv, t),
            )
        &&& forall|t: int|
            0 <= t < n ==> self.is_rotated_key(
                row_of(xs, self.spec_embed_dim() as int, t),
                (start_pos + t) as usize,
                #[trigger] row_of(k, kv, t),
            )
    }

    /// `k` is the key of a token, rotated by its position.
    pub open spec fn is_rotated_key(&self, x: Seq<T>, pos: usize, k: Seq<T>) -> bool {
        exists|k0: Seq<T>|
            #[trigger] self.spec_k_proj().is_forward(x, k0) && self.spec_rope().is_forward_heads(
                k0,
                self.spec_n_kv_heads() as int,
                pos,
                k,
            )
    }

    proof fn lemma_group(&self, g: int, j: int)
        requires
            self.wf(),
            0 <= g < self.spec_n_kv_heads(),
            0 <= j < self.group_size(),
        ensures
            0 <= g * self.group_size() + j < self.spec_n_heads(),
            self.kv_head_of(g * self.group_size() + j) == g,
    {
        let (n, k) = (self.spec_n_heads() as int, self.spec_n_kv_heads() as int);
        let h = n / k;
        vstd::arithmetic::div_mod::lemma_fundamental_div_mod(n, k);
        assert(0 <= g * h && g * h + h <= k * h) by (nonlinear_arith)
            requires
                0 <= g < k,
                0 <= h,
        ;
        vstd::arithmetic::div_mod::lemma_fundamental_div_mod_converse(g * h + j, h, g, j);
    }

    proof fn lemma_attends(
        &self,
        v: spec_fn(T) -> real,
        e: spec_fn(real) -> real,
        past_keys: Seq<T>,
        past_values: Seq<T>,
        past: int,
        xs: Seq<T>,
        n: int,
        start_pos: int,
        k: Seq<T>,
        w: Seq<T>,
        ys: Seq<T>,
    )
        requires
            adds(v),
            multiplies(v),
            counts(v),
            takes_roots(v),
            exponentiates(v, e),
            self.wf(),
            0 <= n,
            0 <= past,
            past_keys.len() == past * self.kv_dim(),
            past_values.len() == past * self.kv_dim(),
            self.is_step(past_keys, past_values, past, xs, n, start_pos, k, w, ys),
        ensures
            ys.len() == n * self.spec_embed_dim(),
            self.holds_tokens(xs, n, start_pos, k, w),
            forall|t: int|
                0 <= t < n ==> self.attends(
                    v,
                    e,
                    row_of(xs, self.spec_embed_dim() as int, t),
                    (start_pos + t) as usize,
                    past_keys + k,
                    past_values + w,
                    past + t + 1,
                    #[trigger] row_of(ys, self.spec_embed_dim() as int, t),
                ),
    {
        let ed = self.spec_embed_dim() as int;
        let kd = self.kv_dim();
        let qd = self.q_dim();
        let (q, scale) = choose|q: Seq<T>, scale: T|
            {
                &&& #[trigger] self.is_projected(xs, n, start_pos, q, k, w)
                &&& is_attention_scale(self.spec_head_dim(), scale)
                &&& #[trigger] self.is_outputs(past, n, q, past_keys + k, past_values + w, scale, ys)
            };
        lemma_attention_scale(v, self.spec_head_dim(), scale);
        assert forall|t: int| 0 <= t < n implies self.spec_v_proj().is_forward(
            row_of(xs, ed, t),
            #[trigger] row_of(w, kd, t),
        ) by {
            assert(self.is_projection(
                row_of(xs, ed, t),
                (start_pos + t) as usize,
                row_of(q, qd, t),
                row_of(k, kd, t),
                row_of(w, kd, t),
            ));
        }
        assert forall|t: int| 0 <= t < n implies self.is_rotated_key(
            row_of(xs, ed, t),
            (start_pos + t) as usize,
            #[trigger] row_of(k, kd, t),
        ) by {
            assert(self.is_projection(
                row_of(xs, ed, t),
                (start_pos + t) as usize,
                row_of(q, qd, t),
                row_of(k, kd, t),
                row_of(w, kd, t),
            ));
        }
        assert forall|t: int| 0 <= t < n implies self.attends(
            v,
            e,
            row_of(xs, ed, t),
            (start_pos + t) as usize,
            past_keys + k,
            past_values + w,
            past + t + 1,
            #[trigger] row_of(ys, ed, t),
        ) by {
            assert(self.is_projection(
                row_of(xs, ed, t),
                (start_pos + t) as usize,
                row_of(q, qd, t),
                row_of(k, kd, t),
                row_of(w, kd, t),
            ));
            assert(self.is_token_output(
                row_of(q, qd, t),
                past_keys + k,
                past_values + w,
                past + t + 1,
                scale,
                row_of(ys, ed, t),
            ));
            assert(0 <= qd && 0 <= kd) by (nonlinear_arith)
                requires
                    qd == self.spec_n_heads() * self.spec_head_dim(),
                    kd == self.spec_n_kv_heads() * self.spec_head_dim(),
            ;
            lemma_row_bounds(t, n, qd);
            assert((past + t + 1) * kd <= past * kd + n * kd) by (nonlinear_arith)
                requires
                    t + 1 <= n,
                    0 <= kd,
            ;
            self.lemma_token_attends(
                v,
                e,
                row_of(xs, ed, t),
                (start_pos + t) as usize,
                row_of(q, qd, t),
                row_of(k, kd, t),
                row_of(w, kd, t),
                past_keys + k,
                past_values + w,
                past + t + 1,
                scale,
                row_of(ys, ed, t),
            );
        }
    }

    proof fn lemma_token_attends(
        &self,
        v: spec_fn(T) -> real,
        e: spec_fn(real) -> real,
        x: Seq<T>,
        pos: usize,
        q: Seq<T>,
        k: Seq<T>,
        w: Seq<T>,
        keys: Seq<T>,
        values: Seq<T>,
        n: int,
        scale: T,
        y: Seq<T>,
    )
        requires
            adds(v),
            multiplies(v),
            exponentiates(v, e),
            self.wf(),
            is_inverse_root_of(v(scale), self.spec_head_dim()),
            0 < n,
            q.len() == self.q_dim(),
            n * self.kv_dim() <= keys.len(),
            n * self.kv_dim() <= values.len(),
            self.is_projection(x, pos, q, k, w),
            self.is_token_output(q, keys, values, n, scale, y),
        ensures
            self.attends(v, e, x, pos, keys, values, n, y),
    {
        let d = self.spec_head_dim() as int;
        let nk = self.spec_n_kv_heads() as int;
        let (q0, k0) = choose|q0: Seq<T>, k0: Seq<T>|
            {
                &&& #[trigger] self.spec_q_proj().is_forward(x, q0)
                &&& #[trigger] self.spec_k_proj().is_forward(x, k0)
                &&& self.spec_v_proj().is_forward(x, w)
                &&& self.spec_rope().is_forward_heads(q0, self.spec_n_heads() as int, pos, q)
                &&& self.spec_rope().is_forward_heads(k0, nk, pos, k)
            };
        let concat = choose|concat: Seq<T>|
            #[trigger] self.is_attended(q, keys, values, n, scale, concat) && self.is_output(
                concat,
                y,
            );
        assert(self.is_projected_out(concat, y)) by {
            match self.spec_o_sub_norm() {
                Some(norm) => {
                    let m = choose|m: Seq<T>|
                        #[trigger] norm.is_forward(concat, m) && self.spec_o_proj().is_forward(m, y);
                    assert(self.spec_o_proj().is_forward(m, y));
                },
                None => {
                    assert(self.spec_o_proj().is_forward(concat, y));
                },
            }
        }
        assert forall|g: int, j: int|
            0 <= g < nk && 0 <= j < self.group_size() implies #[trigger] self.blends_group(
            v,
            e,
            v(scale),
            q,
            keys,
            values,
            n,
            concat,
            g,
            j,
        ) by {
            self.lemma_group(g, j);
            let qh = g * self.group_size() + j;
            lemma_row_bounds(qh, self.spec_n_heads() as int, d);
            assert(is_read_out(
                row_of(q, d, qh),
                keys,
                values,
                nk,
                d,
                self.kv_head_of(qh),
                n,
                scale,
                row_of(concat, d, qh),
            ));
            let ws = lemma_read_out(
                v,
                e,
                row_of(q, d, qh),
                keys,
                values,
                nk,
                d,
                g,
                n,
                scale,
                row_of(concat, d, qh),
            );
        }
        assert(is_inverse_root_of(v(scale), self.spec_head_dim()));
    }

    /// Each query head of a token reads a blend of the values of its own group,
    /// at the token's position and all positions before it: the weights are
    /// positive, sum to one and grow with how well query and key match. Groups
    /// of query heads follow one another in the order of the key heads.
    pub proof fn tokens_attend_in_groups(
        &self,
        v: spec_fn(T) -> real,
        e: spec_fn(real) -> real,
        xs: Seq<T>,
        n: int,
        start_pos: int,
        ys: Seq<T>,
    )
        requires
            adds(v),
            multiplies(v),
            counts(v),
            takes_roots(v),
            exponentiates(v, e),
            self.wf(),
            0 <= n,
            self.is_forward(xs, n, start_pos, ys),
        ensures
            exists|k: Seq<T>, w: Seq<T>|
                {
                    &&& #[trigger] self.holds_tokens(xs, n, start_pos, k, w)
                    &&& forall|t: int|
                        0 <= t < n ==> self.attends(
                            v,
                            e,
                            row_of(xs, self.spec_embed_dim() as int, t),
                            (start_pos + t) as usize,
                            k,
                            w,
                            t + 1,
                            #[trigger] row_of(ys, self.spec_embed_dim() as int, t),
                        )
                },
    {
        let none = Seq::<T>::empty();
        let (k, w) = choose|k: Seq<T>, w: Seq<T>| #[trigger]
            self.is_step(none, none, 0, xs, n, start_pos, k, w, ys);
        assert(0 * self.kv_dim() == 0);
        self.lemma_attends(v, e, none, none, 0, xs, n, start_pos, k, w, ys);
        assert(none + k =~= k && none + w =~= w);
        assert(self.holds_tokens(xs, n, start_pos, k, w));
    }

    /// The same of a pass with a cache: the new keys and values join the cache,
    /// and each new token reads from everything up to its own position.
    pub proof fn cached_tokens_attend_in_groups(
        &self,
        v: spec_fn(T) -> real,
        e: spec_fn(real) -> real,
        before: &KvCache<T>,
        xs: Seq<T>,
        n: int,
        after: &KvCache<T>,
        ys: Seq<T>,
    )
        requires
            adds(v),
            multiplies(v),
            counts(v),
            takes_roots(v),
            exponentiates(v, e),
            self.wf(),
            0 <= n,
            self.fits_cache(before, n),
            self.is_cached_forward(before, xs, n, after, ys),
        ensures
            ({
                let past = before.spec_len() as int;
                let old_len = past * self.kv_dim();
                &&& after.spec_len() == past + n
                &&& after.spec_keys().len() == (past + n) * self.kv_dim()
                &&& after.spec_values().len() == (past + n) * self.kv_dim()
                &&& after.spec_keys().take(old_len) == before.spec_keys()
                &&& after.spec_values().take(old_len) == before.spec_values()
                &&& self.holds_tokens(
                    xs,
                    n,
                    past,
                    after.spec_keys().skip(old_len),
                    after.spec_values().skip(old_len),
                )
                &&& forall|t: int|
                    0 <= t < n ==> self.attends(
                        v,
                        e,
                        row_of(xs, self.spec_embed_dim() as int, t),
                        (past + t) as usize,
                        after.spec_keys(),
                        after.spec_values(),
                        past + t + 1,
                        #[trigger] row_of(ys, self.spec_embed_dim() as int, t),
                    )
            }),
    {
        let past = before.spec_len() as int;
        before.cache_facts();
        let (k, w) = choose|k: Seq<T>, w: Seq<T>|
            {
                &&& #[trigger] self.is_step(
                    before.spec_keys(),
                    before.spec_values(),
                    past,
                    xs,
                    n,
                    past,
                    k,
                    w,
                    ys,
                )
                &&& after.spec_keys() == before.spec_keys() + k
                &&& after.spec_values() == before.spec_values() + w
                &&& after.spec_len() == before.spec_len() + n
            };
        self.lemma_attends(
            v,
            e,
            before.spec_keys(),
            before.spec_values(),
            past,
            xs,
            n,
            past,
            k,
            w,
            ys,
        );
        let kd = self.kv_dim();
        assert((past + n) * kd == past * kd + n * kd) by (nonlinear_arith);
        assert(after.spec_keys().take(past * kd) =~= before.spec_keys());
        assert(after.spec_values().take(past * kd) =~= before.spec_values());
        assert(after.spec_keys().skip(past * kd) =~= k);
        assert(after.spec_values().skip(past * kd) =~= w);
    }

    /// Query heads are grouped contiguously: whatever a query head of group `g`
    /// reads lies between any bounds of what key head `g` holds in the visible
    /// values, element by element, and no other head matters.
    pub proof fn heads_read_within_their_group(
        &self,
        v: spec_fn(T) -> real,
        e: spec_fn(real) -> real,
        x: Seq<T>,
        pos: usize,
        keys: Seq<T>,
        values: Seq<T>,
        n: int,
        y: Seq<T>,
    )
        requires
            self.wf(),
            self.attends(v, e, x, pos, keys, values, n, y),
        ensures
            exists|concat: Seq<T>|
                {
                    &&& #[trigger] self.is_projected_out(concat, y)
                    &&& forall|g: int, qh: int, d: int, lo: real, hi: real|
                        {
                            &&& 0 <= g < self.spec_n_kv_heads()
                            &&& g * self.group_size() <= qh < (g + 1) * self.group_size()
                            &&& 0 <= d < self.spec_head_dim()
                            &&& #[trigger] self.bounds_head(v, values, n, g, d, lo, hi)
                        } ==> lo <= v(#[trigger] concat[qh * self.spec_head_dim() + d]) <= hi
                },
    {
        let hd = self.spec_head_dim() as int;
        let kd = self.spec_n_kv_heads() * hd;
        let (q0, q, concat, c) = choose|q0: Seq<T>, q: Seq<T>, concat: Seq<T>, c: real|
            {
                &&& #[trigger] self.spec_q_proj().is_forward(x, q0)
                &&& #[trigger] self.spec_rope().is_forward_heads(
                    q0,
                    self.spec_n_heads() as int,
                    pos,
                    q,
                )
                &&& #[trigger] is_inverse_root_of(c, self.spec_head_dim())
                &&& concat.len() == self.spec_n_heads() * self.spec_head_dim()
                &&& forall|g: int, j: int|
                    0 <= g < self.spec_n_kv_heads() && 0 <= j < self.group_size()
                        ==> #[trigger] self.blends_group(
                        v,
                        e,
                        c,
                        q,
                        keys,
                        values,
                        n,
                        concat,
                        g,
                        j,
                    )
                &&& #[trigger] self.is_projected_out(concat, y)
            };
        assert forall|g: int, qh: int, d: int, lo: real, hi: real|
            {
                &&& 0 <= g < self.spec_n_kv_heads()
                &&& g * self.group_size() <= qh < (g + 1) * self.group_size()
                &&& 0 <= d < self.spec_head_dim()
                &&& #[trigger] self.bounds_head(v, values, n, g, d, lo, hi)
            } implies lo <= v(#[trigger] concat[qh * self.spec_head_dim() + d]) <= hi by {
            let j = qh - g * self.group_size();
            assert((g + 1) * self.group_size() == g * self.group_size() + self.group_size())
                by (nonlinear_arith);
            self.lemma_group(g, j);
            assert(self.blends_group(v, e, c, q, keys, values, n, concat, g, j));
            let start = (g * self.group_size() + j) * hd;
            lemma_row_bounds(qh, self.spec_n_heads() as int, hd);
            let ws = choose|ws: Seq<T>|
                ws.len() == n && #[trigger] is_blended(
                    v,
                    e,
                    c,
                    q.subrange(start, start + hd),
                    keys,
                    values,
                    kd,
                    g * hd,
                    ws,
                    concat.subrange(start, start + hd),
                );
            let out = concat.subrange(start, start + hd);
            assert(out[d] == concat[start + d]);
            assert(v(out[d]) == blend(v, ws, values, kd, g * hd + d));
            assert forall|s: int| 0 <= s < ws.len() implies lo <= v(
                values[#[trigger] (s * kd) + (g * hd + d)],
            ) <= hi by {
                assert(s * kd + g * hd + d == s * kd + (g * hd + d));
                assert(lo <= v(values[s * kd + g * hd + d]) <= hi);
            }
            blends_lie_between(v, ws, values, kd, g * hd + d, lo, hi);
            assert(lo * 1 as real == lo && hi * 1 as real == hi) by (nonlinear_arith);
        }
    }

    /// A token alone reads its own values: every query head of group `g` gives
    /// back head `g` of the token's value projection.
    pub proof fn a_lone_token_reads_itself(
        &self,
        v: spec_fn(T) -> real,
        e: spec_fn(real) -> real,
        x: Seq<T>,
        pos: usize,
        y: Seq<T>,
    )
        requires
            adds(v),
            multiplies(v),
            counts(v),
            takes_roots(v),
            exponentiates(v, e),
            self.wf(),
            x.len() == self.spec_embed_dim(),
            self.is_forward(x, 1, pos as int, y),
        ensures
            exists|w: Seq<T>, concat: Seq<T>|
                {
                    &&& #[trigger] self.spec_v_proj().is_forward(x, w)
                    &&& #[trigger] self.is_projected_out(concat, y)
                    &&& forall|g: int, qh: int, d: int|
                        {
                            &&& 0 <= g < self.spec_n_kv_heads()
                            &&& g * self.group_size() <= qh < (g + 1) * self.group_size()
                            &&& 0 <= d < self.spec_head_dim()
                        } ==> v(#[trigger] concat[qh * self.spec_head_dim() + d]) == v(
                            #[trigger] w[g * self.spec_head_dim() + d],
                        )
                },
    {
        let ed = self.spec_embed_dim() as int;
        let kd = self.kv_dim();
        self.tokens_attend_in_groups(v, e, x, 1, pos as int, y);
        let (k, w) = choose|k: Seq<T>, w: Seq<T>|
            {
                &&& #[trigger] self.holds_tokens(x, 1, pos as int, k, w)
                &&& forall|t: int|
                    0 <= t < 1 ==> self.attends(
                        v,
                        e,
                        row_of(x, ed, t),
                        (pos + t) as usize,
                        k,
                        w,
                        t + 1,
                        #[trigger] row_of(y, ed, t),
                    )
            };
        assert(y.len() == ed) by {
            let none = Seq::<T>::empty();
            let (k1, w1) = choose|k1: Seq<T>, w1: Seq<T>| #[trigger]
                self.is_step(none, none, 0, x, 1, pos as int, k1, w1, y);
        }
        assert(row_of(x, ed, 0) =~= x);
        assert(row_of(y, ed, 0) =~= y);
        assert(self.attends(v, e, row_of(x, ed, 0), pos, k, w, 1, row_of(y, ed, 0)));
        assert(w.len() == 1 * kd);
        assert(1 * kd == kd && 0 * kd == 0) by (nonlinear_arith);
        assert(row_of(w, kd, 0) =~= w);
        assert(self.spec_v_proj().is_forward(row_of(x, ed, 0), row_of(w, kd, 0)));
        self.heads_read_within_their_group(v, e, x, pos, k, w, 1, y);
        let concat = choose|concat: Seq<T>|
            {
                &&& #[trigger] self.is_projected_out(concat, y)
                &&& forall|g: int, qh: int, d: int, lo: real, hi: real|
                    {
                        &&& 0 <= g < self.spec_n_kv_heads()
                        &&& g * self.group_size() <= qh < (g + 1) * self.group_size()
                        &&& 0 <= d < self.spec_head_dim()
                        &&& #[trigger] self.bounds_head(v, w, 1, g, d, lo, hi)
                    } ==> lo <= v(#[trigger] concat[qh * self.spec_head_dim() + d]) <= hi
            };
        assert forall|g: int, qh: int, d: int|
            {
                &&& 0 <= g < self.spec_n_kv_heads()
                &&& g * self.group_size() <= qh < (g + 1) * self.group_size()
                &&& 0 <= d < self.spec_head_dim()
            } implies v(#[trigger] concat[qh * self.spec_head_dim() + d]) == v(
            #[trigger] w[g * self.spec_head_dim() + d],
        ) by {
            let x = v(w[g * self.spec_head_dim() + d]);
            assert forall|s: int| 0 <= s < 1 implies x <= v(
                w[#[trigger] (s * (self.spec_n_kv_heads() * self.spec_head_dim())) + g
                    * self.spec_head_dim() + d],
            ) <= x by {
                assert(s == 0);
            }
            assert(self.bounds_head(v, w, 1, g, d, x, x));
        }
    }

    /// Element `d` of value head `g` lies between two bounds at the first `n`
    /// positions.
    pub open spec fn bounds_head(
        &self,
        v: spec_fn(T) -> real,
        values: Seq<T>,
        n: int,
        g: int,
        d: int,
        lo: real,
        hi: real,
    ) -> bool {
        forall|s: int|
            0 <= s < n ==> lo <= v(
                values[#[trigger] (s * (self.spec_n_kv_heads() * self.spec_head_dim())) + g
                    * self.spec_head_dim() + d],
            ) <= hi
    }

}

} // verus!
