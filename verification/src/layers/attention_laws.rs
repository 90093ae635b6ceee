//! Causality of attention: a token's output depends on the tokens up to it,
//! so a sequence can be processed at once or piece by piece.

use crate::layers::attention::{
    MultiHeadAttention, head_at, is_attention_scale, is_read_out, is_score, is_weighted_sum,
};
use crate::layers::softmax::is_softmax;
use crate::numeric::{Real, is_sum, is_times};
use crate::rows::{lemma_add_rows, lemma_skip_rows, lemma_take_rows, row_of};
use vstd::prelude::*;

verus! {

/// What a head reads depends on the positions that it sees, and on no others.
pub proof fn reading_depends_on_visible_positions<T: Real>(
    q: Seq<T>,
    keys1: Seq<T>,
    values1: Seq<T>,
    keys2: Seq<T>,
    values2: Seq<T>,
    n_heads: int,
    head_dim: int,
    h: int,
    n: int,
    scale: T,
    out: Seq<T>,
)
    requires
        is_read_out(q, keys1, values1, n_heads, head_dim, h, n, scale, out),
        forall|s: int|
            0 <= s < n ==> #[trigger] head_at(keys1, n_heads, head_dim, s, h) == head_at(
                keys2,
                n_heads,
                head_dim,
                s,
                h,
            ),
        forall|s: int|
            0 <= s < n ==> #[trigger] head_at(values1, n_heads, head_dim, s, h) == head_at(
                values2,
                n_heads,
                head_dim,
                s,
                h,
            ),
    ensures
        is_read_out(q, keys2, values2, n_heads, head_dim, h, n, scale, out),
{
    let (scores, weights) = choose|scores: Seq<T>, weights: Seq<T>|
        {
            &&& scores.len() == n
            &&& forall|s: int|
                0 <= s < n ==> is_score(
                    q,
                    head_at(keys1, n_heads, head_dim, s, h),
                    scale,
                    #[trigger] scores[s],
                )
            &&& #[trigger] is_softmax(scores, weights)
            &&& weights.len() == n
            &&& out.len() == head_dim
            &&& forall|d: int|
                0 <= d < head_dim ==> is_weighted_sum(
                    weights,
                    values1,
                    n_heads,
                    head_dim,
                    h,
                    d,
                    #[trigger] out[d],
                )
        };
    assert forall|s: int| 0 <= s < n implies is_score(
        q,
        head_at(keys2, n_heads, head_dim, s, h),
        scale,
        #[trigger] scores[s],
    ) by {
        assert(head_at(keys1, n_heads, head_dim, s, h) == head_at(keys2, n_heads, head_dim, s, h));
    }
    assert forall|d: int| 0 <= d < head_dim implies is_weighted_sum(
        weights,
        values2,
        n_heads,
        head_dim,
        h,
        d,
        #[trigger] out[d],
    ) by {
        let ps = choose|ps: Seq<T>|
            {
                &&& ps.len() == weights.len()
                &&& #[trigger] is_sum(ps, out[d])
                &&& forall|s: int|
                    0 <= s < weights.len() ==> is_times(
                        weights[s],
                        head_at(values1, n_heads, head_dim, s, h)[d],
                        #[trigger] ps[s],
                    )
            };
        assert forall|s: int| 0 <= s < weights.len() implies is_times(
            weights[s],
            head_at(values2, n_heads, head_dim, s, h)[d],
            #[trigger] ps[s],
        ) by {
            assert(head_at(values1, n_heads, head_dim, s, h) == head_at(
                values2,
                n_heads,
                head_dim,
                s,
                h,
            ));
        }
        assert(is_sum(ps, out[d]));
    }
    assert(is_softmax(scores, weights));
}

/// What goes into a pass over `n` tokens and what comes out of it.
pub struct AttentionStep<T> {
    pub n: int,
    pub xs: Seq<T>,
    pub k: Seq<T>,
    pub v: Seq<T>,
    pub ys: Seq<T>,
}

/// The number type computes the scale of scores to one and the same number
/// every time.
pub open spec fn scale_is_fixed<T: Real>(head_dim: usize) -> bool {
    forall|a: T, b: T| #[trigger]
        is_attention_scale(head_dim, a) && #[trigger] is_attention_scale(head_dim, b) ==> a == b
}

impl<T: Real> MultiHeadAttention<T> {
    proof fn lemma_token_output_prefix(
        &self,
        q: Seq<T>,
        keys1: Seq<T>,
        values1: Seq<T>,
        keys2: Seq<T>,
        values2: Seq<T>,
        n: int,
        scale: T,
        y: Seq<T>,
    )
        requires
            self.is_token_output(q, keys1, values1, n, scale, y),
            forall|s: int|
                0 <= s < n ==> #[trigger] row_of(keys1, self.kv_dim(), s) == row_of(
                    keys2,
                    self.kv_dim(),
                    s,
                ),
            forall|s: int|
                0 <= s < n ==> #[trigger] row_of(values1, self.kv_dim(), s) == row_of(
                    values2,
                    self.kv_dim(),
                    s,
                ),
        ensures
            self.is_token_output(q, keys2, values2, n, scale, y),
    {
        let concat = choose|concat: Seq<T>|
            #[trigger] self.is_attended(q, keys1, values1, n, scale, concat) && self.is_output(
                concat,
                y,
            );
        let hd = self.spec_head_dim() as int;
        let nk = self.spec_n_kv_heads() as int;
        assert forall|qh: int| 0 <= qh < self.spec_n_heads() implies is_read_out(
            row_of(q, hd, qh),
            keys2,
            values2,
            nk,
            hd,
            self.kv_head_of(qh),
            n,
            scale,
            #[trigger] row_of(concat, hd, qh),
        ) by {
            let h = self.kv_head_of(qh);
            assert forall|s: int| 0 <= s < n implies #[trigger] head_at(keys1, nk, hd, s, h)
                == head_at(keys2, nk, hd, s, h) by {
                assert(row_of(keys1, self.kv_dim(), s) == row_of(keys2, self.kv_dim(), s));
            }
            assert forall|s: int| 0 <= s < n implies #[trigger] head_at(values1, nk, hd, s, h)
                == head_at(values2, nk, hd, s, h) by {
                assert(row_of(values1, self.kv_dim(), s) == row_of(values2, self.kv_dim(), s));
            }
            reading_depends_on_visible_positions(
                row_of(q, hd, qh),
                keys1,
                values1,
                keys2,
                values2,
                nk,
                hd,
                h,
                n,
                scale,
                row_of(concat, hd, qh),
            );
        }
        assert(self.is_attended(q, keys2, values2, n, scale, concat));
    }

    /// A sequence splits anywhere: processing `n` tokens at once gives what
    /// processing the first `m` of them gives, followed by what processing the
    /// others with a grown cache gives.
    #[verifier::rlimit(60)]
    pub proof fn a_step_splits(
        &self,
        past_keys: Seq<T>,
        past_values: Seq<T>,
        past: int,
        xs: Seq<T>,
        n: int,
        m: int,
        start_pos: int,
        k: Seq<T>,
        v: Seq<T>,
        ys: Seq<T>,
    )
        requires
            self.wf(),
            0 <= m <= n,
            0 <= past,
            past_keys.len() == past * self.kv_dim(),
            past_values.len() == past * self.kv_dim(),
            xs.len() == n * self.spec_embed_dim(),
            self.is_step(past_keys, past_values, past, xs, n, start_pos, k, v, ys),
        ensures
            ({
                let e = m * self.spec_embed_dim();
                let d = m * self.kv_dim();
                &&& self.is_step(
                    past_keys,
                    past_values,
                    past,
                    xs.take(e),
                    m,
                    start_pos,
                    k.take(d),
                    v.take(d),
                    ys.take(e),
                )
                &&& self.is_step(
                    past_keys + k.take(d),
                    past_values + v.take(d),
                    past + m,
                    xs.skip(e),
                    n - m,
                    start_pos + m,
                    k.skip(d),
                    v.skip(d),
                    ys.skip(e),
                )
            }),
    {
        let ed = self.spec_embed_dim() as int;
        let qd = self.q_dim();
        let kd = self.kv_dim();
        let e = m * ed;
        let d = m * kd;
        let (q, scale) = choose|q: Seq<T>, scale: T|
            {
                &&& #[trigger] self.is_projected(xs, n, start_pos, q, k, v)
                &&& is_attention_scale(self.spec_head_dim(), scale)
                &&& #[trigger] self.is_outputs(
                    past,
                    n,
                    q,
                    past_keys + k,
                    past_values + v,
                    scale,
                    ys,
                )
            };
        assert(0 <= qd && 0 <= kd) by (nonlinear_arith)
            requires
                qd == self.spec_n_heads() * self.spec_head_dim(),
                kd == self.spec_n_kv_heads() * self.spec_head_dim(),
        ;
        assert(0 <= m * ed <= n * ed && 0 <= m * qd <= n * qd && 0 <= m * kd <= n * kd && (n - m)
            * ed == n * ed - m * ed && (n - m) * qd == n * qd - m * qd && (n - m) * kd == n * kd - m
            * kd) by (nonlinear_arith)
            requires
                0 <= m <= n,
                0 <= ed,
                0 <= qd,
                0 <= kd,
        ;
        let q1 = q.take(m * qd);
        let q2 = q.skip(m * qd);
        let keys = past_keys + k;
        let values = past_values + v;
        let keys1 = past_keys + k.take(d);
        let values1 = past_values + v.take(d);
        assert(keys1 + k.skip(d) =~= keys);
        assert(values1 + v.skip(d) =~= values);
        assert forall|t: int| 0 <= t < m implies self.is_projection(
            #[trigger] row_of(xs.take(e), ed, t),
            (start_pos + t) as usize,
            row_of(q1, qd, t),
            row_of(k.take(d), kd, t),
            row_of(v.take(d), kd, t),
        ) by {
            lemma_take_rows(xs, ed, m, t);
            lemma_take_rows(q, qd, m, t);
            lemma_take_rows(k, kd, m, t);
            lemma_take_rows(v, kd, m, t);
            assert(self.is_projection(
                row_of(xs, ed, t),
                (start_pos + t) as usize,
                row_of(q, qd, t),
                row_of(k, kd, t),
                row_of(v, kd, t),
            ));
        }
        assert forall|t: int| 0 <= t < m implies self.is_token_output(
            row_of(q1, qd, t),
            keys1,
            values1,
            past + t + 1,
            scale,
            #[trigger] row_of(ys.take(e), ed, t),
        ) by {
            lemma_take_rows(ys, ed, m, t);
            lemma_take_rows(q, qd, m, t);
            assert(self.is_token_output(
                row_of(q, qd, t),
                keys,
                values,
                past + t + 1,
                scale,
                row_of(ys, ed, t),
            ));
            assert forall|s: int| 0 <= s < past + t + 1 implies #[trigger] row_of(keys, kd, s)
                == row_of(keys1, kd, s) by {
                lemma_add_rows(past_keys, k, kd, past, n, s);
                lemma_add_rows(past_keys, k.take(d), kd, past, m, s);
                if s >= past {
                    lemma_take_rows(k, kd, m, s - past);
                }
            }
            assert forall|s: int| 0 <= s < past + t + 1 implies #[trigger] row_of(values, kd, s)
                == row_of(values1, kd, s) by {
                lemma_add_rows(past_values, v, kd, past, n, s);
                lemma_add_rows(past_values, v.take(d), kd, past, m, s);
                if s >= past {
                    lemma_take_rows(v, kd, m, s - past);
                }
            }
            self.lemma_token_output_prefix(
                row_of(q, qd, t),
                keys,
                values,
                keys1,
                values1,
                past + t + 1,
                scale,
                row_of(ys, ed, t),
            );
        }
        assert(self.is_projected(xs.take(e), m, start_pos, q1, k.take(d), v.take(d)));
        assert(self.is_outputs(past, m, q1, keys1, values1, scale, ys.take(e)));
        assert forall|t: int| 0 <= t < n - m implies self.is_projection(
            #[trigger] row_of(xs.skip(e), ed, t),
            (start_pos + m + t) as usize,
            row_of(q2, qd, t),
            row_of(k.skip(d), kd, t),
            row_of(v.skip(d), kd, t),
        ) by {
            lemma_skip_rows(xs, ed, n, m, t);
            lemma_skip_rows(q, qd, n, m, t);
            lemma_skip_rows(k, kd, n, m, t);
            lemma_skip_rows(v, kd, n, m, t);
            assert(self.is_projection(
                row_of(xs, ed, m + t),
                (start_pos + (m + t)) as usize,
                row_of(q, qd, m + t),
                row_of(k, kd, m + t),
                row_of(v, kd, m + t),
            ));
        }
        assert forall|t: int| 0 <= t < n - m implies self.is_token_output(
            row_of(q2, qd, t),
            keys,
            values,
            past + m + t + 1,
            scale,
            #[trigger] row_of(ys.skip(e), ed, t),
        ) by {
            lemma_skip_rows(ys, ed, n, m, t);
            lemma_skip_rows(q, qd, n, m, t);
            assert(self.is_token_output(
                row_of(q, qd, m + t),
                keys,
                values,
                past + (m + t) + 1,
                scale,
                row_of(ys, ed, m + t),
            ));
        }
        assert(self.is_projected(xs.skip(e), n - m, start_pos + m, q2, k.skip(d), v.skip(d)));
        assert(self.is_outputs(past + m, n - m, q2, keys, values, scale, ys.skip(e)));
    }

    /// Two passes join: processing some tokens and then others with a grown
    /// cache gives what processing all of them at once gives. The number type
    /// must compute the scale of the scores to one and the same number.
    #[verifier::rlimit(60)]
    pub proof fn steps_join(
        &self,
        past_keys: Seq<T>,
        past_values: Seq<T>,
        past: int,
        start_pos: int,
        first: AttentionStep<T>,
        second: AttentionStep<T>,
    )
        requires
            self.wf(),
            scale_is_fixed::<T>(self.spec_head_dim()),
            0 <= past,
            0 <= first.n,
            0 <= second.n,
            past_keys.len() == past * self.kv_dim(),
            past_values.len() == past * self.kv_dim(),
            first.xs.len() == first.n * self.spec_embed_dim(),
            second.xs.len() == second.n * self.spec_embed_dim(),
            self.is_step(
                past_keys,
                past_values,
                past,
                first.xs,
                first.n,
                start_pos,
                first.k,
                first.v,
                first.ys,
            ),
            self.is_step(
                past_keys + first.k,
                past_values + first.v,
                past + first.n,
                second.xs,
                second.n,
                start_pos + first.n,
                second.k,
                second.v,
                second.ys,
            ),
        ensures
            self.is_step(
                past_keys,
                past_values,
                past,
                first.xs + second.xs,
                first.n + second.n,
                start_pos,
                first.k + second.k,
                first.v + second.v,
                first.ys + second.ys,
            ),
    {
        let ed = self.spec_embed_dim() as int;
        let qd = self.q_dim();
        let kd = self.kv_dim();
        let m = first.n;
        let n = first.n + second.n;
        let (q1, scale) = choose|q: Seq<T>, scale: T|
            {
                &&& #[trigger] self.is_projected(first.xs, m, start_pos, q, first.k, first.v)
                &&& is_attention_scale(self.spec_head_dim(), scale)
                &&& #[trigger] self.is_outputs(
                    past,
                    m,
                    q,
                    past_keys + first.k,
                    past_values + first.v,
                    scale,
                    first.ys,
                )
            };
        let keys1 = past_keys + first.k;
        let values1 = past_values + first.v;
        let (q2, scale2) = choose|q: Seq<T>, scale: T|
            {
                &&& #[trigger] self.is_projected(
                    second.xs,
                    second.n,
                    start_pos + m,
                    q,
                    second.k,
                    second.v,
                )
                &&& is_attention_scale(self.spec_head_dim(), scale)
                &&& #[trigger] self.is_outputs(
                    past + m,
                    second.n,
                    q,
                    keys1 + second.k,
                    values1 + second.v,
                    scale,
                    second.ys,
                )
            };
        assert(scale2 == scale);
        let q = q1 + q2;
        let k = first.k + second.k;
        let v = first.v + second.v;
        let ys = first.ys + second.ys;
        let xs = first.xs + second.xs;
        let keys = past_keys + k;
        let values = past_values + v;
        assert(keys1 + second.k =~= keys);
        assert(values1 + second.v =~= values);
        assert(0 <= qd && 0 <= kd) by (nonlinear_arith)
            requires
                qd == self.spec_n_heads() * self.spec_head_dim(),
                kd == self.spec_n_kv_heads() * self.spec_head_dim(),
        ;
        assert(n * ed == m * ed + second.n * ed && n * qd == m * qd + second.n * qd && n * kd == m
            * kd + second.n * kd && (past + m) * kd == past * kd + m * kd) by (nonlinear_arith)
            requires
                n == m + second.n,
        ;
        assert forall|t: int| 0 <= t < n implies self.is_projection(
            #[trigger] row_of(xs, ed, t),
            (start_pos + t) as usize,
            row_of(q, qd, t),
            row_of(k, kd, t),
            row_of(v, kd, t),
        ) by {
            lemma_add_rows(first.xs, second.xs, ed, m, second.n, t);
            lemma_add_rows(q1, q2, qd, m, second.n, t);
            lemma_add_rows(first.k, second.k, kd, m, second.n, t);
            lemma_add_rows(first.v, second.v, kd, m, second.n, t);
            if t < m {
                assert(self.is_projection(
                    row_of(first.xs, ed, t),
                    (start_pos + t) as usize,
                    row_of(q1, qd, t),
                    row_of(first.k, kd, t),
                    row_of(first.v, kd, t),
                ));
            } else {
                assert(self.is_projection(
                    row_of(second.xs, ed, t - m),
                    (start_pos + m + (t - m)) as usize,
                    row_of(q2, qd, t - m),
                    row_of(second.k, kd, t - m),
                    row_of(second.v, kd, t - m),
                ));
            }
        }
        assert forall|t: int| 0 <= t < n implies self.is_token_output(
            row_of(q, qd, t),
            keys,
            values,
            past + t + 1,
            scale,
            #[trigger] row_of(ys, ed, t),
        ) by {
            lemma_add_rows(q1, q2, qd, m, second.n, t);
            lemma_add_rows(first.ys, second.ys, ed, m, second.n, t);
            if t < m {
                assert(self.is_token_output(
                    row_of(q1, qd, t),
                    keys1,
                    values1,
                    past + t + 1,
                    scale,
                    row_of(first.ys, ed, t),
                ));
                assert forall|s: int| 0 <= s < past + t + 1 implies #[trigger] row_of(keys1, kd, s)
                    == row_of(keys, kd, s) by {
                    lemma_add_rows(keys1, second.k, kd, past + m, second.n, s);
                }
                assert forall|s: int|
                    0 <= s < past + t + 1 implies #[trigger] row_of(values1, kd, s) == row_of(
                    values,
                    kd,
                    s,
                ) by {
                    lemma_add_rows(values1, second.v, kd, past + m, second.n, s);
                }
                self.lemma_token_output_prefix(
                    row_of(q1, qd, t),
                    keys1,
                    values1,
                    keys,
                    values,
                    past + t + 1,
                    scale,
                    row_of(first.ys, ed, t),
                );
            } else {
                assert(self.is_token_output(
                    row_of(q2, qd, t - m),
                    keys,
                    values,
                    past + m + (t - m) + 1,
                    scale,
                    row_of(second.ys, ed, t - m),
                ));
            }
        }
        assert(self.is_projected(xs, n, start_pos, q, k, v));
        assert(self.is_outputs(past, n, q, keys, values, scale, ys));
    }
}

} // verus!
