//! Multi-head attention with ternary projections.
//!
//! Queries have `n_heads` heads, keys and values `n_kv_heads`, each of which
//! serves a group of query heads. A position attends to itself and to the
//! positions before it.

use crate::layers::bitlinear::BitLinear;
use crate::layers::kv_cache::KvCache;
use crate::layers::rmsnorm::RmsNorm;
use crate::layers::rope::{RoPE, RoPELayout, is_frequency};
use crate::layers::softmax::{is_softmax, softmax_inplace};
use crate::numeric::{
    Real, dot, is_dot, is_one, is_over, is_positive, is_sqrt, is_sum, is_sum_from, is_times, is_usize,
    lemma_sum_push,
};
use crate::rows::{lemma_append_row, lemma_row_bounds, row_of, row_slice};
use crate::text::{concatenated, decimal, with_number};
use vstd::prelude::*;
use vstd::string::*;

verus! {

/// Head `h` of position `s` in keys or values that are stored position after
/// position.
pub open spec fn head_at<T>(xs: Seq<T>, n_heads: int, head_dim: int, s: int, h: int) -> Seq<T> {
    row_of(row_of(xs, n_heads * head_dim, s), head_dim, h)
}

/// `score` is the scaled inner product of a query and a key.
pub open spec fn is_score<T: Real>(q: Seq<T>, k: Seq<T>, scale: T, score: T) -> bool {
    exists|d: T| #[trigger] is_dot(q, k, d) && is_times(d, scale, score)
}

/// `r` is element `d` of the values, weighted and summed over `n` positions.
pub open spec fn is_weighted_sum<T: Real>(
    weights: Seq<T>,
    values: Seq<T>,
    n_heads: int,
    head_dim: int,
    h: int,
    d: int,
    r: T,
) -> bool {
    exists|ps: Seq<T>|
        {
            &&& ps.len() == weights.len()
            &&& #[trigger] is_sum(ps, r)
            &&& forall|s: int|
                0 <= s < weights.len() ==> is_times(
                    weights[s],
                    head_at(values, n_heads, head_dim, s, h)[d],
                    #[trigger] ps[s],
                )
        }
}

/// `out` is what one query head reads out of the first `n` positions.
pub open spec fn is_read_out<T: Real>(
    q: Seq<T>,
    keys: Seq<T>,
    values: Seq<T>,
    n_heads: int,
    head_dim: int,
    h: int,
    n: int,
    scale: T,
    out: Seq<T>,
) -> bool {
    exists|scores: Seq<T>, weights: Seq<T>|
        {
            &&& scores.len() == n
            &&& forall|s: int|
                0 <= s < n ==> is_score(
                    q,
                    head_at(keys, n_heads, head_dim, s, h),
                    scale,
                    #[trigger] scores[s],
                )
            &&& #[trigger] is_softmax(scores, weights)
            &&& weights.len() == n
            &&& out.len() == head_dim
            &&& forall|d: int|
                0 <= d < head_dim ==> is_weighted_sum(
                    weights,
                    values,
                    n_heads,
                    head_dim,
                    h,
                    d,
                    #[trigger] out[d],
                )
        }
}

/// `scale` is one over the root of the head dimension.
pub open spec fn is_attention_scale<T: Real>(head_dim: usize, scale: T) -> bool {
    exists|f: T, q: T, one: T|
        is_usize(head_dim, f) && #[trigger] is_sqrt(f, q) && is_one(one) && #[trigger] is_over(
            one,
            q,
            scale,
        )
}

/// A multi-head attention layer.
pub struct MultiHeadAttention<T: Real> {
    q_proj: BitLinear<T>,
    k_proj: BitLinear<T>,
    v_proj: BitLinear<T>,
    o_proj: BitLinear<T>,
    rope: RoPE<T>,
    o_sub_norm: Option<RmsNorm<T>>,
    n_heads: usize,
    n_kv_heads: usize,
    head_dim: usize,
}

impl<T: Real> MultiHeadAttention<T> {
    pub closed spec fn spec_q_proj(&self) -> BitLinear<T> {
        self.q_proj
    }

    pub closed spec fn spec_k_proj(&self) -> BitLinear<T> {
        self.k_proj
    }

    pub closed spec fn spec_v_proj(&self) -> BitLinear<T> {
        self.v_proj
    }

    pub closed spec fn spec_o_proj(&self) -> BitLinear<T> {
        self.o_proj
    }

    pub closed spec fn spec_rope(&self) -> RoPE<T> {
        self.rope
    }

    pub closed spec fn spec_o_sub_norm(&self) -> Option<RmsNorm<T>> {
        self.o_sub_norm
    }

    pub closed spec fn spec_n_heads(&self) -> usize {
        self.n_heads
    }

    pub closed spec fn spec_n_kv_heads(&self) -> usize {
        self.n_kv_heads
    }

    pub closed spec fn spec_head_dim(&self) -> usize {
        self.head_dim
    }

    pub open spec fn spec_embed_dim(&self) -> usize {
        self.spec_q_proj().spec_in()
    }

    /// Width of the concatenated query heads.
    pub open spec fn q_dim(&self) -> int {
        self.spec_n_heads() * self.spec_head_dim()
    }

    /// Width of the concatenated key or value heads.
    pub open spec fn kv_dim(&self) -> int {
        self.spec_n_kv_heads() * self.spec_head_dim()
    }

    /// The projections fit the heads, and every key head serves the same
    /// number of query heads.
    pub open spec fn wf(&self) -> bool {
        &&& self.spec_n_heads() > 0
        &&& self.spec_n_kv_heads() > 0
        &&& self.spec_n_heads() % self.spec_n_kv_heads() == 0
        &&& self.spec_q_proj().wf()
        &&& self.spec_k_proj().wf()
        &&& self.spec_v_proj().wf()
        &&& self.spec_o_proj().wf()
        &&& self.spec_q_proj().spec_out() == self.q_dim()
        &&& self.spec_k_proj().spec_out() == self.kv_dim()
        &&& self.spec_v_proj().spec_out() == self.kv_dim()
        &&& self.spec_o_proj().spec_in() == self.q_dim()
        &&& self.spec_o_proj().spec_out() == self.spec_embed_dim()
        &&& self.spec_k_proj().spec_in() == self.spec_embed_dim()
        &&& self.spec_v_proj().spec_in() == self.spec_embed_dim()
        &&& self.spec_rope().wf()
        &&& self.spec_rope().spec_dim() == self.spec_head_dim()
        &&& (self.spec_o_sub_norm() matches Some(norm) ==> norm.spec_weight().len() == self.q_dim())
    }

    /// The key head that serves a query head.
    pub open spec fn kv_head_of(&self, qh: int) -> int {
        qh / (self.spec_n_heads() as int / self.spec_n_kv_heads() as int)
    }

    /// `q`, `k` and `v` are the projections of a token at a position, the
    /// first two rotated.
    pub open spec fn is_projection(
        &self,
        x: Seq<T>,
        pos: usize,
        q: Seq<T>,
        k: Seq<T>,
        v: Seq<T>,
    ) -> bool {
        exists|q0: Seq<T>, k0: Seq<T>|
            {
                &&& #[trigger] self.spec_q_proj().is_forward(x, q0)
                &&& #[trigger] self.spec_k_proj().is_forward(x, k0)
                &&& self.spec_v_proj().is_forward(x, v)
                &&& self.spec_rope().is_forward_heads(q0, self.spec_n_heads() as int, pos, q)
                &&& self.spec_rope().is_forward_heads(k0, self.spec_n_kv_heads() as int, pos, k)
            }
    }

    /// The tokens of a sequence and their projections.
    pub open spec fn is_projected(
        &self,
        xs: Seq<T>,
        n: int,
        start_pos: int,
        q: Seq<T>,
        k: Seq<T>,
        v: Seq<T>,
    ) -> bool {
        &&& q.len() == n * self.q_dim()
        &&& k.len() == n * self.kv_dim()
        &&& v.len() == n * self.kv_dim()
        &&& forall|t: int|
            0 <= t < n ==> self.is_projection(
                #[trigger] row_of(xs, self.spec_embed_dim() as int, t),
                (start_pos + t) as usize,
                row_of(q, self.q_dim(), t),
                row_of(k, self.kv_dim(), t),
                row_of(v, self.kv_dim(), t),
            )
    }

    /// `concat` holds what each query head of one token reads out of the first
    /// `n` positions.
    pub open spec fn is_attended(
        &self,
        q: Seq<T>,
        keys: Seq<T>,
        values: Seq<T>,
        n: int,
        scale: T,
        concat: Seq<T>,
    ) -> bool {
        &&& concat.len() == self.q_dim()
        &&& forall|qh: int|
            0 <= qh < self.spec_n_heads() ==> is_read_out(
                row_of(q, self.spec_head_dim() as int, qh),
                keys,
                values,
                self.spec_n_kv_heads() as int,
                self.spec_head_dim() as int,
                self.kv_head_of(qh),
                n,
                scale,
                #[trigger] row_of(concat, self.spec_head_dim() as int, qh),
            )
    }

    /// `y` is the output of one token whose heads read `concat`.
    pub open spec fn is_output(&self, concat: Seq<T>, y: Seq<T>) -> bool {
        match self.spec_o_sub_norm() {
            Some(norm) => exists|m: Seq<T>|
                #[trigger] norm.is_forward(concat, m) && self.spec_o_proj().is_forward(m, y),
            None => self.spec_o_proj().is_forward(concat, y),
        }
    }

    /// `y` is the output of one token with query `q` that sees `n` positions.
    pub open spec fn is_token_output(
        &self,
        q: Seq<T>,
        keys: Seq<T>,
        values: Seq<T>,
        n: int,
        scale: T,
        y: Seq<T>,
    ) -> bool {
        exists|concat: Seq<T>|
            #[trigger] self.is_attended(q, keys, values, n, scale, concat) && self.is_output(
                concat,
                y,
            )
    }

    /// The outputs of `n` tokens with queries `q` that follow `past` positions;
    /// token `t` sees the first `past + t + 1` positions.
    pub open spec fn is_outputs(
        &self,
        past: int,
        n: int,
        q: Seq<T>,
        keys: Seq<T>,
        values: Seq<T>,
        scale: T,
        ys: Seq<T>,
    ) -> bool {
        &&& ys.len() == n * self.spec_embed_dim()
        &&& forall|t: int|
            0 <= t < n ==> self.is_token_output(
                row_of(q, self.q_dim(), t),
                keys,
                values,
                past + t + 1,
                scale,
                #[trigger] row_of(ys, self.spec_embed_dim() as int, t),
            )
    }

    /// What the layer makes of `n` tokens that start at `start_pos` and follow
    /// `past` cached positions: new keys and values, and outputs.
    pub open spec fn is_step(
        &self,
        past_keys: Seq<T>,
        past_values: Seq<T>,
        past: int,
        xs: Seq<T>,
        n: int,
        start_pos: int,
        k: Seq<T>,
        v: Seq<T>,
        ys: Seq<T>,
    ) -> bool {
        exists|q: Seq<T>, scale: T|
            {
                &&& #[trigger] self.is_projected(xs, n, start_pos, q, k, v)
                &&& is_attention_scale(self.spec_head_dim(), scale)
                &&& #[trigger] self.is_outputs(
                    past,
                    n,
                    q,
                    past_keys + k,
                    past_values + v,
                    scale,
                    ys,
                )
            }
    }

    /// What the layer makes of a whole sequence.
    pub open spec fn is_forward(&self, xs: Seq<T>, n: int, start_pos: int, ys: Seq<T>) -> bool {
        exists|k: Seq<T>, v: Seq<T>| #[trigger]
            self.is_step(Seq::empty(), Seq::empty(), 0, xs, n, start_pos, k, v, ys)
    }

    /// A layer that rotates neighbouring elements.
    pub fn new(
        q_proj: BitLinear<T>,
        k_proj: BitLinear<T>,
        v_proj: BitLinear<T>,
        o_proj: BitLinear<T>,
        n_heads: usize,
        n_kv_heads: usize,
        head_dim: usize,
        rope_base: T,
    ) -> (a: Self)
        requires
            n_heads > 0,
            n_kv_heads > 0,
            n_heads % n_kv_heads == 0,
            q_proj.wf(),
            k_proj.wf(),
            v_proj.wf(),
            o_proj.wf(),
            q_proj.spec_out() == n_heads * head_dim,
            k_proj.spec_out() == n_kv_heads * head_dim,
            v_proj.spec_out() == n_kv_heads * head_dim,
            o_proj.spec_in() == n_heads * head_dim,
            q_proj.spec_in() == o_proj.spec_out(),
            k_proj.spec_in() == q_proj.spec_in(),
            v_proj.spec_in() == q_proj.spec_in(),
            head_dim > 0,
            head_dim % 2 == 0,
            is_positive(rope_base),
        ensures
            a.wf(),
            a.spec_q_proj() == q_proj,
            a.spec_k_proj() == k_proj,
            a.spec_v_proj() == v_proj,
            a.spec_o_proj() == o_proj,
            a.spec_n_heads() == n_heads,
            a.spec_n_kv_heads() == n_kv_heads,
            a.spec_head_dim() == head_dim,
            a.spec_o_sub_norm() is None,
            a.spec_rope().spec_layout() == RoPELayout::Interleaved,
            forall|i: int|
                0 <= i < a.spec_rope().spec_freqs().len() ==> is_frequency(
                    rope_base,
                    head_dim,
                    i as usize,
                    #[trigger] a.spec_rope().spec_freqs()[i],
                ),
    {
        MultiHeadAttention::with_rope_layout(
            q_proj,
            k_proj,
            v_proj,
            o_proj,
            n_heads,
            n_kv_heads,
            head_dim,
            rope_base,
            RoPELayout::Interleaved,
        )
    }

    /// A layer with a given pairing of rotated elements.
    pub fn with_rope_layout(
        q_proj: BitLinear<T>,
        k_proj: BitLinear<T>,
        v_proj: BitLinear<T>,
        o_proj: BitLinear<T>,
        n_heads: usize,
        n_kv_heads: usize,
        head_dim: usize,
        rope_base: T,
        rope_layout: RoPELayout,
    ) -> (a: Self)
        requires
            n_heads > 0,
            n_kv_heads > 0,
            n_heads % n_kv_heads == 0,
            q_proj.wf(),
            k_proj.wf(),
            v_proj.wf(),
            o_proj.wf(),
            q_proj.spec_out() == n_heads * head_dim,
            k_proj.spec_out() == n_kv_heads * head_dim,
            v_proj.spec_out() == n_kv_heads * head_dim,
            o_proj.spec_in() == n_heads * head_dim,
            q_proj.spec_in() == o_proj.spec_out(),
            k_proj.spec_in() == q_proj.spec_in(),
            v_proj.spec_in() == q_proj.spec_in(),
            head_dim > 0,
            head_dim % 2 == 0,
            is_positive(rope_base),
        ensures
            a.wf(),
            a.spec_q_proj() == q_proj,
            a.spec_k_proj() == k_proj,
            a.spec_v_proj() == v_proj,
            a.spec_o_proj() == o_proj,
            a.spec_n_heads() == n_heads,
            a.spec_n_kv_heads() == n_kv_heads,
            a.spec_head_dim() == head_dim,
            a.spec_o_sub_norm() is None,
            a.spec_rope().spec_layout() == rope_layout,
            forall|i: int|
                0 <= i < a.spec_rope().spec_freqs().len() ==> is_frequency(
                    rope_base,
                    head_dim,
                    i as usize,
                    #[trigger] a.spec_rope().spec_freqs()[i],
                ),
    {
        let rope: RoPE<T> = RoPE::with_layout(head_dim, rope_base, rope_layout);
        MultiHeadAttention {
            q_proj,
            k_proj,
            v_proj,
            o_proj,
            rope,
            o_sub_norm: None,
            n_heads,
            n_kv_heads,
            head_dim,
        }
    }

    /// Normalize the concatenated heads before the output projection.
    pub fn set_o_sub_norm(&mut self, norm: RmsNorm<T>)
        requires
            old(self).wf(),
            norm.spec_weight().len() == old(self).q_dim(),
        ensures
            final(self).wf(),
            final(self).spec_o_sub_norm() == Some(norm),
            final(self).same_but_norm(old(self)),
    {
        self.o_sub_norm = Some(norm);
    }

    /// Two layers agree in everything but the normalization of heads.
    pub open spec fn same_but_norm(&self, other: &MultiHeadAttention<T>) -> bool {
        &&& self.spec_q_proj() == other.spec_q_proj()
        &&& self.spec_k_proj() == other.spec_k_proj()
        &&& self.spec_v_proj() == other.spec_v_proj()
        &&& self.spec_o_proj() == other.spec_o_proj()
        &&& self.spec_rope() == other.spec_rope()
        &&& self.spec_n_heads() == other.spec_n_heads()
        &&& self.spec_n_kv_heads() == other.spec_n_kv_heads()
        &&& self.spec_head_dim() == other.spec_head_dim()
    }

    /// Length of input and output vectors.
    pub fn embed_dim(&self) -> (n: usize)
        ensures
            n == self.spec_embed_dim(),
    {
        self.q_proj.in_features()
    }

    /// Number of query heads.
    pub fn n_heads(&self) -> (n: usize)
        ensures
            n == self.spec_n_heads(),
    {
        self.n_heads
    }

    /// Number of key and value heads.
    pub fn n_kv_heads(&self) -> (n: usize)
        ensures
            n == self.spec_n_kv_heads(),
    {
        self.n_kv_heads
    }

    /// Elements per head.
    pub fn head_dim(&self) -> (n: usize)
        ensures
            n == self.spec_head_dim(),
    {
        self.head_dim
    }

    /// Query heads per key head.
    pub fn heads_per_group(&self) -> (n: usize)
        requires
            self.wf(),
        ensures
            n == self.spec_n_heads() as int / self.spec_n_kv_heads() as int,
            n > 0,
    {
        proof {
            self.lemma_groups(0);
        }
        self.n_heads / self.n_kv_heads
    }

    /// Every query head has a key head, and the groups are of one size.
    pub proof fn lemma_groups(&self, qh: int)
        requires
            self.wf(),
            0 <= qh < self.spec_n_heads(),
        ensures
            0 <= self.kv_head_of(qh) < self.spec_n_kv_heads(),
            self.spec_n_heads() as int / self.spec_n_kv_heads() as int > 0,
    {
        let n = self.spec_n_heads() as int;
        let k = self.spec_n_kv_heads() as int;
        let g = n / k;
        assert(g > 0 && g * k == n) by (nonlinear_arith)
            requires
                n > 0,
                k > 0,
                n % k == 0,
                g == n / k,
        ;
        assert(0 <= qh / g < k) by (nonlinear_arith)
            requires
                g > 0,
                g * k == n,
                0 <= qh < n,
        ;
    }

    proof fn lemma_dims(&self)
        requires
            self.wf(),
        ensures
            0 < self.kv_dim(),
            0 < self.q_dim(),
    {
        assert(0 < self.kv_dim() && 0 < self.q_dim()) by (nonlinear_arith)
            requires
                self.kv_dim() == self.spec_n_kv_heads() * self.spec_head_dim(),
                self.q_dim() == self.spec_n_heads() * self.spec_head_dim(),
                self.spec_n_kv_heads() > 0,
                self.spec_n_heads() > 0,
                self.spec_head_dim() > 0,
        ;
    }

    /// Project the tokens of a sequence and rotate queries and keys.
    fn project(&self, input: &[T], seq_len: usize, start_pos: usize) -> (r: (Vec<T>, Vec<T>, Vec<T>))
        requires
            self.wf(),
            input@.len() == seq_len * self.spec_embed_dim(),
            start_pos + seq_len <= usize::MAX,
        ensures
            self.is_projected(input@, seq_len as int, start_pos as int, r.0@, r.1@, r.2@),
    {
        let embed_dim: usize = self.embed_dim();
        let ghost q_dim = self.q_dim();
        let ghost kv_dim = self.kv_dim();
        proof {
            self.lemma_dims();
        }
        let mut q_all: Vec<T> = Vec::new();
        let mut k_all: Vec<T> = Vec::new();
        let mut v_all: Vec<T> = Vec::new();
        let mut t: usize = 0;
        while t < seq_len
            invariant
                self.wf(),
                embed_dim == self.spec_embed_dim(),
                q_dim == self.q_dim(),
                kv_dim == self.kv_dim(),
                0 < q_dim,
                0 < kv_dim,
                input@.len() == seq_len * embed_dim,
                start_pos + seq_len <= usize::MAX,
                t <= seq_len,
                q_all@.len() == t * q_dim,
                k_all@.len() == t * kv_dim,
                v_all@.len() == t * kv_dim,
                forall|j: int|
                    0 <= j < t ==> self.is_projection(
                        #[trigger] row_of(input@, embed_dim as int, j),
                        (start_pos + j) as usize,
                        row_of(q_all@, q_dim, j),
                        row_of(k_all@, kv_dim, j),
                        row_of(v_all@, kv_dim, j),
                    ),
            decreases seq_len - t,
        {
            proof {
                lemma_row_bounds(t as int, seq_len as int, embed_dim as int);
            }
            let token: &[T] = row_slice(input, embed_dim, t);
            let q0: Vec<T> = self.q_proj.forward(token);
            let k0: Vec<T> = self.k_proj.forward(token);
            let mut v: Vec<T> = self.v_proj.forward(token);
            let mut q: Vec<T> = self.rope.forward_heads(q0.as_slice(), self.n_heads, start_pos + t);
            let mut k: Vec<T> = self.rope.forward_heads(
                k0.as_slice(),
                self.n_kv_heads,
                start_pos + t,
            );
            proof {
                assert(self.spec_q_proj().is_forward(token@, q0@));
                assert(self.spec_k_proj().is_forward(token@, k0@));
                assert(self.is_projection(token@, (start_pos + t) as usize, q@, k@, v@));
                lemma_append_row(q_all@, q@, q_dim, t as int);
                lemma_append_row(k_all@, k@, kv_dim, t as int);
                lemma_append_row(v_all@, v@, kv_dim, t as int);
            }
            q_all.append(&mut q);
            k_all.append(&mut k);
            v_all.append(&mut v);
            t += 1;
        }
        (q_all, k_all, v_all)
    }

    proof fn lemma_head_bounds(&self, xs: Seq<T>, n: int, s: int, h: int)
        requires
            self.wf(),
            xs.len() == n * self.kv_dim(),
            0 <= s < n,
            0 <= h < self.spec_n_kv_heads(),
        ensures
            ({
                let row = row_of(xs, self.kv_dim(), s);
                let head = head_at(
                    xs,
                    self.spec_n_kv_heads() as int,
                    self.spec_head_dim() as int,
                    s,
                    h,
                );
                &&& 0 <= s * self.kv_dim()
                &&& s * self.kv_dim() + self.kv_dim() <= xs.len()
                &&& row.len() == self.kv_dim()
                &&& 0 <= h * self.spec_head_dim()
                &&& h * self.spec_head_dim() + self.spec_head_dim() <= row.len()
                &&& head.len() == self.spec_head_dim()
            }),
    {
        self.lemma_dims();
        lemma_row_bounds(s, n, self.kv_dim());
        lemma_row_bounds(h, self.spec_n_kv_heads() as int, self.spec_head_dim() as int);
    }

    /// A head of a position, out of flat keys or values.
    fn head_slice<'a>(&self, xs: &'a [T], n: usize, s: usize, h: usize) -> (head: &'a [T])
        requires
            self.wf(),
            xs@.len() == n * self.kv_dim(),
            s < n,
            h < self.spec_n_kv_heads(),
        ensures
            head@ == head_at(
                xs@,
                self.spec_n_kv_heads() as int,
                self.spec_head_dim() as int,
                s as int,
                h as int,
            ),
            head@.len() == self.spec_head_dim(),
    {
        proof {
            self.lemma_head_bounds(xs@, n as int, s as int, h as int);
        }
        let kv_dim: usize = self.k_proj.out_features();
        row_slice(row_slice(xs, kv_dim, s), self.head_dim, h)
    }

    /// What one query head reads out of the first `n` positions.
    fn read_out(
        &self,
        q: &[T],
        keys: &[T],
        values: &[T],
        total: usize,
        h: usize,
        n: usize,
        scale: T,
    ) -> (out: Vec<T>)
        requires
            self.wf(),
            q@.len() == self.spec_head_dim(),
            keys@.len() == total * self.kv_dim(),
            values@.len() == total * self.kv_dim(),
            n <= total,
            h < self.spec_n_kv_heads(),
        ensures
            is_read_out(
                q@,
                keys@,
                values@,
                self.spec_n_kv_heads() as int,
                self.spec_head_dim() as int,
                h as int,
                n as int,
                scale,
                out@,
            ),
            out@.len() == self.spec_head_dim(),
    {
        let ghost nk = self.spec_n_kv_heads() as int;
        let ghost hd = self.spec_head_dim() as int;
        let mut weights: Vec<T> = Vec::new();
        let mut s: usize = 0;
        while s < n
            invariant
                self.wf(),
                nk == self.spec_n_kv_heads(),
                hd == self.spec_head_dim(),
                q@.len() == hd,
                keys@.len() == total * self.kv_dim(),
                n <= total,
                h < nk,
                s <= n,
                weights@.len() == s,
                forall|j: int|
                    0 <= j < s ==> is_score(
                        q@,
                        head_at(keys@, nk, hd, j, h as int),
                        scale,
                        #[trigger] weights@[j],
                    ),
            decreases n - s,
        {
            let key: &[T] = self.head_slice(keys, total, s, h);
            let d = dot(q, key);
            let score = d.times(scale);
            assert(is_score(q@, key@, scale, score));
            weights.push(score);
            s += 1;
        }
        let ghost scores = weights@;
        softmax_inplace(&mut weights);
        let mut out: Vec<T> = Vec::new();
        let mut d: usize = 0;
        while d < self.head_dim
            invariant
                self.wf(),
                nk == self.spec_n_kv_heads(),
                hd == self.spec_head_dim(),
                values@.len() == total * self.kv_dim(),
                n <= total,
                h < nk,
                weights@.len() == n,
                d <= hd,
                out@.len() == d,
                forall|j: int|
                    0 <= j < d ==> is_weighted_sum(
                        weights@,
                        values@,
                        nk,
                        hd,
                        h as int,
                        j,
                        #[trigger] out@[j],
                    ),
            decreases hd - d,
        {
            let start = T::zero();
            let mut acc = start;
            let ghost mut ps: Seq<T> = Seq::empty();
            let mut j: usize = 0;
            while j < n
                invariant
                    self.wf(),
                    nk == self.spec_n_kv_heads(),
                    hd == self.spec_head_dim(),
                    values@.len() == total * self.kv_dim(),
                    n <= total,
                    h < nk,
                    weights@.len() == n,
                    d < hd,
                    j <= n,
                    ps.len() == j,
                    forall|i: int|
                        0 <= i < j ==> is_times(
                            weights@[i],
                            head_at(values@, nk, hd, i, h as int)[d as int],
                            #[trigger] ps[i],
                        ),
                    is_sum_from(start, ps, acc),
                decreases n - j,
            {
                let value: &[T] = self.head_slice(values, total, j, h);
                let p = weights[j].times(value[d]);
                let ghost before = acc;
                acc = acc.plus(p);
                proof {
                    lemma_sum_push(start, ps, before, p, acc);
                    ps = ps.push(p);
                }
                j += 1;
            }
            assert(is_sum(ps, acc));
            assert(is_weighted_sum(weights@, values@, nk, hd, h as int, d as int, acc));
            out.push(acc);
            d += 1;
        }
        assert(is_softmax(scores, weights@));
        out
    }

    /// Outputs of tokens with queries `q_all` that follow `past` positions.
    fn attend(
        &self,
        q_all: &[T],
        keys: &[T],
        values: &[T],
        past: usize,
        seq_len: usize,
        scale: T,
    ) -> (output: Vec<T>)
        requires
            self.wf(),
            past + seq_len <= usize::MAX,
            q_all@.len() == seq_len * self.q_dim(),
            keys@.len() == (past + seq_len) * self.kv_dim(),
            values@.len() == (past + seq_len) * self.kv_dim(),
        ensures
            self.is_outputs(
                past as int,
                seq_len as int,
                q_all@,
                keys@,
                values@,
                scale,
                output@,
            ),
    {
        let q_dim: usize = self.q_proj.out_features();
        let hpg: usize = self.heads_per_group();
        let ghost embed_dim = self.spec_embed_dim() as int;
        let ghost hd = self.spec_head_dim() as int;
        let total: usize = past + seq_len;
        let mut output: Vec<T> = Vec::new();
        let mut t: usize = 0;
        while t < seq_len
            invariant
                self.wf(),
                past + seq_len <= usize::MAX,
                total == past + seq_len,
                q_dim == self.q_dim(),
                hpg == self.spec_n_heads() as int / self.spec_n_kv_heads() as int,
                hpg > 0,
                embed_dim == self.spec_embed_dim(),
                hd == self.spec_head_dim(),
                q_all@.len() == seq_len * q_dim,
                keys@.len() == total * self.kv_dim(),
                values@.len() == total * self.kv_dim(),
                t <= seq_len,
                output@.len() == t * embed_dim,
                forall|j: int|
                    0 <= j < t ==> self.is_token_output(
                        row_of(q_all@, q_dim as int, j),
                        keys@,
                        values@,
                        past + j + 1,
                        scale,
                        #[trigger] row_of(output@, embed_dim, j),
                    ),
            decreases seq_len - t,
        {
            proof {
                lemma_row_bounds(t as int, seq_len as int, q_dim as int);
            }
            let q_row: &[T] = row_slice(q_all, q_dim, t);
            let visible: usize = past + t + 1;
            let mut concat: Vec<T> = Vec::new();
            let mut qh: usize = 0;
            while qh < self.n_heads
                invariant
                    self.wf(),
                    total == past + seq_len,
                    t < seq_len,
                    visible == past + t + 1,
                    q_dim == self.q_dim(),
                    hpg == self.spec_n_heads() as int / self.spec_n_kv_heads() as int,
                    hpg > 0,
                    hd == self.spec_head_dim(),
                    q_row@.len() == q_dim,
                    keys@.len() == total * self.kv_dim(),
                    values@.len() == total * self.kv_dim(),
                    qh <= self.spec_n_heads(),
                    concat@.len() == qh * hd,
                    forall|j: int|
                        0 <= j < qh ==> is_read_out(
                            row_of(q_row@, hd, j),
                            keys@,
                            values@,
                            self.spec_n_kv_heads() as int,
                            hd,
                            self.kv_head_of(j),
                            visible as int,
                            scale,
                            #[trigger] row_of(concat@, hd, j),
                        ),
                decreases self.n_heads - qh,
            {
                proof {
                    self.lemma_groups(qh as int);
                    lemma_row_bounds(qh as int, self.spec_n_heads() as int, hd);
                }
                let q: &[T] = row_slice(q_row, self.head_dim, qh);
                let mut out: Vec<T> = self.read_out(
                    q,
                    keys,
                    values,
                    total,
                    qh / hpg,
                    visible,
                    scale,
                );
                proof {
                    lemma_append_row(concat@, out@, hd, qh as int);
                }
                concat.append(&mut out);
                qh += 1;
            }
            assert(self.is_attended(q_row@, keys@, values@, visible as int, scale, concat@));
            let mut y: Vec<T> = match &self.o_sub_norm {
                Some(norm) => {
                    let normed: Vec<T> = norm.forward(concat.as_slice());
                    self.o_proj.forward(normed.as_slice())
                },
                None => self.o_proj.forward(concat.as_slice()),
            };
            proof {
                assert(self.is_output(concat@, y@));
                assert(self.is_token_output(
                    q_row@,
                    keys@,
                    values@,
                    visible as int,
                    scale,
                    y@,
                ));
                lemma_append_row(output@, y@, embed_dim, t as int);
            }
            output.append(&mut y);
            t += 1;
        }
        output
    }

    /// One over the root of the head dimension.
    fn scale(&self) -> (scale: T)
        ensures
            is_attention_scale(self.spec_head_dim(), scale),
    {
        let q = T::from_usize(self.head_dim).sqrt();
        T::one().over(q)
    }

    /// Apply the layer to a sequence.
    pub fn forward(&self, input: &[T], seq_len: usize, start_pos: usize) -> (output: Vec<T>)
        requires
            self.wf(),
            input@.len() == seq_len * self.spec_embed_dim(),
            start_pos + seq_len <= usize::MAX,
        ensures
            self.is_forward(input@, seq_len as int, start_pos as int, output@),
            output@.len() == input@.len(),
    {
        let (q_all, k_all, v_all) = self.project(input, seq_len, start_pos);
        let scale = self.scale();
        let output: Vec<T> = self.attend(
            q_all.as_slice(),
            k_all.as_slice(),
            v_all.as_slice(),
            0,
            seq_len,
            scale,
        );
        proof {
            let none = Seq::<T>::empty();
            assert(none + k_all@ =~= k_all@);
            assert(none + v_all@ =~= v_all@);
            assert(self.is_projected(
                input@,
                seq_len as int,
                start_pos as int,
                q_all@,
                k_all@,
                v_all@,
            ));
            assert(self.is_step(
                none,
                none,
                0,
                input@,
                seq_len as int,
                start_pos as int,
                k_all@,
                v_all@,
                output@,
            ));
        }
        output
    }

    /// The cache belongs to this layer and has room for `n` more positions.
    pub open spec fn fits_cache(&self, cache: &KvCache<T>, n: int) -> bool {
        &&& cache.wf()
        &&& cache.spec_n_kv_heads() == self.spec_n_kv_heads()
        &&& cache.spec_head_dim() == self.spec_head_dim()
        &&& cache.spec_len() + n <= cache.spec_max_seq_len()
    }

    /// Apply the layer to new tokens. Their keys and values join the cache,
    /// and they attend to everything cached before them.
    pub fn forward_cached(&self, input: &[T], seq_len: usize, cache: &mut KvCache<T>) -> (output: Vec<
        T,
    >)
        requires
            self.wf(),
            input@.len() == seq_len * self.spec_embed_dim(),
            self.fits_cache(old(cache), seq_len as int),
        ensures
            output@.len() == input@.len(),
            final(cache).wf(),
            final(cache).same_shape(old(cache)),
            final(cache).spec_len() == old(cache).spec_len() + seq_len,
            self.is_cached_forward(old(cache), input@, seq_len as int, final(cache), output@),
    {
        let ghost before = *cache;
        let start_pos: usize = cache.len();
        proof {
            self.lemma_dims();
            cache.cache_facts();
        }
        let (q_all, k_new, v_new) = self.project(input, seq_len, start_pos);
        proof {
            let d = self.kv_dim();
            assert(k_new@.len() as int % d == 0 && k_new@.len() as int / d == seq_len)
                by (nonlinear_arith)
                requires
                    d > 0,
                    k_new@.len() == seq_len * d,
            ;
            assert((start_pos + seq_len) * d == start_pos * d + seq_len * d) by (nonlinear_arith);
        }
        cache.append(k_new.as_slice(), v_new.as_slice());
        let scale = self.scale();
        let output: Vec<T> = self.attend(
            q_all.as_slice(),
            cache.keys(),
            cache.values(),
            start_pos,
            seq_len,
            scale,
        );
        proof {
            assert(self.is_projected(
                input@,
                seq_len as int,
                start_pos as int,
                q_all@,
                k_new@,
                v_new@,
            ));
            assert(self.is_step(
                before.spec_keys(),
                before.spec_values(),
                start_pos as int,
                input@,
                seq_len as int,
                start_pos as int,
                k_new@,
                v_new@,
                output@,
            ));
        }
        output
    }

    /// What the layer makes of new tokens and a cache.
    pub open spec fn is_cached_forward(
        &self,
        before: &KvCache<T>,
        xs: Seq<T>,
        n: int,
        after: &KvCache<T>,
        ys: Seq<T>,
    ) -> bool {
        exists|k: Seq<T>, v: Seq<T>|
            {
                &&& #[trigger] self.is_step(
                    before.spec_keys(),
                    before.spec_values(),
                    before.spec_len() as int,
                    xs,
                    n,
                    before.spec_len() as int,
                    k,
                    v,
                    ys,
                )
                &&& after.spec_keys() == before.spec_keys() + k
                &&& after.spec_values() == before.spec_values() + v
                &&& after.spec_len() == before.spec_len() + n
            }
    }

    /// On an empty cache, the cached pass computes what the plain pass
    /// computes from position zero.
    pub proof fn prefill_is_forward(
        &self,
        before: &KvCache<T>,
        xs: Seq<T>,
        n: int,
        after: &KvCache<T>,
        ys: Seq<T>,
    )
        requires
            before.wf(),
            before.spec_len() == 0,
            self.is_cached_forward(before, xs, n, after, ys),
        ensures
            self.is_forward(xs, n, 0, ys),
    {
        before.cache_facts();
        assert(0 * before.spec_kv_dim() == 0) by (nonlinear_arith);
        assert(before.spec_keys() =~= Seq::<T>::empty());
        assert(before.spec_values() =~= Seq::<T>::empty());
    }
}

impl<T: Real> MultiHeadAttention<T> {
    /// One line about an attention layer.
    pub open spec fn description(&self) -> Seq<char> {
        "MultiHeadAttention("@ + "embed="@ + decimal(self.spec_embed_dim() as nat) + ", heads="@
            + decimal(self.spec_n_heads() as nat) + ", kv_heads="@ + decimal(
            self.spec_n_kv_heads() as nat,
        ) + ", head_dim="@ + decimal(self.spec_head_dim() as nat) + ")"@
    }

    /// One line about an attention layer.
    pub fn describe(&self) -> (s: String)
        ensures
            s@ == self.description(),
    {
        let s: String = with_number(
            String::from_str("MultiHeadAttention("),
            "embed=",
            self.embed_dim(),
        );
        let s: String = with_number(s, ", heads=", self.n_heads);
        let s: String = with_number(s, ", kv_heads=", self.n_kv_heads);
        let s: String = with_number(s, ", head_dim=", self.head_dim);
        concatenated(s.as_str(), ")")
    }
}

} // verus!
