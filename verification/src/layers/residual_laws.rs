//! The residual stream: what a block adds to its input, and what it leaves
//! alone.

use crate::exact::adds;
use crate::layers::determinism::{lemma_fed_rows, lemma_normed_rows, lemma_sums};
use crate::layers::kv_cache::KvCache;
use crate::layers::transformer::{TransformerBlock, is_fed_rows, is_normed_rows};
use crate::numeric::{Real, is_functional, is_plus, is_sums, is_zero};
use vstd::prelude::*;

verus! {

impl<T: Real> TransformerBlock<T> {
    /// The feed-forward network returns zeros, whatever goes in.
    pub open spec fn feeds_nothing(&self, v: spec_fn(T) -> real) -> bool {
        forall|a: Seq<T>, b: Seq<T>, i: int| #[trigger]
            self.spec_ffn().is_forward(a, b) && 0 <= i < b.len() ==> v(#[trigger] b[i]) == 0 as real
    }

    /// The attention layer returns zeros for `n` tokens, whatever goes in.
    pub open spec fn attends_to_nothing(
        &self,
        v: spec_fn(T) -> real,
        n: int,
        start_pos: int,
    ) -> bool {
        forall|a: Seq<T>, b: Seq<T>, i: int| #[trigger]
            self.spec_attention().is_forward(a, n, start_pos, b) && 0 <= i < b.len() ==> v(
                #[trigger] b[i],
            ) == 0 as real
    }

    /// The input, the attention layer's view of it and the network's view of
    /// both add up to the output.
    pub open spec fn is_stream(
        &self,
        v: spec_fn(T) -> real,
        xs: Seq<T>,
        n: int,
        attn: Seq<T>,
        ys: Seq<T>,
    ) -> bool {
        exists|h: Seq<T>, normed: Seq<T>, fed: Seq<T>|
            {
                &&& #[trigger] is_normed_rows(
                    self.spec_ffn_norm(),
                    h,
                    n,
                    self.spec_embed_dim() as int,
                    normed,
                )
                &&& #[trigger] is_fed_rows(
                    self.spec_ffn(),
                    normed,
                    n,
                    self.spec_embed_dim() as int,
                    fed,
                )
                &&& h.len() == xs.len()
                &&& ys.len() == xs.len()
                &&& forall|i: int|
                    0 <= i < xs.len() ==> v(#[trigger] h[i]) == v(xs[i]) + v(attn[i])
                &&& forall|i: int|
                    0 <= i < xs.len() ==> v(#[trigger] ys[i]) == v(xs[i]) + v(attn[i]) + v(fed[i])
            }
    }

    proof fn lemma_stream(
        &self,
        v: spec_fn(T) -> real,
        xs: Seq<T>,
        n: int,
        attn: Seq<T>,
        ys: Seq<T>,
    )
        requires
            adds(v),
            self.is_completed(xs, n, attn, ys),
        ensures
            self.is_stream(v, xs, n, attn, ys),
    {
        let width = self.spec_embed_dim() as int;
        let (h, normed, fed) = choose|h: Seq<T>, normed: Seq<T>, fed: Seq<T>|
            {
                &&& #[trigger] is_sums(xs, attn, h)
                &&& #[trigger] is_normed_rows(self.spec_ffn_norm(), h, n, width, normed)
                &&& #[trigger] is_fed_rows(self.spec_ffn(), normed, n, width, fed)
                &&& is_sums(h, fed, ys)
            };
        assert forall|i: int| 0 <= i < xs.len() implies v(#[trigger] h[i]) == v(xs[i]) + v(attn[i]) by {
            assert(is_plus(xs[i], attn[i], h[i]));
        }
        assert forall|i: int| 0 <= i < xs.len() implies v(#[trigger] ys[i]) == v(xs[i]) + v(attn[i])
            + v(fed[i]) by {
            assert(is_plus(h[i], fed[i], ys[i]));
            assert(v(h[i]) == v(xs[i]) + v(attn[i]));
        }
        assert(is_normed_rows(self.spec_ffn_norm(), h, n, width, normed) && is_fed_rows(
            self.spec_ffn(),
            normed,
            n,
            width,
            fed,
        ));
    }

    proof fn lemma_fed_nothing(&self, v: spec_fn(T) -> real, xs: Seq<T>, n: int, fed: Seq<T>, i: int)
        requires
            self.feeds_nothing(v),
            0 <= n,
            is_fed_rows(self.spec_ffn(), xs, n, self.spec_embed_dim() as int, fed),
            0 <= i < fed.len(),
        ensures
            v(fed[i]) == 0 as real,
    {
        let width = self.spec_embed_dim() as int;
        if width == 0 {
            assert(n * width == 0) by (nonlinear_arith)
                requires
                    width == 0,
            ;
        } else {
            let t = i / width;
            vstd::arithmetic::div_mod::lemma_fundamental_div_mod(i, width);
            assert(0 <= t < n) by (nonlinear_arith)
                requires
                    i == width * t + i % width,
                    0 <= i % width < width,
                    0 <= i < n * width,
            ;
            crate::rows::lemma_row_bounds(t, n, width);
            let row = crate::rows::row_of(fed, width, t);
            assert(width * t == t * width) by (nonlinear_arith);
            assert(row[i % width] == fed[i]);
            assert(self.spec_ffn().is_forward(crate::rows::row_of(xs, width, t), row));
        }
    }

    /// A block adds to its input: the output is the input plus what the
    /// attention layer makes of the normalized input plus what the feed-forward
    /// network makes of the normalized sum of both.
    pub proof fn blocks_add_to_their_input(
        &self,
        v: spec_fn(T) -> real,
        xs: Seq<T>,
        n: int,
        start_pos: int,
        ys: Seq<T>,
    )
        requires
            adds(v),
            self.is_forward(xs, n, start_pos, ys),
        ensures
            exists|normed: Seq<T>, attn: Seq<T>|
                {
                    &&& #[trigger] is_normed_rows(
                        self.spec_attn_norm(),
                        xs,
                        n,
                        self.spec_embed_dim() as int,
                        normed,
                    )
                    &&& #[trigger] self.spec_attention().is_forward(normed, n, start_pos, attn)
                    &&& self.is_stream(v, xs, n, attn, ys)
                },
    {
        let (normed, attn) = choose|normed: Seq<T>, attn: Seq<T>|
            {
                &&& #[trigger] self.is_attention_input(xs, n, normed)
                &&& #[trigger] self.spec_attention().is_forward(normed, n, start_pos, attn)
                &&& self.is_completed(xs, n, attn, ys)
            };
        self.lemma_stream(v, xs, n, attn, ys);
        assert(is_normed_rows(
            self.spec_attn_norm(),
            xs,
            n,
            self.spec_embed_dim() as int,
            normed,
        ));
    }

    /// The residual stream carries the input through: where the attention layer
    /// and the feed-forward network return zeros, the output is the input.
    pub proof fn silent_parts_pass_the_input_on(
        &self,
        v: spec_fn(T) -> real,
        xs: Seq<T>,
        n: int,
        start_pos: int,
        ys: Seq<T>,
    )
        requires
            adds(v),
            0 <= n,
            xs.len() == n * self.spec_embed_dim(),
            self.attends_to_nothing(v, n, start_pos),
            self.feeds_nothing(v),
            self.is_forward(xs, n, start_pos, ys),
        ensures
            ys.len() == xs.len(),
            forall|i: int| 0 <= i < xs.len() ==> v(#[trigger] ys[i]) == v(xs[i]),
    {
        let width = self.spec_embed_dim() as int;
        self.blocks_add_to_their_input(v, xs, n, start_pos, ys);
        let (normed, attn) = choose|normed: Seq<T>, attn: Seq<T>|
            {
                &&& #[trigger] is_normed_rows(self.spec_attn_norm(), xs, n, width, normed)
                &&& #[trigger] self.spec_attention().is_forward(normed, n, start_pos, attn)
                &&& self.is_stream(v, xs, n, attn, ys)
            };
        assert(attn.len() == n * width) by {
            let none = Seq::<T>::empty();
            let (k, w) = choose|k: Seq<T>, w: Seq<T>| #[trigger]
                self.spec_attention().is_step(none, none, 0, normed, n, start_pos, k, w, attn);
        }
        let (h, normed2, fed) = choose|h: Seq<T>, normed2: Seq<T>, fed: Seq<T>|
            {
                &&& #[trigger] is_normed_rows(self.spec_ffn_norm(), h, n, width, normed2)
                &&& #[trigger] is_fed_rows(self.spec_ffn(), normed2, n, width, fed)
                &&& h.len() == xs.len()
                &&& ys.len() == xs.len()
                &&& forall|i: int|
                    0 <= i < xs.len() ==> v(#[trigger] h[i]) == v(xs[i]) + v(attn[i])
                &&& forall|i: int|
                    0 <= i < xs.len() ==> v(#[trigger] ys[i]) == v(xs[i]) + v(attn[i]) + v(fed[i])
            };
        assert forall|i: int| 0 <= i < xs.len() implies v(#[trigger] ys[i]) == v(xs[i]) by {
            assert(v(attn[i]) == 0 as real);
            self.lemma_fed_nothing(v, normed2, n, fed, i);
        }
    }

    /// The same of a pass with a cache.
    pub proof fn silent_parts_pass_new_tokens_on(
        &self,
        v: spec_fn(T) -> real,
        before: &KvCache<T>,
        xs: Seq<T>,
        n: int,
        after: &KvCache<T>,
        ys: Seq<T>,
    )
        requires
            adds(v),
            0 <= n,
            xs.len() == n * self.spec_embed_dim(),
            forall|a: Seq<T>, b: Seq<T>, i: int| #[trigger]
                self.spec_attention().is_cached_forward(before, a, n, after, b) && 0 <= i < b.len()
                    ==> v(#[trigger] b[i]) == 0 as real,
            self.feeds_nothing(v),
            self.is_cached_forward(before, xs, n, after, ys),
        ensures
            ys.len() == xs.len(),
            forall|i: int| 0 <= i < xs.len() ==> v(#[trigger] ys[i]) == v(xs[i]),
    {
        let width = self.spec_embed_dim() as int;
        let (normed, attn) = choose|normed: Seq<T>, attn: Seq<T>|
            {
                &&& #[trigger] self.is_attention_input(xs, n, normed)
                &&& #[trigger] self.spec_attention().is_cached_forward(
                    before,
                    normed,
                    n,
                    after,
                    attn,
                )
                &&& self.is_completed(xs, n, attn, ys)
            };
        self.lemma_stream(v, xs, n, attn, ys);
        let (h, normed2, fed) = choose|h: Seq<T>, normed2: Seq<T>, fed: Seq<T>|
            {
                &&& #[trigger] is_normed_rows(self.spec_ffn_norm(), h, n, width, normed2)
                &&& #[trigger] is_fed_rows(self.spec_ffn(), normed2, n, width, fed)
                &&& h.len() == xs.len()
                &&& ys.len() == xs.len()
                &&& forall|i: int|
                    0 <= i < xs.len() ==> v(#[trigger] h[i]) == v(xs[i]) + v(attn[i])
                &&& forall|i: int|
                    0 <= i < xs.len() ==> v(#[trigger] ys[i]) == v(xs[i]) + v(attn[i]) + v(fed[i])
            };
        assert(attn.len() == n * width) by {
            let past = before.spec_len() as int;
            let (k, w) = choose|k: Seq<T>, w: Seq<T>|
                {
                    &&& #[trigger] self.spec_attention().is_step(
                        before.spec_keys(),
                        before.spec_values(),
                        past,
                        normed,
                        n,
                        past,
                        k,
                        w,
                        attn,
                    )
                    &&& after.spec_keys() == before.spec_keys() + k
                    &&& after.spec_values() == before.spec_values() + w
                    &&& after.spec_len() == before.spec_len() + n
                };
        }
        assert forall|i: int| 0 <= i < xs.len() implies v(#[trigger] ys[i]) == v(xs[i]) by {
            assert(v(attn[i]) == 0 as real);
            self.lemma_fed_nothing(v, normed2, n, fed, i);
        }
    }

    /// The attention layer sees its input under the first norm: with a network
    /// that returns zeros, the second norm makes no difference.
    pub proof fn attention_ignores_the_second_norm(
        &self,
        other: &TransformerBlock<T>,
        v: spec_fn(T) -> real,
        xs: Seq<T>,
        n: int,
        start_pos: int,
        ys: Seq<T>,
        zs: Seq<T>,
    )
        requires
            is_functional::<T>(),
            adds(v),
            0 <= n,
            self.wf(),
            xs.len() == n * self.spec_embed_dim(),
            other.spec_attn_norm() == self.spec_attn_norm(),
            other.spec_attention() == self.spec_attention(),
            self.feeds_nothing(v),
            other.feeds_nothing(v),
            self.is_forward(xs, n, start_pos, ys),
            other.is_forward(xs, n, start_pos, zs),
        ensures
            forall|i: int| 0 <= i < xs.len() ==> v(#[trigger] ys[i]) == v(zs[i]),
    {
        let width = self.spec_embed_dim() as int;
        self.blocks_add_to_their_input(v, xs, n, start_pos, ys);
        other.blocks_add_to_their_input(v, xs, n, start_pos, zs);
        let (normed1, attn1) = choose|normed: Seq<T>, attn: Seq<T>|
            {
                &&& #[trigger] is_normed_rows(self.spec_attn_norm(), xs, n, width, normed)
                &&& #[trigger] self.spec_attention().is_forward(normed, n, start_pos, attn)
                &&& self.is_stream(v, xs, n, attn, ys)
            };
        let (normed2, attn2) = choose|normed: Seq<T>, attn: Seq<T>|
            {
                &&& #[trigger] is_normed_rows(other.spec_attn_norm(), xs, n, width, normed)
                &&& #[trigger] other.spec_attention().is_forward(normed, n, start_pos, attn)
                &&& other.is_stream(v, xs, n, attn, zs)
            };
        lemma_normed_rows(self.spec_attn_norm(), xs, n, width, normed1, normed2);
        self.spec_attention().forward_is_unique(normed1, n, start_pos, attn1, attn2);
        self.lemma_silent_stream(v, xs, n, attn1, ys);
        other.lemma_silent_stream(v, xs, n, attn2, zs);
        assert forall|i: int| 0 <= i < xs.len() implies v(#[trigger] ys[i]) == v(zs[i]) by {
            assert(v(zs[i]) == v(xs[i]) + v(attn2[i]));
        }
    }

    proof fn lemma_silent_stream(
        &self,
        v: spec_fn(T) -> real,
        xs: Seq<T>,
        n: int,
        attn: Seq<T>,
        ys: Seq<T>,
    )
        requires
            0 <= n,
            xs.len() == n * self.spec_embed_dim(),
            self.feeds_nothing(v),
            self.is_stream(v, xs, n, attn, ys),
        ensures
            forall|i: int| 0 <= i < xs.len() ==> v(#[trigger] ys[i]) == v(xs[i]) + v(attn[i]),
    {
        let width = self.spec_embed_dim() as int;
        let (h, normed, fed) = choose|h: Seq<T>, normed: Seq<T>, fed: Seq<T>|
            {
                &&& #[trigger] is_normed_rows(self.spec_ffn_norm(), h, n, width, normed)
                &&& #[trigger] is_fed_rows(self.spec_ffn(), normed, n, width, fed)
                &&& h.len() == xs.len()
                &&& ys.len() == xs.len()
                &&& forall|i: int|
                    0 <= i < xs.len() ==> v(#[trigger] h[i]) == v(xs[i]) + v(attn[i])
                &&& forall|i: int|
                    0 <= i < xs.len() ==> v(#[trigger] ys[i]) == v(xs[i]) + v(attn[i]) + v(fed[i])
            };
        assert forall|i: int| 0 <= i < xs.len() implies v(#[trigger] ys[i]) == v(xs[i]) + v(
            attn[i],
        ) by {
            self.lemma_fed_nothing(v, normed, n, fed, i);
        }
    }

    /// The feed-forward network sees its input under the second norm: with an
    /// attention layer that returns zeros, the first norm makes no difference.
    pub proof fn feeding_ignores_the_first_norm(
        &self,
        other: &TransformerBlock<T>,
        xs: Seq<T>,
        n: int,
        start_pos: int,
        ys: Seq<T>,
        zs: Seq<T>,
    )
        requires
            is_functional::<T>(),
            0 <= n,
            self.wf(),
            other.wf(),
            xs.len() == n * self.spec_embed_dim(),
            other.spec_embed_dim() == self.spec_embed_dim(),
            other.spec_ffn_norm() == self.spec_ffn_norm(),
            other.spec_ffn() == self.spec_ffn(),
            forall|a: Seq<T>, b: Seq<T>, i: int| #[trigger]
                self.spec_attention().is_forward(a, n, start_pos, b) && 0 <= i < b.len() ==> is_zero(
                    #[trigger] b[i],
                ),
            forall|a: Seq<T>, b: Seq<T>, i: int| #[trigger]
                other.spec_attention().is_forward(a, n, start_pos, b) && 0 <= i < b.len()
                    ==> is_zero(#[trigger] b[i]),
            self.is_forward(xs, n, start_pos, ys),
            other.is_forward(xs, n, start_pos, zs),
        ensures
            ys == zs,
    {
        let width = self.spec_embed_dim() as int;
        let none = Seq::<T>::empty();
        let (normed1, attn1) = choose|normed: Seq<T>, attn: Seq<T>|
            {
                &&& #[trigger] self.is_attention_input(xs, n, normed)
                &&& #[trigger] self.spec_attention().is_forward(normed, n, start_pos, attn)
                &&& self.is_completed(xs, n, attn, ys)
            };
        let (normed2, attn2) = choose|normed: Seq<T>, attn: Seq<T>|
            {
                &&& #[trigger] other.is_attention_input(xs, n, normed)
                &&& #[trigger] other.spec_attention().is_forward(normed, n, start_pos, attn)
                &&& other.is_completed(xs, n, attn, zs)
            };
        assert(attn1.len() == n * width) by {
            let (k, w) = choose|k: Seq<T>, w: Seq<T>| #[trigger]
                self.spec_attention().is_step(none, none, 0, normed1, n, start_pos, k, w, attn1);
        }
        assert(attn2.len() == n * width) by {
            let (k, w) = choose|k: Seq<T>, w: Seq<T>| #[trigger]
                other.spec_attention().is_step(none, none, 0, normed2, n, start_pos, k, w, attn2);
        }
        assert forall|i: int| 0 <= i < attn1.len() implies attn1[i] == attn2[i] by {
            assert(is_zero(attn1[i]) && is_zero(attn2[i]));
        }
        assert(attn1 =~= attn2);
        let (h1, m1, fed1) = choose|h: Seq<T>, m: Seq<T>, fed: Seq<T>|
            {
                &&& #[trigger] is_sums(xs, attn1, h)
                &&& #[trigger] is_normed_rows(self.spec_ffn_norm(), h, n, width, m)
                &&& #[trigger] is_fed_rows(self.spec_ffn(), m, n, width, fed)
                &&& is_sums(h, fed, ys)
            };
        let (h2, m2, fed2) = choose|h: Seq<T>, m: Seq<T>, fed: Seq<T>|
            {
                &&& #[trigger] is_sums(xs, attn2, h)
                &&& #[trigger] is_normed_rows(other.spec_ffn_norm(), h, n, width, m)
                &&& #[trigger] is_fed_rows(other.spec_ffn(), m, n, width, fed)
                &&& is_sums(h, fed, zs)
            };
        lemma_sums(xs, attn1, h1, h2);
        lemma_normed_rows(self.spec_ffn_norm(), h1, n, width, m1, m2);
        lemma_fed_rows(self.spec_ffn(), m1, n, width, fed1, fed2);
        lemma_sums(h1, fed1, ys, zs);
    }
}

} // verus!
