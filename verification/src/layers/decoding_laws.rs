//! Decoding token by token: what passes with a cache have to do with one pass
//! over everything.

use crate::layers::attention::MultiHeadAttention;
use crate::layers::attention_laws::{AttentionStep, scale_is_fixed};
use crate::layers::determinism::scales_of_functions_are_fixed;
use crate::layers::kv_cache::KvCache;
use crate::layers::model::TransformerModel;
use crate::layers::rmsnorm::RmsNorm;
use crate::layers::swiglu::SwiGLU;
use crate::layers::transformer::{TransformerBlock, is_fed_rows, is_normed_rows};
use crate::numeric::{Real, is_functional, is_sums};
use crate::rows::{lemma_add_rows, row_of};
use vstd::prelude::*;

verus! {

proof fn lemma_normed_rows_join<T: Real>(
    norm: RmsNorm<T>,
    xs1: Seq<T>,
    xs2: Seq<T>,
    m: int,
    n: int,
    width: int,
    ys1: Seq<T>,
    ys2: Seq<T>,
)
    requires
        0 <= m,
        0 <= n,
        0 <= width,
        xs1.len() == m * width,
        xs2.len() == n * width,
        is_normed_rows(norm, xs1, m, width, ys1),
        is_normed_rows(norm, xs2, n, width, ys2),
    ensures
        is_normed_rows(norm, xs1 + xs2, m + n, width, ys1 + ys2),
{
    assert((m + n) * width == m * width + n * width) by (nonlinear_arith);
    assert forall|t: int| 0 <= t < m + n implies norm.is_forward(
        row_of(xs1 + xs2, width, t),
        #[trigger] row_of(ys1 + ys2, width, t),
    ) by {
        lemma_add_rows(xs1, xs2, width, m, n, t);
        lemma_add_rows(ys1, ys2, width, m, n, t);
        if t < m {
            assert(norm.is_forward(row_of(xs1, width, t), row_of(ys1, width, t)));
        } else {
            assert(norm.is_forward(row_of(xs2, width, t - m), row_of(ys2, width, t - m)));
        }
    }
}

proof fn lemma_fed_rows_join<T: Real>(
    ffn: SwiGLU<T>,
    xs1: Seq<T>,
    xs2: Seq<T>,
    m: int,
    n: int,
    width: int,
    ys1: Seq<T>,
    ys2: Seq<T>,
)
    requires
        0 <= m,
        0 <= n,
        0 <= width,
        xs1.len() == m * width,
        xs2.len() == n * width,
        is_fed_rows(ffn, xs1, m, width, ys1),
        is_fed_rows(ffn, xs2, n, width, ys2),
    ensures
        is_fed_rows(ffn, xs1 + xs2, m + n, width, ys1 + ys2),
{
    assert((m + n) * width == m * width + n * width) by (nonlinear_arith);
    assert forall|t: int| 0 <= t < m + n implies ffn.is_forward(
        row_of(xs1 + xs2, width, t),
        #[trigger] row_of(ys1 + ys2, width, t),
    ) by {
        lemma_add_rows(xs1, xs2, width, m, n, t);
        lemma_add_rows(ys1, ys2, width, m, n, t);
        if t < m {
            assert(ffn.is_forward(row_of(xs1, width, t), row_of(ys1, width, t)));
        } else {
            assert(ffn.is_forward(row_of(xs2, width, t - m), row_of(ys2, width, t - m)));
        }
    }
}

impl<T: Real> MultiHeadAttention<T> {
    /// Two cached passes of an attention layer join into one.
    pub proof fn passes_join(
        &self,
        before: &KvCache<T>,
        xs1: Seq<T>,
        m: int,
        between: &KvCache<T>,
        ys1: Seq<T>,
        xs2: Seq<T>,
        n: int,
        after: &KvCache<T>,
        ys2: Seq<T>,
    )
        requires
            self.wf(),
            scale_is_fixed::<T>(self.spec_head_dim()),
            before.wf(),
            before.spec_kv_dim() == self.kv_dim(),
            0 <= m,
            0 <= n,
            xs1.len() == m * self.spec_embed_dim(),
            xs2.len() == n * self.spec_embed_dim(),
            self.is_cached_forward(before, xs1, m, between, ys1),
            self.is_cached_forward(between, xs2, n, after, ys2),
        ensures
            self.is_cached_forward(before, xs1 + xs2, m + n, after, ys1 + ys2),
            ys1.len() == m * self.spec_embed_dim(),
            ys2.len() == n * self.spec_embed_dim(),
    {
        let past = before.spec_len() as int;
        let (k1, v1) = choose|k: Seq<T>, v: Seq<T>|
            {
                &&& #[trigger] self.is_step(
                    before.spec_keys(),
                    before.spec_values(),
                    past,
                    xs1,
                    m,
                    past,
                    k,
                    v,
                    ys1,
                )
                &&& between.spec_keys() == before.spec_keys() + k
                &&& between.spec_values() == before.spec_values() + v
                &&& between.spec_len() == before.spec_len() + m
            };
        let (k2, v2) = choose|k: Seq<T>, v: Seq<T>|
            {
                &&& #[trigger] self.is_step(
                    between.spec_keys(),
                    between.spec_values(),
                    between.spec_len() as int,
                    xs2,
                    n,
                    between.spec_len() as int,
                    k,
                    v,
                    ys2,
                )
                &&& after.spec_keys() == between.spec_keys() + k
                &&& after.spec_values() == between.spec_values() + v
                &&& after.spec_len() == between.spec_len() + n
            };
        before.cache_facts();
        self.steps_join(
            before.spec_keys(),
            before.spec_values(),
            past,
            past,
            AttentionStep { n: m, xs: xs1, k: k1, v: v1, ys: ys1 },
            AttentionStep { n, xs: xs2, k: k2, v: v2, ys: ys2 },
        );
        assert(after.spec_keys() =~= before.spec_keys() + (k1 + k2));
        assert(after.spec_values() =~= before.spec_values() + (v1 + v2));
        assert(self.is_cached_forward(
            before,
            xs1 + xs2,
            m + n,
            after,
            ys1 + ys2,
        ));
    }

    /// Over a number type whose operations are functions, two cached passes
    /// from an empty cache give what one plain pass over all tokens gives,
    /// number for number, and leave a cache that holds all of them.
    pub proof fn cached_passes_are_one_plain_pass(
        &self,
        before: &KvCache<T>,
        xs1: Seq<T>,
        m: int,
        between: &KvCache<T>,
        ys1: Seq<T>,
        xs2: Seq<T>,
        n: int,
        after: &KvCache<T>,
        ys2: Seq<T>,
        plain: Seq<T>,
    )
        requires
            is_functional::<T>(),
            self.wf(),
            self.fits_cache(before, m + n),
            before.spec_len() == 0,
            0 <= m,
            0 <= n,
            xs1.len() == m * self.spec_embed_dim(),
            xs2.len() == n * self.spec_embed_dim(),
            self.is_cached_forward(before, xs1, m, between, ys1),
            self.is_cached_forward(between, xs2, n, after, ys2),
            self.is_forward(xs1 + xs2, m + n, 0, plain),
        ensures
            plain == ys1 + ys2,
            after.spec_len() == m + n,
    {
        scales_of_functions_are_fixed::<T>(self.spec_head_dim());
        self.passes_join(before, xs1, m, between, ys1, xs2, n, after, ys2);
        self.prefill_is_forward(before, xs1 + xs2, m + n, after, ys1 + ys2);
        self.forward_is_unique(xs1 + xs2, m + n, 0, plain, ys1 + ys2);
    }
}

impl<T: Real> TransformerBlock<T> {
    proof fn lemma_completed_join(
        &self,
        xs1: Seq<T>,
        xs2: Seq<T>,
        m: int,
        n: int,
        attn1: Seq<T>,
        attn2: Seq<T>,
        ys1: Seq<T>,
        ys2: Seq<T>,
    )
        requires
            0 <= m,
            0 <= n,
            xs1.len() == m * self.spec_embed_dim(),
            xs2.len() == n * self.spec_embed_dim(),
            attn1.len() == m * self.spec_embed_dim(),
            attn2.len() == n * self.spec_embed_dim(),
            self.is_completed(xs1, m, attn1, ys1),
            self.is_completed(xs2, n, attn2, ys2),
        ensures
            self.is_completed(xs1 + xs2, m + n, attn1 + attn2, ys1 + ys2),
            ys1.len() == m * self.spec_embed_dim(),
            ys2.len() == n * self.spec_embed_dim(),
    {
        let width = self.spec_embed_dim() as int;
        let (h1, normed1, fed1) = choose|h: Seq<T>, normed: Seq<T>, fed: Seq<T>|
            {
                &&& #[trigger] is_sums(xs1, attn1, h)
                &&& #[trigger] is_normed_rows(self.spec_ffn_norm(), h, m, width, normed)
                &&& #[trigger] is_fed_rows(self.spec_ffn(), normed, m, width, fed)
                &&& is_sums(h, fed, ys1)
            };
        let (h2, normed2, fed2) = choose|h: Seq<T>, normed: Seq<T>, fed: Seq<T>|
            {
                &&& #[trigger] is_sums(xs2, attn2, h)
                &&& #[trigger] is_normed_rows(self.spec_ffn_norm(), h, n, width, normed)
                &&& #[trigger] is_fed_rows(self.spec_ffn(), normed, n, width, fed)
                &&& is_sums(h, fed, ys2)
            };
        lemma_normed_rows_join(self.spec_ffn_norm(), h1, h2, m, n, width, normed1, normed2);
        lemma_fed_rows_join(self.spec_ffn(), normed1, normed2, m, n, width, fed1, fed2);
        assert(is_sums(xs1 + xs2, attn1 + attn2, h1 + h2));
        assert(is_sums(h1 + h2, fed1 + fed2, ys1 + ys2));
    }

    /// Two passes of a block join into one.
    pub proof fn passes_join(
        &self,
        before: &KvCache<T>,
        xs1: Seq<T>,
        m: int,
        between: &KvCache<T>,
        ys1: Seq<T>,
        xs2: Seq<T>,
        n: int,
        after: &KvCache<T>,
        ys2: Seq<T>,
    )
        requires
            self.wf(),
            scale_is_fixed::<T>(self.spec_attention().spec_head_dim()),
            before.wf(),
            before.spec_kv_dim() == self.spec_attention().kv_dim(),
            0 <= m,
            0 <= n,
            xs1.len() == m * self.spec_embed_dim(),
            xs2.len() == n * self.spec_embed_dim(),
            self.is_cached_forward(before, xs1, m, between, ys1),
            self.is_cached_forward(between, xs2, n, after, ys2),
        ensures
            self.is_cached_forward(before, xs1 + xs2, m + n, after, ys1 + ys2),
            ys1.len() == m * self.spec_embed_dim(),
            ys2.len() == n * self.spec_embed_dim(),
    {
        let attention = self.spec_attention();
        let width = self.spec_embed_dim() as int;
        let (normed1, attn1) = choose|normed: Seq<T>, attn: Seq<T>|
            {
                &&& #[trigger] self.is_attention_input(xs1, m, normed)
                &&& #[trigger] attention.is_cached_forward(before, normed, m, between, attn)
                &&& self.is_completed(xs1, m, attn, ys1)
            };
        let (normed2, attn2) = choose|normed: Seq<T>, attn: Seq<T>|
            {
                &&& #[trigger] self.is_attention_input(xs2, n, normed)
                &&& #[trigger] attention.is_cached_forward(between, normed, n, after, attn)
                &&& self.is_completed(xs2, n, attn, ys2)
            };
        attention.passes_join(before, normed1, m, between, attn1, normed2, n, after, attn2);
        lemma_normed_rows_join(self.spec_attn_norm(), xs1, xs2, m, n, width, normed1, normed2);
        assert(self.is_attention_input(xs1 + xs2, m + n, normed1 + normed2));
        self.lemma_completed_join(xs1, xs2, m, n, attn1, attn2, ys1, ys2);
    }
}

impl<T: Real> TransformerModel<T> {
    /// The number type computes the scale of scores in every block to one and
    /// the same number every time.
    pub open spec fn scales_are_fixed(&self) -> bool {
        forall|i: int|
            0 <= i < self.spec_blocks().len() ==> scale_is_fixed::<T>(
                (#[trigger] self.spec_blocks()[i]).spec_attention().spec_head_dim(),
            )
    }

    proof fn lemma_stacks_join(
        &self,
        before: Seq<KvCache<T>>,
        m: int,
        between: Seq<KvCache<T>>,
        hs1: Seq<Seq<T>>,
        n: int,
        after: Seq<KvCache<T>>,
        hs2: Seq<Seq<T>>,
        i: int,
    )
        requires
            self.wf(),
            self.scales_are_fixed(),
            self.fits_caches(before, m),
            0 <= m,
            0 <= n,
            self.is_cached_stack(m, before, between, hs1),
            self.is_cached_stack(n, between, after, hs2),
            hs1[0].len() == m * self.spec_embed_dim(),
            hs2[0].len() == n * self.spec_embed_dim(),
            0 <= i <= self.spec_blocks().len(),
        ensures
            hs1[i].len() == m * self.spec_embed_dim(),
            hs2[i].len() == n * self.spec_embed_dim(),
            forall|j: int|
                0 <= j < i ==> (#[trigger] self.spec_blocks()[j]).is_cached_forward(
                    &before[j],
                    hs1[j] + hs2[j],
                    m + n,
                    &after[j],
                    hs1[j + 1] + hs2[j + 1],
                ),
        decreases i,
    {
        if i > 0 {
            self.lemma_stacks_join(before, m, between, hs1, n, after, hs2, i - 1);
            let block = self.spec_blocks()[i - 1];
            assert(block.wf() && block.spec_embed_dim() == self.spec_embed_dim());
            assert(block.spec_attention().fits_cache(&before[i - 1], m));
            assert(block.is_cached_forward(&before[i - 1], hs1[i - 1], m, &between[i - 1], hs1[i]));
            assert(block.is_cached_forward(&between[i - 1], hs2[i - 1], n, &after[i - 1], hs2[i]));
            assert(scale_is_fixed::<T>(block.spec_attention().spec_head_dim()));
            block.passes_join(
                &before[i - 1],
                hs1[i - 1],
                m,
                &between[i - 1],
                hs1[i],
                hs2[i - 1],
                n,
                &after[i - 1],
                hs2[i],
            );
        }
    }

    proof fn lemma_embedded_join(
        &self,
        tokens1: Seq<u32>,
        tokens2: Seq<u32>,
        xs1: Seq<T>,
        xs2: Seq<T>,
    )
        requires
            self.is_embedded(tokens1, xs1),
            self.is_embedded(tokens2, xs2),
        ensures
            self.is_embedded(tokens1 + tokens2, xs1 + xs2),
    {
        let width = self.spec_embed_dim() as int;
        let m = tokens1.len() as int;
        let n = tokens2.len() as int;
        assert((m + n) * width == m * width + n * width) by (nonlinear_arith);
        let table = self.spec_embedding().spec_data();
        assert forall|t: int| 0 <= t < m + n implies #[trigger] row_of(xs1 + xs2, width, t)
            == row_of(table, width, (tokens1 + tokens2)[t] as int) by {
            lemma_add_rows(xs1, xs2, width, m, n, t);
            if t < m {
                assert(row_of(xs1, width, t) == row_of(table, width, tokens1[t] as int));
            } else {
                assert(row_of(xs2, width, t - m) == row_of(table, width, tokens2[t - m] as int));
            }
        }
    }

    proof fn lemma_logits_join(
        &self,
        xs1: Seq<T>,
        m: int,
        ls1: Seq<T>,
        xs2: Seq<T>,
        n: int,
        ls2: Seq<T>,
    )
        requires
            0 <= m,
            0 <= n,
            xs1.len() == m * self.spec_embed_dim(),
            xs2.len() == n * self.spec_embed_dim(),
            self.is_logits(xs1, m, ls1),
            self.is_logits(xs2, n, ls2),
        ensures
            self.is_logits(xs1 + xs2, m + n, ls1 + ls2),
    {
        let width = self.spec_embed_dim() as int;
        let vocab = self.spec_vocab_size() as int;
        let norm = self.spec_final_norm();
        let normed1 = choose|normed: Seq<T>|
            {
                &&& #[trigger] is_normed_rows(norm, xs1, m, width, normed)
                &&& ls1.len() == m * vocab
                &&& forall|t: int|
                    0 <= t < m ==> self.is_token_scores(
                        row_of(normed, width, t),
                        #[trigger] row_of(ls1, vocab, t),
                    )
            };
        let normed2 = choose|normed: Seq<T>|
            {
                &&& #[trigger] is_normed_rows(norm, xs2, n, width, normed)
                &&& ls2.len() == n * vocab
                &&& forall|t: int|
                    0 <= t < n ==> self.is_token_scores(
                        row_of(normed, width, t),
                        #[trigger] row_of(ls2, vocab, t),
                    )
            };
        lemma_normed_rows_join(norm, xs1, xs2, m, n, width, normed1, normed2);
        assert((m + n) * vocab == m * vocab + n * vocab) by (nonlinear_arith);
        assert forall|t: int| 0 <= t < m + n implies self.is_token_scores(
            row_of(normed1 + normed2, width, t),
            #[trigger] row_of(ls1 + ls2, vocab, t),
        ) by {
            lemma_add_rows(normed1, normed2, width, m, n, t);
            lemma_add_rows(ls1, ls2, vocab, m, n, t);
            if t < m {
                assert(self.is_token_scores(row_of(normed1, width, t), row_of(ls1, vocab, t)));
            } else {
                assert(self.is_token_scores(
                    row_of(normed2, width, t - m),
                    row_of(ls2, vocab, t - m),
                ));
            }
        }
    }

    /// Two cached passes join into one: scoring some tokens and then others
    /// with the grown caches gives the scores, and leaves the caches, of
    /// scoring all of them in one cached pass.
    pub proof fn passes_join(
        &self,
        before: Seq<KvCache<T>>,
        tokens1: Seq<u32>,
        between: Seq<KvCache<T>>,
        ls1: Seq<T>,
        tokens2: Seq<u32>,
        after: Seq<KvCache<T>>,
        ls2: Seq<T>,
    )
        requires
            self.wf(),
            self.scales_are_fixed(),
            self.fits_caches(before, tokens1.len() as int),
            self.is_cached_forward(before, tokens1, between, ls1),
            self.is_cached_forward(between, tokens2, after, ls2),
        ensures
            self.is_cached_forward(before, tokens1 + tokens2, after, ls1 + ls2),
    {
        let m = tokens1.len() as int;
        let n = tokens2.len() as int;
        let k = self.spec_blocks().len() as int;
        let hs1 = choose|hs: Seq<Seq<T>>|
            {
                &&& #[trigger] self.is_cached_stack(m, before, between, hs)
                &&& self.is_embedded(tokens1, hs[0])
                &&& self.is_logits(hs[k], m, ls1)
            };
        let hs2 = choose|hs: Seq<Seq<T>>|
            {
                &&& #[trigger] self.is_cached_stack(n, between, after, hs)
                &&& self.is_embedded(tokens2, hs[0])
                &&& self.is_logits(hs[k], n, ls2)
            };
        self.lemma_stacks_join(before, m, between, hs1, n, after, hs2, k);
        let hs = Seq::new((k + 1) as nat, |i: int| hs1[i] + hs2[i]);
        assert forall|i: int| 0 <= i < k implies (#[trigger] self.spec_blocks()[i]).is_cached_forward(
            &before[i],
            hs[i],
            m + n,
            &after[i],
            hs[i + 1],
        ) by {
            assert(hs[i] == hs1[i] + hs2[i]);
            assert(hs[i + 1] == hs1[i + 1] + hs2[i + 1]);
        }
        self.lemma_embedded_join(tokens1, tokens2, hs1[0], hs2[0]);
        self.lemma_logits_join(hs1[k], m, ls1, hs2[k], n, ls2);
        assert((tokens1 + tokens2).len() == m + n);
        assert(self.is_cached_stack(m + n, before, after, hs));
    }

    /// On empty caches, the cached pass computes what the plain pass computes
    /// from position zero.
    pub proof fn prefill_is_forward(
        &self,
        before: Seq<KvCache<T>>,
        tokens: Seq<u32>,
        after: Seq<KvCache<T>>,
        ls: Seq<T>,
    )
        requires
            forall|i: int|
                0 <= i < self.spec_blocks().len() ==> (#[trigger] before[i]).wf()
                    && before[i].spec_len() == 0,
            self.is_cached_forward(before, tokens, after, ls),
        ensures
            self.is_forward(tokens, 0, ls),
    {
        let n = tokens.len() as int;
        let k = self.spec_blocks().len() as int;
        let hs = choose|hs: Seq<Seq<T>>|
            {
                &&& #[trigger] self.is_cached_stack(n, before, after, hs)
                &&& self.is_embedded(tokens, hs[0])
                &&& self.is_logits(hs[k], n, ls)
            };
        assert forall|i: int| 0 <= i < k implies (#[trigger] self.spec_blocks()[i]).is_forward(
            hs[i],
            n,
            0,
            hs[i + 1],
        ) by {
            assert(before[i].wf());
            self.spec_blocks()[i].prefill_is_forward(&before[i], hs[i], n, &after[i], hs[i + 1]);
        }
        assert(self.is_stack(n, 0, hs));
    }

    /// Decoding with caches computes what a plain pass over everything
    /// computes: a prompt scored on empty caches and the tokens after it
    /// scored on the grown caches have the scores of one pass over both.
    pub proof fn decoding_is_forward(
        &self,
        before: Seq<KvCache<T>>,
        prompt: Seq<u32>,
        between: Seq<KvCache<T>>,
        ls1: Seq<T>,
        tokens: Seq<u32>,
        after: Seq<KvCache<T>>,
        ls2: Seq<T>,
    )
        requires
            self.wf(),
            self.scales_are_fixed(),
            self.fits_caches(before, prompt.len() as int),
            forall|i: int|
                0 <= i < self.spec_blocks().len() ==> (#[trigger] before[i]).wf()
                    && before[i].spec_len() == 0,
            self.is_cached_forward(before, prompt, between, ls1),
            self.is_cached_forward(between, tokens, after, ls2),
        ensures
            self.is_forward(prompt + tokens, 0, ls1 + ls2),
    {
        self.passes_join(before, prompt, between, ls1, tokens, after, ls2);
        self.prefill_is_forward(before, prompt + tokens, after, ls1 + ls2);
    }

    /// Over a number type whose operations are functions, the scores that
    /// decoding with caches gives are those of a plain pass over everything,
    /// number for number.
    pub proof fn cached_scores_are_plain_scores(
        &self,
        before: Seq<KvCache<T>>,
        prompt: Seq<u32>,
        between: Seq<KvCache<T>>,
        ls1: Seq<T>,
        tokens: Seq<u32>,
        after: Seq<KvCache<T>>,
        ls2: Seq<T>,
        plain: Seq<T>,
    )
        requires
            is_functional::<T>(),
            self.wf(),
            self.fits_caches(before, prompt.len() as int),
            forall|i: int|
                0 <= i < self.spec_blocks().len() ==> (#[trigger] before[i]).wf()
                    && before[i].spec_len() == 0,
            self.is_cached_forward(before, prompt, between, ls1),
            self.is_cached_forward(between, tokens, after, ls2),
            self.is_forward(prompt + tokens, 0, plain),
        ensures
            plain == ls1 + ls2,
    {
        assert forall|i: int| 0 <= i < self.spec_blocks().len() implies scale_is_fixed::<T>(
            (#[trigger] self.spec_blocks()[i]).spec_attention().spec_head_dim(),
        ) by {
            scales_of_functions_are_fixed::<T>(
                self.spec_blocks()[i].spec_attention().spec_head_dim(),
            );
        }
        self.decoding_is_forward(before, prompt, between, ls1, tokens, after, ls2);
        self.forward_is_unique(prompt + tokens, 0, plain, ls1 + ls2);
    }
}

} // verus!
