//! Causality: what a pass gives for the first tokens of a sequence does not
//! depend on the tokens after them.

use crate::layers::attention::MultiHeadAttention;
use crate::layers::model::TransformerModel;
use crate::layers::rmsnorm::RmsNorm;
use crate::layers::swiglu::SwiGLU;
use crate::layers::transformer::{TransformerBlock, is_fed_rows, is_normed_rows};
use crate::numeric::{Real, is_functional, is_sums};
use crate::rows::{lemma_take_rows, row_of};
use vstd::prelude::*;

verus! {

proof fn lemma_beginning_is_shorter(m: int, n: int, width: int)
    requires
        0 <= m <= n,
        0 <= width,
    ensures
        0 <= m * width <= n * width,
{
    assert(0 <= m * width <= n * width) by (nonlinear_arith)
        requires
            0 <= m <= n,
            0 <= width,
    ;
}

proof fn lemma_normed_beginning<T: Real>(
    norm: RmsNorm<T>,
    xs: Seq<T>,
    n: int,
    m: int,
    width: int,
    ys: Seq<T>,
)
    requires
        0 <= m <= n,
        0 <= width,
        xs.len() == n * width,
        is_normed_rows(norm, xs, n, width, ys),
    ensures
        is_normed_rows(norm, xs.take(m * width), m, width, ys.take(m * width)),
{
    lemma_beginning_is_shorter(m, n, width);
    assert forall|t: int| 0 <= t < m implies norm.is_forward(
        row_of(xs.take(m * width), width, t),
        #[trigger] row_of(ys.take(m * width), width, t),
    ) by {
        lemma_take_rows(xs, width, m, t);
        lemma_take_rows(ys, width, m, t);
        assert(norm.is_forward(row_of(xs, width, t), row_of(ys, width, t)));
    }
}

proof fn lemma_fed_beginning<T: Real>(
    ffn: SwiGLU<T>,
    xs: Seq<T>,
    n: int,
    m: int,
    width: int,
    ys: Seq<T>,
)
    requires
        0 <= m <= n,
        0 <= width,
        xs.len() == n * width,
        is_fed_rows(ffn, xs, n, width, ys),
    ensures
        is_fed_rows(ffn, xs.take(m * width), m, width, ys.take(m * width)),
{
    lemma_beginning_is_shorter(m, n, width);
    assert forall|t: int| 0 <= t < m implies ffn.is_forward(
        row_of(xs.take(m * width), width, t),
        #[trigger] row_of(ys.take(m * width), width, t),
    ) by {
        lemma_take_rows(xs, width, m, t);
        lemma_take_rows(ys, width, m, t);
        assert(ffn.is_forward(row_of(xs, width, t), row_of(ys, width, t)));
    }
}

impl<T: Real> MultiHeadAttention<T> {
    /// What an attention layer makes of the first `m` of `n` tokens is what it
    /// makes of them alone.
    pub proof fn beginnings_stand_alone(
        &self,
        xs: Seq<T>,
        n: int,
        m: int,
        start_pos: int,
        ys: Seq<T>,
    )
        requires
            self.wf(),
            0 <= m <= n,
            xs.len() == n * self.spec_embed_dim(),
            self.is_forward(xs, n, start_pos, ys),
        ensures
            ys.len() == xs.len(),
            ({
                let e = m * self.spec_embed_dim();
                self.is_forward(xs.take(e), m, start_pos, ys.take(e))
            }),
    {
        let (k, v) = choose|k: Seq<T>, v: Seq<T>| #[trigger]
            self.is_step(Seq::empty(), Seq::empty(), 0, xs, n, start_pos, k, v, ys);
        assert(0 * self.kv_dim() == 0);
        self.a_step_splits(Seq::empty(), Seq::empty(), 0, xs, n, m, start_pos, k, v, ys);
    }

    /// Over a number type whose operations are functions, an attention layer
    /// makes the same of `m` tokens whatever tokens come after them.
    pub proof fn later_tokens_change_nothing(
        &self,
        xs1: Seq<T>,
        n1: int,
        ys1: Seq<T>,
        xs2: Seq<T>,
        n2: int,
        ys2: Seq<T>,
        m: int,
        start_pos: int,
    )
        requires
            is_functional::<T>(),
            self.wf(),
            0 <= m <= n1,
            0 <= m <= n2,
            xs1.len() == n1 * self.spec_embed_dim(),
            xs2.len() == n2 * self.spec_embed_dim(),
            xs1.take(m * self.spec_embed_dim()) == xs2.take(m * self.spec_embed_dim()),
            self.is_forward(xs1, n1, start_pos, ys1),
            self.is_forward(xs2, n2, start_pos, ys2),
        ensures
            ys1.take(m * self.spec_embed_dim()) == ys2.take(m * self.spec_embed_dim()),
    {
        let e = m * self.spec_embed_dim();
        self.beginnings_stand_alone(xs1, n1, m, start_pos, ys1);
        self.beginnings_stand_alone(xs2, n2, m, start_pos, ys2);
        self.forward_is_unique(xs1.take(e), m, start_pos, ys1.take(e), ys2.take(e));
    }
}

impl<T: Real> TransformerBlock<T> {
    proof fn lemma_completed_beginning(&self, xs: Seq<T>, n: int, m: int, attn: Seq<T>, ys: Seq<T>)
        requires
            0 <= m <= n,
            xs.len() == n * self.spec_embed_dim(),
            attn.len() == n * self.spec_embed_dim(),
            self.is_completed(xs, n, attn, ys),
        ensures
            ys.len() == xs.len(),
            ({
                let e = m * self.spec_embed_dim();
                self.is_completed(xs.take(e), m, attn.take(e), ys.take(e))
            }),
    {
        let width = self.spec_embed_dim() as int;
        let e = m * width;
        lemma_beginning_is_shorter(m, n, width);
        let (h, normed, fed) = choose|h: Seq<T>, normed: Seq<T>, fed: Seq<T>|
            {
                &&& #[trigger] is_sums(xs, attn, h)
                &&& #[trigger] is_normed_rows(self.spec_ffn_norm(), h, n, width, normed)
                &&& #[trigger] is_fed_rows(self.spec_ffn(), normed, n, width, fed)
                &&& is_sums(h, fed, ys)
            };
        lemma_normed_beginning(self.spec_ffn_norm(), h, n, m, width, normed);
        lemma_fed_beginning(self.spec_ffn(), normed, n, m, width, fed);
        assert(is_sums(xs.take(e), attn.take(e), h.take(e)));
        assert(is_sums(h.take(e), fed.take(e), ys.take(e)));
    }

    /// What a block makes of the first `m` of `n` tokens is what it makes of
    /// them alone.
    pub proof fn beginnings_stand_alone(
        &self,
        xs: Seq<T>,
        n: int,
        m: int,
        start_pos: int,
        ys: Seq<T>,
    )
        requires
            self.wf(),
            0 <= m <= n,
            xs.len() == n * self.spec_embed_dim(),
            self.is_forward(xs, n, start_pos, ys),
        ensures
            ys.len() == xs.len(),
            ({
                let e = m * self.spec_embed_dim();
                self.is_forward(xs.take(e), m, start_pos, ys.take(e))
            }),
    {
        let attention = self.spec_attention();
        let width = self.spec_embed_dim() as int;
        let e = m * width;
        let (normed, attn) = choose|normed: Seq<T>, attn: Seq<T>|
            {
                &&& #[trigger] self.is_attention_input(xs, n, normed)
                &&& #[trigger] attention.is_forward(normed, n, start_pos, attn)
                &&& self.is_completed(xs, n, attn, ys)
            };
        attention.beginnings_stand_alone(normed, n, m, start_pos, attn);
        lemma_normed_beginning(self.spec_attn_norm(), xs, n, m, width, normed);
        assert(self.is_attention_input(xs.take(e), m, normed.take(e)));
        self.lemma_completed_beginning(xs, n, m, attn, ys);
    }
}

impl<T: Real> TransformerModel<T> {
    proof fn lemma_stack_beginning(&self, n: int, m: int, start_pos: int, hs: Seq<Seq<T>>, i: int)
        requires
            self.wf(),
            0 <= m <= n,
            self.is_stack(n, start_pos, hs),
            hs[0].len() == n * self.spec_embed_dim(),
            0 <= i <= self.spec_blocks().len(),
        ensures
            hs[i].len() == n * self.spec_embed_dim(),
            ({
                let e = m * self.spec_embed_dim();
                forall|j: int|
                    0 <= j < i ==> (#[trigger] self.spec_blocks()[j]).is_forward(
                        hs[j].take(e),
                        m,
                        start_pos,
                        hs[j + 1].take(e),
                    )
            }),
        decreases i,
    {
        if i > 0 {
            self.lemma_stack_beginning(n, m, start_pos, hs, i - 1);
            let block = self.spec_blocks()[i - 1];
            assert(block.wf() && block.spec_embed_dim() == self.spec_embed_dim());
            assert(block.is_forward(hs[i - 1], n, start_pos, hs[i]));
            block.beginnings_stand_alone(hs[i - 1], n, m, start_pos, hs[i]);
        }
    }

    proof fn lemma_logits_beginning(&self, xs: Seq<T>, n: int, m: int, ls: Seq<T>)
        requires
            0 <= m <= n,
            xs.len() == n * self.spec_embed_dim(),
            self.is_logits(xs, n, ls),
        ensures
            self.is_logits(
                xs.take(m * self.spec_embed_dim()),
                m,
                ls.take(m * self.spec_vocab_size()),
            ),
    {
        let width = self.spec_embed_dim() as int;
        let vocab = self.spec_vocab_size() as int;
        let norm = self.spec_final_norm();
        let normed = choose|normed: Seq<T>|
            {
                &&& #[trigger] is_normed_rows(norm, xs, n, width, normed)
                &&& ls.len() == n * vocab
                &&& forall|t: int|
                    0 <= t < n ==> self.is_token_scores(
                        row_of(normed, width, t),
                        #[trigger] row_of(ls, vocab, t),
                    )
            };
        lemma_beginning_is_shorter(m, n, width);
        lemma_beginning_is_shorter(m, n, vocab);
        lemma_normed_beginning(norm, xs, n, m, width, normed);
        assert forall|t: int| 0 <= t < m implies self.is_token_scores(
            row_of(normed.take(m * width), width, t),
            #[trigger] row_of(ls.take(m * vocab), vocab, t),
        ) by {
            lemma_take_rows(normed, width, m, t);
            lemma_take_rows(ls, vocab, m, t);
            assert(self.is_token_scores(row_of(normed, width, t), row_of(ls, vocab, t)));
        }
    }

    /// The scores of the first `m` tokens of a sequence are scores of these
    /// tokens alone.
    pub proof fn beginnings_stand_alone(&self, tokens: Seq<u32>, m: int, start_pos: int, ls: Seq<T>)
        requires
            self.wf(),
            0 <= m <= tokens.len(),
            self.is_forward(tokens, start_pos, ls),
        ensures
            self.is_forward(tokens.take(m), start_pos, ls.take(m * self.spec_vocab_size())),
    {
        let n = tokens.len() as int;
        let k = self.spec_blocks().len() as int;
        let width = self.spec_embed_dim() as int;
        let e = m * width;
        let hs = choose|hs: Seq<Seq<T>>|
            {
                &&& #[trigger] self.is_stack(n, start_pos, hs)
                &&& self.is_embedded(tokens, hs[0])
                &&& self.is_logits(hs[k], n, ls)
            };
        lemma_beginning_is_shorter(m, n, width);
        self.lemma_stack_beginning(n, m, start_pos, hs, k);
        let firsts = Seq::new((k + 1) as nat, |i: int| hs[i].take(e));
        assert forall|i: int| 0 <= i < k implies (#[trigger] self.spec_blocks()[i]).is_forward(
            firsts[i],
            m,
            start_pos,
            firsts[i + 1],
        ) by {
            assert(firsts[i] == hs[i].take(e));
            assert(firsts[i + 1] == hs[i + 1].take(e));
        }
        assert(self.is_stack(m, start_pos, firsts));
        assert forall|t: int| 0 <= t < m implies #[trigger] row_of(firsts[0], width, t) == row_of(
            self.spec_embedding().spec_data(),
            width,
            tokens.take(m)[t] as int,
        ) by {
            lemma_take_rows(hs[0], width, m, t);
            assert(row_of(hs[0], width, t) == row_of(
                self.spec_embedding().spec_data(),
                width,
                tokens[t] as int,
            ));
        }
        assert(self.is_embedded(tokens.take(m), firsts[0]));
        self.lemma_logits_beginning(hs[k], n, m, ls);
        assert(tokens.take(m).len() == m);
    }

    /// Over a number type whose operations are functions, two sequences that
    /// begin with the same `m` tokens have the same scores there: later tokens
    /// change nothing.
    pub proof fn later_tokens_change_nothing(
        &self,
        tokens1: Seq<u32>,
        ls1: Seq<T>,
        tokens2: Seq<u32>,
        ls2: Seq<T>,
        m: int,
        start_pos: int,
    )
        requires
            is_functional::<T>(),
            self.wf(),
            0 <= m <= tokens1.len(),
            0 <= m <= tokens2.len(),
            tokens1.take(m) == tokens2.take(m),
            self.is_forward(tokens1, start_pos, ls1),
            self.is_forward(tokens2, start_pos, ls2),
        ensures
            ls1.take(m * self.spec_vocab_size()) == ls2.take(m * self.spec_vocab_size()),
    {
        self.beginnings_stand_alone(tokens1, m, start_pos, ls1);
        self.beginnings_stand_alone(tokens2, m, start_pos, ls2);
        self.forward_is_unique(
            tokens1.take(m),
            start_pos,
            ls1.take(m * self.spec_vocab_size()),
            ls2.take(m * self.spec_vocab_size()),
        );
    }
}

} // verus!
