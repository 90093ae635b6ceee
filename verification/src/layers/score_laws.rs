//! How a model scores tokens, in exact arithmetic: inner products of the last
//! hidden vectors with the rows of one matrix.

use crate::exact::{
    adds, counts, inner, lemma_inner_add, lemma_inner_zero, lemma_products_total, lemma_sum_from,
    lemma_total_add, multiplies, sums_are_totals, total,
};
use crate::layers::model::{
    OutputProjection, TransformerModel, is_scores, is_unrolled_dot, is_unrolled_sum, lane,
};
use crate::layers::transformer::is_normed_rows;
use crate::numeric::{Real, is_plus, is_products, is_sum, is_sum_from};
use crate::rows::{lemma_row_bounds, row_of};
use crate::tensor::{Ternary, lemma_elements};
use vstd::prelude::*;

verus! {

proof fn lemma_lanes<T>(v: spec_fn(T) -> real, ps: Seq<T>, n: int)
    requires
        0 <= n,
        4 * n <= ps.len(),
    ensures
        total(v, ps.take(4 * n)) == total(v, lane(ps, n, 0)) + total(v, lane(ps, n, 1)) + total(
            v,
            lane(ps, n, 2),
        ) + total(v, lane(ps, n, 3)),
    decreases n,
{
    if n == 0 {
        assert(ps.take(0) =~= Seq::<T>::empty());
        assert(lane(ps, 0, 0) =~= Seq::<T>::empty());
        assert(lane(ps, 0, 1) =~= Seq::<T>::empty());
        assert(lane(ps, 0, 2) =~= Seq::<T>::empty());
        assert(lane(ps, 0, 3) =~= Seq::<T>::empty());
    } else {
        let m = n - 1;
        lemma_lanes(v, ps, m);
        let a = ps.take(4 * m);
        let four = seq![ps[4 * m], ps[4 * m + 1], ps[4 * m + 2], ps[4 * m + 3]];
        assert(ps.take(4 * n) =~= a + four);
        lemma_total_add(v, a, four);
        assert(total(v, four) == v(ps[4 * m]) + v(ps[4 * m + 1]) + v(ps[4 * m + 2]) + v(
            ps[4 * m + 3],
        )) by {
            reveal_with_fuel(total, 5);
            assert(four.drop_last() =~= seq![ps[4 * m], ps[4 * m + 1], ps[4 * m + 2]]);
            assert(four.drop_last().drop_last() =~= seq![ps[4 * m], ps[4 * m + 1]]);
            assert(four.drop_last().drop_last().drop_last() =~= seq![ps[4 * m]]);
            assert(four.drop_last().drop_last().drop_last().drop_last() =~= Seq::<T>::empty());
        }
        assert(lane(ps, n, 0).drop_last() =~= lane(ps, m, 0));
        assert(lane(ps, n, 1).drop_last() =~= lane(ps, m, 1));
        assert(lane(ps, n, 2).drop_last() =~= lane(ps, m, 2));
        assert(lane(ps, n, 3).drop_last() =~= lane(ps, m, 3));
    }
}

/// Summing in four lanes makes no difference: the result is the inner product.
pub proof fn unrolled_dots_are_inner_products<T: Real>(
    v: spec_fn(T) -> real,
    xs: Seq<T>,
    ys: Seq<T>,
    r: T,
)
    requires
        adds(v),
        multiplies(v),
        is_unrolled_dot(xs, ys, r),
    ensures
        v(r) == inner(v, xs, ys),
{
    let ps = choose|ps: Seq<T>| #[trigger] is_products(xs, ys, ps) && is_unrolled_sum(ps, r);
    let n = ps.len() as int / 4;
    let (s0, s1, s2, s3, t1, t2, t3) = choose|s0: T, s1: T, s2: T, s3: T, t1: T, t2: T, t3: T|
        {
            &&& is_sum(lane(ps, n, 0), s0)
            &&& is_sum(lane(ps, n, 1), s1)
            &&& is_sum(lane(ps, n, 2), s2)
            &&& is_sum(lane(ps, n, 3), s3)
            &&& #[trigger] is_plus(s0, s1, t1)
            &&& #[trigger] is_plus(t1, s2, t2)
            &&& #[trigger] is_plus(t2, s3, t3)
            &&& is_sum_from(t3, ps.skip(4 * n), r)
        };
    sums_are_totals(v, lane(ps, n, 0), s0);
    sums_are_totals(v, lane(ps, n, 1), s1);
    sums_are_totals(v, lane(ps, n, 2), s2);
    sums_are_totals(v, lane(ps, n, 3), s3);
    lemma_sum_from(v, t3, ps.skip(4 * n), r);
    lemma_lanes(v, ps, n);
    assert(ps =~= ps.take(4 * n) + ps.skip(4 * n));
    lemma_total_add(v, ps.take(4 * n), ps.skip(4 * n));
    lemma_products_total(v, xs, ys, ps);
}

impl<T: Real> TransformerModel<T> {
    /// The matrix whose rows score the vocabulary: the model's own output
    /// matrix, or the embedding table where it has none.
    pub open spec fn scoring_matrix(&self) -> Seq<T> {
        match self.spec_output_proj() {
            OutputProjection::Float(own) => own.spec_data(),
            _ => self.spec_embedding().spec_data(),
        }
    }

    /// `hidden` holds the vectors that come out of the last block, normalized,
    /// where the tokens' embeddings went into the first.
    pub open spec fn is_hidden(&self, tokens: Seq<u32>, start_pos: int, hidden: Seq<T>) -> bool {
        exists|hs: Seq<Seq<T>>|
            {
                &&& #[trigger] self.is_stack(tokens.len() as int, start_pos, hs)
                &&& self.is_embedded(tokens, hs[0])
                &&& is_normed_rows(
                    self.spec_final_norm(),
                    hs[self.spec_blocks().len() as int],
                    tokens.len() as int,
                    self.spec_embed_dim() as int,
                    hidden,
                )
            }
    }

    /// The score of an entry is the inner product of a token's hidden vector
    /// with the entry's row of the model's own output matrix; only a model
    /// without one takes the rows of the embedding table.
    pub proof fn scores_are_inner_products(
        &self,
        v: spec_fn(T) -> real,
        tokens: Seq<u32>,
        start_pos: int,
        ls: Seq<T>,
    )
        requires
            adds(v),
            multiplies(v),
            self.wf(),
            !(self.spec_output_proj() is Linear),
            self.is_forward(tokens, start_pos, ls),
        ensures
            ls.len() == tokens.len() * self.spec_vocab_size(),
            exists|hidden: Seq<T>|
                {
                    &&& #[trigger] self.is_hidden(tokens, start_pos, hidden)
                    &&& forall|t: int, u: int|
                        0 <= t < tokens.len() && 0 <= u < self.spec_vocab_size() ==> v(
                            #[trigger] ls[t * self.spec_vocab_size() + u],
                        ) == inner(
                            v,
                            row_of(hidden, self.spec_embed_dim() as int, t),
                            row_of(self.scoring_matrix(), self.spec_embed_dim() as int, u),
                        )
                },
    {
        let n = tokens.len() as int;
        let k = self.spec_blocks().len() as int;
        let width = self.spec_embed_dim() as int;
        let vocab = self.spec_vocab_size() as int;
        let hs = choose|hs: Seq<Seq<T>>|
            {
                &&& #[trigger] self.is_stack(n, start_pos, hs)
                &&& self.is_embedded(tokens, hs[0])
                &&& self.is_logits(hs[k], n, ls)
            };
        let normed = choose|normed: Seq<T>|
            {
                &&& #[trigger] is_normed_rows(self.spec_final_norm(), hs[k], n, width, normed)
                &&& ls.len() == n * vocab
                &&& forall|t: int|
                    0 <= t < n ==> self.is_token_scores(
                        row_of(normed, width, t),
                        #[trigger] row_of(ls, vocab, t),
                    )
            };
        assert(self.is_hidden(tokens, start_pos, normed));
        assert forall|t: int, u: int| 0 <= t < n && 0 <= u < vocab implies v(
            #[trigger] ls[t * self.spec_vocab_size() + u],
        ) == inner(v, row_of(normed, width, t), row_of(self.scoring_matrix(), width, u)) by {
            let h = row_of(normed, width, t);
            let row = row_of(ls, vocab, t);
            lemma_row_bounds(t, n, vocab);
            assert(self.is_token_scores(h, row));
            assert(is_scores(h, self.scoring_matrix(), width, row));
            assert(row[u] == ls[t * vocab + u]);
            assert(is_unrolled_dot(h, row_of(self.scoring_matrix(), width, u), row[u]));
            unrolled_dots_are_inner_products(v, h, row_of(self.scoring_matrix(), width, u), row[u]);
        }
    }

    /// Scores add up with rows: an entry whose row of the scoring matrix is the
    /// sum of two others has the sum of their scores.
    pub proof fn scores_add_up_with_rows(
        &self,
        v: spec_fn(T) -> real,
        tokens: Seq<u32>,
        start_pos: int,
        ls: Seq<T>,
        a: int,
        b: int,
        c: int,
    )
        requires
            adds(v),
            multiplies(v),
            self.wf(),
            !(self.spec_output_proj() is Linear),
            self.is_forward(tokens, start_pos, ls),
            0 <= a < self.spec_vocab_size(),
            0 <= b < self.spec_vocab_size(),
            0 <= c < self.spec_vocab_size(),
            forall|i: int|
                0 <= i < self.spec_embed_dim() ==> v(
                    #[trigger] row_of(self.scoring_matrix(), self.spec_embed_dim() as int, c)[i],
                ) == v(row_of(self.scoring_matrix(), self.spec_embed_dim() as int, a)[i]) + v(
                    row_of(self.scoring_matrix(), self.spec_embed_dim() as int, b)[i],
                ),
        ensures
            forall|t: int|
                0 <= t < tokens.len() ==> v(#[trigger] ls[t * self.spec_vocab_size() + c]) == v(
                    ls[t * self.spec_vocab_size() + a],
                ) + v(ls[t * self.spec_vocab_size() + b]),
    {
        let width = self.spec_embed_dim() as int;
        let vocab = self.spec_vocab_size() as int;
        let matrix = self.scoring_matrix();
        self.scores_are_inner_products(v, tokens, start_pos, ls);
        let hidden = choose|hidden: Seq<T>|
            {
                &&& #[trigger] self.is_hidden(tokens, start_pos, hidden)
                &&& forall|t: int, u: int|
                    0 <= t < tokens.len() && 0 <= u < self.spec_vocab_size() ==> v(
                        #[trigger] ls[t * self.spec_vocab_size() + u],
                    ) == inner(v, row_of(hidden, width, t), row_of(matrix, width, u))
            };
        assert(hidden.len() == tokens.len() * width);
        assert forall|t: int| 0 <= t < tokens.len() implies v(#[trigger] ls[t * vocab + c]) == v(
            ls[t * vocab + a],
        ) + v(ls[t * vocab + b]) by {
            lemma_row_bounds(t, tokens.len() as int, width);
            lemma_inner_add(
                v,
                row_of(hidden, width, t),
                row_of(matrix, width, a),
                row_of(matrix, width, b),
                row_of(matrix, width, c),
            );
        }
    }

    proof fn lemma_matrix_rows(&self, u: int)
        requires
            self.wf(),
            0 <= u < self.spec_vocab_size(),
            !(self.spec_output_proj() is Linear),
        ensures
            row_of(self.scoring_matrix(), self.spec_embed_dim() as int, u).len()
                == self.spec_embed_dim(),
            forall|i: int|
                0 <= i < self.spec_embed_dim() ==> #[trigger] row_of(
                    self.scoring_matrix(),
                    self.spec_embed_dim() as int,
                    u,
                )[i] == self.scoring_matrix()[u * self.spec_embed_dim() + i],
    {
        let width = self.spec_embed_dim() as int;
        lemma_row_bounds(u, self.spec_vocab_size() as int, width);
        lemma_elements(self.spec_embedding().spec_shape());
        if let OutputProjection::Float(own) = self.spec_output_proj() {
            lemma_elements(own.spec_shape());
        }
    }

    /// An entry whose row of the model's own output matrix is zero scores zero,
    /// whatever the embedding table holds.
    pub proof fn zero_rows_score_zero(
        &self,
        v: spec_fn(T) -> real,
        tokens: Seq<u32>,
        start_pos: int,
        ls: Seq<T>,
        t: int,
        u: int,
    )
        requires
            adds(v),
            multiplies(v),
            counts(v),
            self.wf(),
            self.is_forward(tokens, start_pos, ls),
            0 <= t < tokens.len(),
            0 <= u < self.spec_vocab_size(),
            match self.spec_output_proj() {
                OutputProjection::Float(own) => forall|i: int|
                    0 <= i < self.spec_embed_dim() ==> v(
                        #[trigger] own.spec_data()[u * self.spec_embed_dim() + i],
                    ) == 0 as real,
                OutputProjection::Linear(own) => forall|j: int|
                    0 <= j < own.spec_weights().row(u).len() ==> #[trigger] own.spec_weights().row(
                        u,
                    )[j] == Ternary::Zero,
                OutputProjection::TiedEmbedding => forall|i: int|
                    0 <= i < self.spec_embed_dim() ==> v(
                        #[trigger] self.spec_embedding().spec_data()[u * self.spec_embed_dim() + i],
                    ) == 0 as real,
            },
        ensures
            v(ls[t * self.spec_vocab_size() + u]) == 0 as real,
    {
        let n = tokens.len() as int;
        let k = self.spec_blocks().len() as int;
        let width = self.spec_embed_dim() as int;
        let vocab = self.spec_vocab_size() as int;
        if let OutputProjection::Linear(own) = self.spec_output_proj() {
            let hs = choose|hs: Seq<Seq<T>>|
                {
                    &&& #[trigger] self.is_stack(n, start_pos, hs)
                    &&& self.is_embedded(tokens, hs[0])
                    &&& self.is_logits(hs[k], n, ls)
                };
            let normed = choose|normed: Seq<T>|
                {
                    &&& #[trigger] is_normed_rows(self.spec_final_norm(), hs[k], n, width, normed)
                    &&& ls.len() == n * vocab
                    &&& forall|t: int|
                        0 <= t < n ==> self.is_token_scores(
                            row_of(normed, width, t),
                            #[trigger] row_of(ls, vocab, t),
                        )
                };
            lemma_row_bounds(t, n, vocab);
            assert(self.is_token_scores(row_of(normed, width, t), row_of(ls, vocab, t)));
            own.zero_rows_give_zero(v, row_of(normed, width, t), row_of(ls, vocab, t), u);
            assert(row_of(ls, vocab, t)[u] == ls[t * vocab + u]);
        } else {
            let matrix = self.scoring_matrix();
            self.lemma_matrix_rows(u);
            self.scores_are_inner_products(v, tokens, start_pos, ls);
            let hidden = choose|hidden: Seq<T>|
                {
                    &&& #[trigger] self.is_hidden(tokens, start_pos, hidden)
                    &&& forall|t: int, u: int|
                        0 <= t < tokens.len() && 0 <= u < self.spec_vocab_size() ==> v(
                            #[trigger] ls[t * self.spec_vocab_size() + u],
                        ) == inner(v, row_of(hidden, width, t), row_of(matrix, width, u))
                };
            assert(hidden.len() == n * width);
            lemma_row_bounds(t, n, width);
            assert forall|i: int| 0 <= i < width implies v(#[trigger] row_of(matrix, width, u)[i])
                == 0 as real by {
                assert(row_of(matrix, width, u)[i] == matrix[u * width + i]);
            }
            lemma_inner_zero(v, row_of(hidden, width, t), row_of(matrix, width, u));
            assert(v(ls[t * self.spec_vocab_size() + u]) == inner(
                v,
                row_of(hidden, width, t),
                row_of(matrix, width, u),
            ));
        }
    }
}

} // verus!
