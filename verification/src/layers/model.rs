//! A whole language model: token embeddings, a stack of blocks, a final
//! normalization, and a projection to one score per vocabulary entry.

use crate::layers::bitlinear::BitLinear;
use crate::layers::kv_cache::{KvCache, ModelKvCache};
use crate::layers::rmsnorm::RmsNorm;
use crate::layers::transformer::{TransformerBlock, is_normed_rows, norm_sequence};
use crate::numeric::{
    Real, is_plus, is_products, is_sum, is_sum_from, is_times, lemma_sum_push, zeros,
};
use crate::rows::{lemma_append_row, lemma_row_bounds, row_of, row_slice};
use crate::tensor::{FloatTensor, lemma_elements};
use crate::text::{concatenated, decimal, with_number};
use rayon::iter::{IndexedParallelIterator, ParallelIterator};
use rayon::slice::ParallelSliceMut;
use vstd::prelude::*;
use vstd::string::*;

verus! {

/// Vocabulary entries per piece of parallel work.
pub const VOCAB_CHUNK_SIZE: usize = 4096;

/// Every fourth of the first `4 * n` products, from `k` on.
pub open spec fn lane<T>(ps: Seq<T>, n: int, k: int) -> Seq<T> {
    Seq::new(n as nat, |i: int| ps[4 * i + k])
}

/// `r` is the sum of products, accumulated in four lanes that are added up
/// before the products left over.
pub open spec fn is_unrolled_sum<T: Real>(ps: Seq<T>, r: T) -> bool {
    let n = ps.len() as int / 4;
    exists|s0: T, s1: T, s2: T, s3: T, t1: T, t2: T, t3: T|
        {
            &&& is_sum(lane(ps, n, 0), s0)
            &&& is_sum(lane(ps, n, 1), s1)
            &&& is_sum(lane(ps, n, 2), s2)
            &&& is_sum(lane(ps, n, 3), s3)
            &&& #[trigger] is_plus(s0, s1, t1)
            &&& #[trigger] is_plus(t1, s2, t2)
            &&& #[trigger] is_plus(t2, s3, t3)
            &&& is_sum_from(t3, ps.skip(4 * n), r)
        }
}

/// `r` is the inner product of `xs` and `ys`, accumulated in four lanes.
pub open spec fn is_unrolled_dot<T: Real>(xs: Seq<T>, ys: Seq<T>, r: T) -> bool {
    exists|ps: Seq<T>| #[trigger] is_products(xs, ys, ps) && is_unrolled_sum(ps, r)
}

/// `ls` holds the inner products of `h` with every row of `weights`.
pub open spec fn is_scores<T: Real>(h: Seq<T>, weights: Seq<T>, width: int, ls: Seq<T>) -> bool {
    forall|v: int|
        0 <= v < ls.len() ==> is_unrolled_dot(h, row_of(weights, width, v), #[trigger] ls[v])
}

/// Inner product in four lanes.
pub fn dot_product<T: Real>(a: &[T], b: &[T]) -> (r: T)
    requires
        a@.len() == b@.len(),
    ensures
        is_unrolled_dot(a@, b@, r),
{
    let n: usize = a.len();
    let chunks: usize = n / 4;
    let z0 = T::zero();
    let z1 = T::zero();
    let z2 = T::zero();
    let z3 = T::zero();
    let mut sum0 = z0;
    let mut sum1 = z1;
    let mut sum2 = z2;
    let mut sum3 = z3;
    let ghost mut ps: Seq<T> = Seq::empty();
    let mut i: usize = 0;
    assert(lane(ps, 0, 0) =~= Seq::<T>::empty());
    assert(lane(ps, 0, 1) =~= Seq::<T>::empty());
    assert(lane(ps, 0, 2) =~= Seq::<T>::empty());
    assert(lane(ps, 0, 3) =~= Seq::<T>::empty());
    while i < chunks
        invariant
            n == a@.len() == b@.len(),
            chunks == n / 4,
            i <= chunks,
            ps.len() == 4 * i,
            forall|j: int| 0 <= j < ps.len() ==> is_times(a@[j], b@[j], #[trigger] ps[j]),
            is_sum_from(z0, lane(ps, i as int, 0), sum0),
            is_sum_from(z1, lane(ps, i as int, 1), sum1),
            is_sum_from(z2, lane(ps, i as int, 2), sum2),
            is_sum_from(z3, lane(ps, i as int, 3), sum3),
        decreases chunks - i,
    {
        let j: usize = i * 4;
        let p0 = a[j].times(b[j]);
        let p1 = a[j + 1].times(b[j + 1]);
        let p2 = a[j + 2].times(b[j + 2]);
        let p3 = a[j + 3].times(b[j + 3]);
        let ghost before = ps;
        let ghost (b0, b1, b2, b3) = (sum0, sum1, sum2, sum3);
        sum0 = sum0.plus(p0);
        sum1 = sum1.plus(p1);
        sum2 = sum2.plus(p2);
        sum3 = sum3.plus(p3);
        proof {
            ps = ps.push(p0).push(p1).push(p2).push(p3);
            lemma_sum_push(z0, lane(before, i as int, 0), b0, p0, sum0);
            lemma_sum_push(z1, lane(before, i as int, 1), b1, p1, sum1);
            lemma_sum_push(z2, lane(before, i as int, 2), b2, p2, sum2);
            lemma_sum_push(z3, lane(before, i as int, 3), b3, p3, sum3);
            assert(lane(before, i as int, 0).push(p0) =~= lane(ps, i + 1, 0));
            assert(lane(before, i as int, 1).push(p1) =~= lane(ps, i + 1, 1));
            assert(lane(before, i as int, 2).push(p2) =~= lane(ps, i + 1, 2));
            assert(lane(before, i as int, 3).push(p3) =~= lane(ps, i + 1, 3));
        }
        i += 1;
    }
    let ghost main = ps;
    let t1 = sum0.plus(sum1);
    let t2 = t1.plus(sum2);
    let t3 = t2.plus(sum3);
    let mut acc = t3;
    let mut k: usize = chunks * 4;
    assert(ps.skip(4 * chunks as int) =~= Seq::<T>::empty());
    while k < n
        invariant
            n == a@.len() == b@.len(),
            chunks == n / 4,
            4 * chunks <= k <= n,
            main.len() == 4 * chunks,
            ps.len() == k,
            forall|j: int| 0 <= j < main.len() ==> #[trigger] ps[j] == main[j],
            forall|j: int| 0 <= j < ps.len() ==> is_times(a@[j], b@[j], #[trigger] ps[j]),
            is_sum_from(t3, ps.skip(4 * chunks as int), acc),
        decreases n - k,
    {
        let p = a[k].times(b[k]);
        let ghost before = ps;
        let ghost acc0 = acc;
        acc = acc.plus(p);
        proof {
            ps = ps.push(p);
            lemma_sum_push(t3, before.skip(4 * chunks as int), acc0, p, acc);
            assert(before.skip(4 * chunks as int).push(p) =~= ps.skip(4 * chunks as int));
        }
        k += 1;
    }
    proof {
        let c = chunks as int;
        assert(lane(ps, c, 0) =~= lane(main, c, 0));
        assert(lane(ps, c, 1) =~= lane(main, c, 1));
        assert(lane(ps, c, 2) =~= lane(main, c, 2));
        assert(lane(ps, c, 3) =~= lane(main, c, 3));
        assert(is_sum(lane(ps, c, 0), sum0) && is_sum(lane(ps, c, 1), sum1) && is_sum(
            lane(ps, c, 2),
            sum2,
        ) && is_sum(lane(ps, c, 3), sum3));
        assert(is_plus(sum0, sum1, t1) && is_plus(t1, sum2, t2) && is_plus(t2, sum3, t3));
        assert(is_unrolled_sum(ps, acc));
        assert(is_products(a@, b@, ps));
    }
    acc
}

/// The scores of one piece of the vocabulary: `chunk` holds the entries from
/// `chunk_idx * chunk_size` on.
pub fn project_chunk<T: Real>(
    h: &[T],
    weights: &[T],
    chunk_idx: usize,
    chunk_size: usize,
    chunk: &mut [T],
)
    requires
        (chunk_idx * chunk_size + old(chunk)@.len()) * h@.len() <= weights@.len(),
        chunk_idx * chunk_size + old(chunk)@.len() <= usize::MAX,
    ensures
        final(chunk)@.len() == old(chunk)@.len(),
        forall|i: int|
            0 <= i < final(chunk)@.len() ==> is_unrolled_dot(
                h@,
                row_of(weights@, h@.len() as int, chunk_idx * chunk_size + i),
                #[trigger] final(chunk)@[i],
            ),
{
    let width: usize = h.len();
    assert(0 <= chunk_idx * chunk_size) by (nonlinear_arith);
    let v_start: usize = chunk_idx * chunk_size;
    let mut i: usize = 0;
    while i < chunk.len()
        invariant
            width == h@.len(),
            v_start == chunk_idx * chunk_size,
            chunk@.len() == old(chunk)@.len(),
            v_start + chunk@.len() <= usize::MAX,
            (v_start + chunk@.len()) * width <= weights@.len(),
            i <= chunk@.len(),
            forall|j: int|
                0 <= j < i ==> is_unrolled_dot(
                    h@,
                    row_of(weights@, width as int, v_start + j),
                    #[trigger] chunk@[j],
                ),
        decreases chunk@.len() - i,
    {
        proof {
            lemma_row_bounds(v_start + i, v_start + chunk@.len(), width as int);
        }
        let row: &[T] = row_slice(weights, width, v_start + i);
        chunk[i] = dot_product(h, row);
        i += 1;
    }
}

/// `rayon`'s `par_chunks_mut`, `enumerate` and `for_each`: the slice is cut
/// into chunks of `chunk_size` elements, the last one possibly shorter, and
/// each chunk is handed once, with its number, to [`project_chunk`]. So every
/// element ends up as that function leaves it.
#[verifier::external_body]
fn project_chunks_in_parallel<T: Real>(
    h: &[T],
    weights: &[T],
    chunk_size: usize,
    scores: &mut [T],
)
    requires
        chunk_size > 0,
        old(scores)@.len() * h@.len() <= weights@.len(),
    ensures
        final(scores)@.len() == old(scores)@.len(),
        forall|v: int|
            0 <= v < final(scores)@.len() ==> is_unrolled_dot(
                h@,
                row_of(weights@, h@.len() as int, v),
                #[trigger] final(scores)@[v],
            ),
{
    scores.par_chunks_mut(chunk_size).enumerate().for_each(
        |(i, chunk)| project_chunk(h, weights, i, chunk_size, chunk),
    );
}

/// Scores of every token against every row of a weight matrix.
pub fn float_output_projection<T: Real>(
    normed: &[T],
    weight_data: &[T],
    seq_len: usize,
    vocab_size: usize,
    embed_dim: usize,
) -> (logits: Vec<T>)
    requires
        normed@.len() == seq_len * embed_dim,
        weight_data@.len() == vocab_size * embed_dim,
    ensures
        logits@.len() == seq_len * vocab_size,
        forall|t: int|
            0 <= t < seq_len ==> is_scores(
                row_of(normed@, embed_dim as int, t),
                weight_data@,
                embed_dim as int,
                #[trigger] row_of(logits@, vocab_size as int, t),
            ),
{
    let mut logits: Vec<T> = Vec::new();
    let mut t: usize = 0;
    while t < seq_len
        invariant
            normed@.len() == seq_len * embed_dim,
            weight_data@.len() == vocab_size * embed_dim,
            t <= seq_len,
            logits@.len() == t * vocab_size,
            forall|j: int|
                0 <= j < t ==> is_scores(
                    row_of(normed@, embed_dim as int, j),
                    weight_data@,
                    embed_dim as int,
                    #[trigger] row_of(logits@, vocab_size as int, j),
                ),
        decreases seq_len - t,
    {
        proof {
            lemma_row_bounds(t as int, seq_len as int, embed_dim as int);
        }
        let h: &[T] = row_slice(normed, embed_dim, t);
        let mut scores: Vec<T> = zeros(vocab_size);
        project_chunks_in_parallel(h, weight_data, VOCAB_CHUNK_SIZE, scores.as_mut_slice());
        proof {
            assert(is_scores(h@, weight_data@, embed_dim as int, scores@));
            lemma_append_row(logits@, scores@, vocab_size as int, t as int);
        }
        logits.append(&mut scores);
        t += 1;
    }
    logits
}

/// How hidden vectors become scores.
pub enum OutputProjection<T: Real> {
    /// A ternary layer of its own.
    Linear(BitLinear<T>),
    /// A weight matrix of its own, one row per vocabulary entry.
    Float(FloatTensor<T>),
    /// The embedding table.
    TiedEmbedding,
}

/// A tensor of two given dimensions.
pub open spec fn is_matrix<T: Real>(t: FloatTensor<T>, rows: int, cols: int) -> bool {
    &&& t.wf()
    &&& t.spec_shape().len() == 2
    &&& t.spec_shape()[0] == rows
    &&& t.spec_shape()[1] == cols
}

/// The projection fits a vocabulary and an embedding dimension.
pub open spec fn projection_fits<T: Real>(
    proj: OutputProjection<T>,
    vocab_size: int,
    embed_dim: int,
) -> bool {
    match proj {
        OutputProjection::Linear(layer) => layer.wf() && layer.spec_in() == embed_dim
            && layer.spec_out() == vocab_size,
        OutputProjection::Float(tensor) => is_matrix(tensor, vocab_size, embed_dim),
        OutputProjection::TiedEmbedding => true,
    }
}

/// A language model.
pub struct TransformerModel<T: Real> {
    embedding: FloatTensor<T>,
    blocks: Vec<TransformerBlock<T>>,
    final_norm: RmsNorm<T>,
    output_proj: OutputProjection<T>,
    vocab_size: usize,
    embed_dim: usize,
}

impl<T: Real> TransformerModel<T> {
    pub closed spec fn spec_embedding(&self) -> FloatTensor<T> {
        self.embedding
    }

    pub closed spec fn spec_blocks(&self) -> Seq<TransformerBlock<T>> {
        self.blocks@
    }

    pub closed spec fn spec_final_norm(&self) -> RmsNorm<T> {
        self.final_norm
    }

    pub closed spec fn spec_output_proj(&self) -> OutputProjection<T> {
        self.output_proj
    }

    pub closed spec fn spec_vocab_size(&self) -> usize {
        self.vocab_size
    }

    pub closed spec fn spec_embed_dim(&self) -> usize {
        self.embed_dim
    }

    /// All parts fit together, and there is at least one block.
    pub open spec fn wf(&self) -> bool {
        &&& is_matrix(
            self.spec_embedding(),
            self.spec_vocab_size() as int,
            self.spec_embed_dim() as int,
        )
        &&& self.spec_blocks().len() > 0
        &&& forall|i: int|
            0 <= i < self.spec_blocks().len() ==> {
                &&& (#[trigger] self.spec_blocks()[i]).wf()
                &&& self.spec_blocks()[i].spec_embed_dim() == self.spec_embed_dim()
            }
        &&& self.spec_final_norm().spec_weight().len() == self.spec_embed_dim()
        &&& projection_fits(
            self.spec_output_proj(),
            self.spec_vocab_size() as int,
            self.spec_embed_dim() as int,
        )
    }

    /// The tokens are in the vocabulary.
    pub open spec fn knows(&self, tokens: Seq<u32>) -> bool {
        forall|i: int| 0 <= i < tokens.len() ==> (#[trigger] tokens[i]) < self.spec_vocab_size()
    }

    /// `xs` holds the embeddings of tokens.
    pub open spec fn is_embedded(&self, tokens: Seq<u32>, xs: Seq<T>) -> bool {
        &&& xs.len() == tokens.len() * self.spec_embed_dim()
        &&& forall|t: int|
            0 <= t < tokens.len() ==> #[trigger] row_of(xs, self.spec_embed_dim() as int, t)
                == row_of(
                self.spec_embedding().spec_data(),
                self.spec_embed_dim() as int,
                tokens[t] as int,
            )
    }

    /// `hs` holds what goes into each block and what comes out of the last.
    pub open spec fn is_stack(&self, n: int, start_pos: int, hs: Seq<Seq<T>>) -> bool {
        &&& hs.len() == self.spec_blocks().len() + 1
        &&& forall|i: int|
            0 <= i < self.spec_blocks().len() ==> (#[trigger] self.spec_blocks()[i]).is_forward(
                hs[i],
                n,
                start_pos,
                hs[i + 1],
            )
    }

    /// The same for a pass with caches.
    pub open spec fn is_cached_stack(
        &self,
        n: int,
        before: Seq<KvCache<T>>,
        after: Seq<KvCache<T>>,
        hs: Seq<Seq<T>>,
    ) -> bool {
        &&& hs.len() == self.spec_blocks().len() + 1
        &&& forall|i: int|
            0 <= i < self.spec_blocks().len() ==> (#[trigger] self.spec_blocks()[i]).is_cached_forward(
                &before[i],
                hs[i],
                n,
                &after[i],
                hs[i + 1],
            )
    }

    /// `ls` holds the scores of one token with normalized hidden vector `h`.
    pub open spec fn is_token_scores(&self, h: Seq<T>, ls: Seq<T>) -> bool {
        match self.spec_output_proj() {
            OutputProjection::Linear(layer) => layer.is_forward(h, ls),
            OutputProjection::Float(tensor) => is_scores(
                h,
                tensor.spec_data(),
                self.spec_embed_dim() as int,
                ls,
            ),
            OutputProjection::TiedEmbedding => is_scores(
                h,
                self.spec_embedding().spec_data(),
                self.spec_embed_dim() as int,
                ls,
            ),
        }
    }

    /// `ls` holds the scores of `n` tokens with hidden vectors `xs`.
    pub open spec fn is_logits(&self, xs: Seq<T>, n: int, ls: Seq<T>) -> bool {
        exists|normed: Seq<T>|
            {
                &&& #[trigger] is_normed_rows(
                    self.spec_final_norm(),
                    xs,
                    n,
                    self.spec_embed_dim() as int,
                    normed,
                )
                &&& ls.len() == n * self.spec_vocab_size()
                &&& forall|t: int|
                    0 <= t < n ==> self.is_token_scores(
                        row_of(normed, self.spec_embed_dim() as int, t),
                        #[trigger] row_of(ls, self.spec_vocab_size() as int, t),
                    )
            }
    }

    /// What the model makes of tokens.
    pub open spec fn is_forward(&self, tokens: Seq<u32>, start_pos: int, ls: Seq<T>) -> bool {
        exists|hs: Seq<Seq<T>>|
            {
                &&& #[trigger] self.is_stack(tokens.len() as int, start_pos, hs)
                &&& self.is_embedded(tokens, hs[0])
                &&& self.is_logits(hs[self.spec_blocks().len() as int], tokens.len() as int, ls)
            }
    }

    /// What the model makes of new tokens and caches.
    pub open spec fn is_cached_forward(
        &self,
        before: Seq<KvCache<T>>,
        tokens: Seq<u32>,
        after: Seq<KvCache<T>>,
        ls: Seq<T>,
    ) -> bool {
        exists|hs: Seq<Seq<T>>|
            {
                &&& #[trigger] self.is_cached_stack(tokens.len() as int, before, after, hs)
                &&& self.is_embedded(tokens, hs[0])
                &&& self.is_logits(hs[self.spec_blocks().len() as int], tokens.len() as int, ls)
            }
    }

    /// The caches belong to the blocks and have room for `n` more positions.
    pub open spec fn fits_caches(&self, caches: Seq<KvCache<T>>, n: int) -> bool {
        &&& self.spec_blocks().len() <= caches.len()
        &&& forall|i: int|
            0 <= i < self.spec_blocks().len() ==> (#[trigger] self.spec_blocks()[i]).spec_attention().fits_cache(
            &caches[i],
            n,
        )
    }

    /// A model made of its parts.
    pub fn new(
        embedding: FloatTensor<T>,
        blocks: Vec<TransformerBlock<T>>,
        final_norm: RmsNorm<T>,
        output_proj: OutputProjection<T>,
    ) -> (m: Self)
        requires
            embedding.wf(),
            embedding.spec_shape().len() == 2,
            blocks@.len() > 0,
            forall|i: int|
                0 <= i < blocks@.len() ==> {
                    &&& (#[trigger] blocks@[i]).wf()
                    &&& blocks@[i].spec_embed_dim() == embedding.spec_shape()[1]
                },
            final_norm.spec_weight().len() == embedding.spec_shape()[1],
            projection_fits(
                output_proj,
                embedding.spec_shape()[0] as int,
                embedding.spec_shape()[1] as int,
            ),
        ensures
            m.wf(),
            m.spec_embedding() == embedding,
            m.spec_blocks() == blocks@,
            m.spec_final_norm() == final_norm,
            m.spec_output_proj() == output_proj,
            m.spec_vocab_size() == embedding.spec_shape()[0],
            m.spec_embed_dim() == embedding.spec_shape()[1],
    {
        let vocab_size: usize = embedding.shape()[0];
        let embed_dim: usize = embedding.shape()[1];
        TransformerModel { embedding, blocks, final_norm, output_proj, vocab_size, embed_dim }
    }

    /// Number of vocabulary entries.
    pub fn vocab_size(&self) -> (n: usize)
        ensures
            n == self.spec_vocab_size(),
    {
        self.vocab_size
    }

    /// Length of hidden vectors.
    pub fn embed_dim(&self) -> (n: usize)
        ensures
            n == self.spec_embed_dim(),
    {
        self.embed_dim
    }

    /// Number of blocks.
    pub fn n_layers(&self) -> (n: usize)
        ensures
            n == self.spec_blocks().len(),
    {
        self.blocks.len()
    }

    /// The embedding table.
    pub fn embedding_data(&self) -> (d: &[T])
        ensures
            d@ == self.spec_embedding().spec_data(),
    {
        self.embedding.data()
    }

    /// Look up the embeddings of tokens.
    fn embed(&self, tokens: &[u32]) -> (xs: Vec<T>)
        requires
            self.wf(),
            self.knows(tokens@),
        ensures
            self.is_embedded(tokens@, xs@),
    {
        let dim: usize = self.embed_dim;
        let data: &[T] = self.embedding.data();
        proof {
            lemma_elements(self.spec_embedding().spec_shape());
        }
        let mut xs: Vec<T> = Vec::new();
        let mut t: usize = 0;
        while t < tokens.len()
            invariant
                self.wf(),
                self.knows(tokens@),
                dim == self.spec_embed_dim(),
                data@ == self.spec_embedding().spec_data(),
                data@.len() == self.spec_vocab_size() * dim,
                t <= tokens@.len(),
                xs@.len() == t * dim,
                forall|j: int|
                    0 <= j < t ==> #[trigger] row_of(xs@, dim as int, j) == row_of(
                        data@,
                        dim as int,
                        tokens@[j] as int,
                    ),
            decreases tokens@.len() - t,
        {
            let token: usize = tokens[t] as usize;
            proof {
                lemma_row_bounds(token as int, self.spec_vocab_size() as int, dim as int);
            }
            let mut row: Vec<T> = vstd::slice::slice_to_vec(row_slice(data, dim, token));
            proof {
                lemma_append_row(xs@, row@, dim as int, t as int);
            }
            xs.append(&mut row);
            t += 1;
        }
        xs
    }

    /// Scores of tokens with hidden vectors `hidden`.
    fn logits(&self, hidden: &[T], seq_len: usize) -> (ls: Vec<T>)
        requires
            self.wf(),
            hidden@.len() == seq_len * self.spec_embed_dim(),
        ensures
            self.is_logits(hidden@, seq_len as int, ls@),
    {
        let normed: Vec<T> = norm_sequence(&self.final_norm, hidden, seq_len);
        let ghost dim = self.spec_embed_dim() as int;
        let ghost vocab = self.spec_vocab_size() as int;
        proof {
            lemma_elements(self.spec_embedding().spec_shape());
            match self.spec_output_proj() {
                OutputProjection::Float(tensor) => {
                    lemma_elements(tensor.spec_shape());
                },
                _ => {},
            }
        }
        let ls: Vec<T> = match &self.output_proj {
            OutputProjection::Linear(layer) => {
                let mut ls: Vec<T> = Vec::new();
                let mut t: usize = 0;
                while t < seq_len
                    invariant
                        layer.wf(),
                        layer.spec_in() == self.embed_dim,
                        layer.spec_out() == self.vocab_size,
                        dim == self.embed_dim,
                        vocab == self.vocab_size,
                        normed@.len() == seq_len * self.embed_dim,
                        t <= seq_len,
                        ls@.len() == t * vocab,
                        forall|j: int|
                            0 <= j < t ==> layer.is_forward(
                                row_of(normed@, dim, j),
                                #[trigger] row_of(ls@, vocab, j),
                            ),
                    decreases seq_len - t,
                {
                    proof {
                        lemma_row_bounds(t as int, seq_len as int, dim);
                    }
                    let mut row: Vec<T> = layer.forward(
                        row_slice(normed.as_slice(), self.embed_dim, t),
                    );
                    proof {
                        lemma_append_row(ls@, row@, vocab, t as int);
                    }
                    ls.append(&mut row);
                    t += 1;
                }
                ls
            },
            OutputProjection::Float(tensor) => float_output_projection(
                normed.as_slice(),
                tensor.data(),
                seq_len,
                self.vocab_size,
                self.embed_dim,
            ),
            OutputProjection::TiedEmbedding => float_output_projection(
                normed.as_slice(),
                self.embedding.data(),
                seq_len,
                self.vocab_size,
                self.embed_dim,
            ),
        };
        assert(is_normed_rows(self.spec_final_norm(), hidden@, seq_len as int, dim, normed@));
        ls
    }

    /// Scores of every token of a sequence.
    pub fn forward(&self, tokens: &[u32], start_pos: usize) -> (ls: Vec<T>)
        requires
            self.wf(),
            tokens@.len() > 0,
            self.knows(tokens@),
            start_pos + tokens@.len() <= usize::MAX,
        ensures
            self.is_forward(tokens@, start_pos as int, ls@),
            ls@.len() == tokens@.len() * self.spec_vocab_size(),
    {
        let seq_len: usize = tokens.len();
        let mut hidden: Vec<T> = self.embed(tokens);
        let ghost mut hs: Seq<Seq<T>> = seq![hidden@];
        let mut i: usize = 0;
        while i < self.blocks.len()
            invariant
                self.wf(),
                seq_len == tokens@.len(),
                start_pos + seq_len <= usize::MAX,
                i <= self.spec_blocks().len(),
                hidden@.len() == seq_len * self.spec_embed_dim(),
                hs.len() == i + 1,
                hs[i as int] == hidden@,
                self.is_embedded(tokens@, hs[0]),
                forall|j: int|
                    0 <= j < i ==> (#[trigger] self.spec_blocks()[j]).is_forward(
                        hs[j],
                        seq_len as int,
                        start_pos as int,
                        hs[j + 1],
                    ),
            decreases self.spec_blocks().len() - i,
        {
            assert(self.spec_blocks()[i as int].wf());
            let next: Vec<T> = self.blocks[i].forward(hidden.as_slice(), seq_len, start_pos);
            proof {
                hs = hs.push(next@);
            }
            hidden = next;
            i += 1;
        }
        assert(self.is_stack(seq_len as int, start_pos as int, hs));
        self.logits(hidden.as_slice(), seq_len)
    }

    /// The scores of the last token of a sequence.
    pub open spec fn is_last_scores(&self, tokens: Seq<u32>, start_pos: int, last: Seq<T>) -> bool {
        exists|ls: Seq<T>| #[trigger]
            self.is_forward(tokens, start_pos, ls) && last == row_of(
                ls,
                self.spec_vocab_size() as int,
                tokens.len() - 1,
            )
    }

    /// Scores of the last token of a sequence.
    pub fn forward_last(&self, tokens: &[u32], start_pos: usize) -> (last: Vec<T>)
        requires
            self.wf(),
            tokens@.len() > 0,
            self.knows(tokens@),
            start_pos + tokens@.len() <= usize::MAX,
        ensures
            last@.len() == self.spec_vocab_size(),
            self.is_last_scores(tokens@, start_pos as int, last@),
    {
        let all: Vec<T> = self.forward(tokens, start_pos);
        proof {
            lemma_row_bounds(
                tokens@.len() - 1,
                tokens@.len() as int,
                self.spec_vocab_size() as int,
            );
        }
        let last: Vec<T> = vstd::slice::slice_to_vec(
            row_slice(all.as_slice(), self.vocab_size, tokens.len() - 1),
        );
        assert(self.is_forward(tokens@, start_pos as int, all@));
        last
    }

    /// Scores of new tokens, with caches.
    pub fn forward_cached(&self, tokens: &[u32], cache: &mut ModelKvCache<T>) -> (ls: Vec<T>)
        requires
            self.wf(),
            tokens@.len() > 0,
            self.knows(tokens@),
            self.fits_caches(old(cache)@, tokens@.len() as int),
        ensures
            ls@.len() == tokens@.len() * self.spec_vocab_size(),
            self.is_cached_forward(old(cache)@, tokens@, final(cache)@, ls@),
            final(cache)@.len() == old(cache)@.len(),
            forall|i: int|
                0 <= i < self.spec_blocks().len() ==> {
                    &&& (#[trigger] final(cache)@[i]).wf()
                    &&& final(cache)@[i].same_shape(&old(cache)@[i])
                    &&& final(cache)@[i].spec_len() == old(cache)@[i].spec_len() + tokens@.len()
                },
            forall|i: int|
                self.spec_blocks().len() <= i < final(cache)@.len() ==> #[trigger] final(cache)@[i]
                    == old(cache)@[i],
    {
        let seq_len: usize = tokens.len();
        let ghost before = cache@;
        let ghost n_blocks = self.spec_blocks().len() as int;
        let mut hidden: Vec<T> = self.embed(tokens);
        let ghost mut hs: Seq<Seq<T>> = seq![hidden@];
        let mut i: usize = 0;
        while i < self.blocks.len()
            invariant
                self.wf(),
                n_blocks == self.spec_blocks().len(),
                seq_len == tokens@.len(),
                self.fits_caches(before, seq_len as int),
                i <= n_blocks,
                cache@.len() == before.len(),
                hidden@.len() == seq_len * self.spec_embed_dim(),
                hs.len() == i + 1,
                hs[i as int] == hidden@,
                self.is_embedded(tokens@, hs[0]),
                forall|j: int| i <= j < before.len() ==> #[trigger] cache@[j] == before[j],
                forall|j: int|
                    0 <= j < i ==> {
                        &&& (#[trigger] cache@[j]).wf()
                        &&& cache@[j].same_shape(&before[j])
                        &&& cache@[j].spec_len() == before[j].spec_len() + seq_len
                    },
                forall|j: int|
                    0 <= j < i ==> (#[trigger] self.spec_blocks()[j]).is_cached_forward(
                        &before[j],
                        hs[j],
                        seq_len as int,
                        &cache@[j],
                        hs[j + 1],
                    ),
            decreases n_blocks - i,
        {
            assert(self.spec_blocks()[i as int].wf());
            assert(cache@[i as int] == before[i as int]);
            let ghost caches = cache@;
            let layer_cache = cache.layer_mut(i);
            let next: Vec<T> = self.blocks[i].forward_cached(
                hidden.as_slice(),
                seq_len,
                layer_cache,
            );
            proof {
                hs = hs.push(next@);
                assert forall|j: int| 0 <= j < before.len() && j != i implies #[trigger] cache@[j]
                    == caches[j] by {}
            }
            hidden = next;
            i += 1;
        }
        assert(self.is_cached_stack(seq_len as int, before, cache@, hs));
        self.logits(hidden.as_slice(), seq_len)
    }

    /// The blocks share one arrangement of key heads.
    pub open spec fn has_uniform_heads(&self) -> bool {
        forall|i: int|
            0 <= i < self.spec_blocks().len() ==> {
                &&& (#[trigger] self.spec_blocks()[i]).spec_attention().spec_n_kv_heads()
                    == self.spec_blocks()[0].spec_attention().spec_n_kv_heads()
                &&& self.spec_blocks()[i].spec_attention().spec_head_dim()
                    == self.spec_blocks()[0].spec_attention().spec_head_dim()
            }
    }

    /// Storage for `max_seq_len` positions can be addressed.
    pub open spec fn cache_fits(&self, max_seq_len: int) -> bool {
        let attention = self.spec_blocks()[0].spec_attention();
        8 * (max_seq_len * (attention.spec_n_kv_heads() * attention.spec_head_dim())) <= usize::MAX
    }

    /// Whether storage for `max_seq_len` positions can be addressed.
    pub fn can_cache(&self, max_seq_len: usize) -> (r: bool)
        requires
            self.wf(),
        ensures
            r == self.cache_fits(max_seq_len as int),
    {
        assert(self.spec_blocks()[0].wf());
        let n_kv_heads: usize = self.blocks[0].attention().n_kv_heads();
        let head_dim: usize = self.blocks[0].attention().head_dim();
        let room: usize = usize::MAX / 8;
        let kv_dim: usize = n_kv_heads * head_dim;
        proof {
            let (d, n) = (kv_dim as int, max_seq_len as int);
            assert(kv_dim == 0 ==> n * d == 0) by (nonlinear_arith)
                requires
                    d == kv_dim,
            ;
            assert(kv_dim > 0 ==> (n <= room as int / d) == (n * d <= room)) by (nonlinear_arith)
                requires
                    d == kv_dim,
                    0 <= room,
            ;
        }
        kv_dim == 0 || max_seq_len <= room / kv_dim
    }

    /// Empty caches for this model.
    pub fn create_kv_cache(&self, max_seq_len: usize) -> (c: ModelKvCache<T>)
        requires
            self.wf(),
            self.cache_fits(max_seq_len as int),
        ensures
            c@.len() == self.spec_blocks().len(),
            c.is_uniform(
                self.spec_blocks()[0].spec_attention().spec_n_kv_heads(),
                self.spec_blocks()[0].spec_attention().spec_head_dim(),
                max_seq_len,
                0,
            ),
    {
        assert(self.spec_blocks()[0].wf());
        let n_kv_heads: usize = self.blocks[0].attention().n_kv_heads();
        let head_dim: usize = self.blocks[0].attention().head_dim();
        ModelKvCache::new(self.blocks.len(), n_kv_heads, head_dim, max_seq_len)
    }
}

impl<T: Real> TransformerModel<T> {
    /// One line about a model.
    pub open spec fn description(&self) -> Seq<char> {
        "TransformerModel("@ + "vocab="@ + decimal(self.spec_vocab_size() as nat) + ", embed="@
            + decimal(self.spec_embed_dim() as nat) + ", layers="@ + decimal(
            self.spec_blocks().len(),
        ) + (match self.spec_output_proj() {
            OutputProjection::Linear(_) => ", proj=linear)"@,
            OutputProjection::Float(_) => ", proj=float)"@,
            OutputProjection::TiedEmbedding => ", proj=tied)"@,
        })
    }

    /// One line about a model.
    pub fn describe(&self) -> (s: String)
        ensures
            s@ == self.description(),
    {
        let s: String = with_number(
            String::from_str("TransformerModel("),
            "vocab=",
            self.vocab_size,
        );
        let s: String = with_number(s, ", embed=", self.embed_dim);
        let s: String = with_number(s, ", layers=", self.blocks.len());
        match &self.output_proj {
            OutputProjection::Linear(_) => concatenated(s.as_str(), ", proj=linear)"),
            OutputProjection::Float(_) => concatenated(s.as_str(), ", proj=float)"),
            OutputProjection::TiedEmbedding => concatenated(s.as_str(), ", proj=tied)"),
        }
    }
}

} // verus!
