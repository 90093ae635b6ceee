//! One block of a transformer: attention and a feed-forward network, each on
//! normalized input and added to what went in.

use crate::layers::attention::MultiHeadAttention;
use crate::layers::kv_cache::KvCache;
use crate::layers::rmsnorm::RmsNorm;
use crate::layers::swiglu::SwiGLU;
use crate::numeric::{Real, is_sums, sums};
use crate::rows::{lemma_append_row, lemma_row_bounds, row_of, row_slice};
use crate::text::{concatenated, decimal, with_number};
use vstd::prelude::*;
use vstd::string::*;

verus! {

/// Every row of `xs` normalized.
pub open spec fn is_normed_rows<T: Real>(
    norm: RmsNorm<T>,
    xs: Seq<T>,
    n: int,
    width: int,
    ys: Seq<T>,
) -> bool {
    &&& ys.len() == n * width
    &&& forall|t: int|
        0 <= t < n ==> norm.is_forward(row_of(xs, width, t), #[trigger] row_of(ys, width, t))
}

/// Every row of `xs` sent through a feed-forward network.
pub open spec fn is_fed_rows<T: Real>(
    ffn: SwiGLU<T>,
    xs: Seq<T>,
    n: int,
    width: int,
    ys: Seq<T>,
) -> bool {
    &&& ys.len() == n * width
    &&& forall|t: int|
        0 <= t < n ==> ffn.is_forward(row_of(xs, width, t), #[trigger] row_of(ys, width, t))
}

/// Normalize every row of a sequence.
pub fn norm_sequence<T: Real>(norm: &RmsNorm<T>, input: &[T], seq_len: usize) -> (output: Vec<T>)
    requires
        input@.len() == seq_len * norm.spec_weight().len(),
    ensures
        is_normed_rows(
            *norm,
            input@,
            seq_len as int,
            norm.spec_weight().len() as int,
            output@,
        ),
{
    let width: usize = norm.dim();
    let mut output: Vec<T> = Vec::new();
    let mut t: usize = 0;
    while t < seq_len
        invariant
            width == norm.spec_weight().len(),
            input@.len() == seq_len * width,
            t <= seq_len,
            output@.len() == t * width,
            forall|j: int|
                0 <= j < t ==> norm.is_forward(
                    row_of(input@, width as int, j),
                    #[trigger] row_of(output@, width as int, j),
                ),
        decreases seq_len - t,
    {
        proof {
            lemma_row_bounds(t as int, seq_len as int, width as int);
        }
        let mut y: Vec<T> = norm.forward(row_slice(input, width, t));
        proof {
            lemma_append_row(output@, y@, width as int, t as int);
        }
        output.append(&mut y);
        t += 1;
    }
    output
}

/// A transformer block.
pub struct TransformerBlock<T: Real> {
    attn_norm: RmsNorm<T>,
    attention: MultiHeadAttention<T>,
    ffn_norm: RmsNorm<T>,
    ffn: SwiGLU<T>,
}

impl<T: Real> TransformerBlock<T> {
    pub closed spec fn spec_attn_norm(&self) -> RmsNorm<T> {
        self.attn_norm
    }

    pub closed spec fn spec_attention(&self) -> MultiHeadAttention<T> {
        self.attention
    }

    pub closed spec fn spec_ffn_norm(&self) -> RmsNorm<T> {
        self.ffn_norm
    }

    pub closed spec fn spec_ffn(&self) -> SwiGLU<T> {
        self.ffn
    }

    pub open spec fn spec_embed_dim(&self) -> usize {
        self.spec_attention().spec_embed_dim()
    }

    /// All parts take and give vectors of one length.
    pub open spec fn wf(&self) -> bool {
        &&& self.spec_attention().wf()
        &&& self.spec_ffn().wf()
        &&& self.spec_ffn().spec_in() == self.spec_embed_dim()
        &&& self.spec_ffn().spec_out() == self.spec_embed_dim()
        &&& self.spec_attn_norm().spec_weight().len() == self.spec_embed_dim()
        &&& self.spec_ffn_norm().spec_weight().len() == self.spec_embed_dim()
    }

    /// `normed` is the input of the attention layer.
    pub open spec fn is_attention_input(&self, xs: Seq<T>, n: int, normed: Seq<T>) -> bool {
        is_normed_rows(self.spec_attn_norm(), xs, n, self.spec_embed_dim() as int, normed)
    }

    /// `ys` is what the block makes of its input `xs` and the output `attn` of
    /// its attention layer: both added, and the feed-forward network's view of
    /// the sum added to that.
    pub open spec fn is_completed(&self, xs: Seq<T>, n: int, attn: Seq<T>, ys: Seq<T>) -> bool {
        exists|h: Seq<T>, normed: Seq<T>, fed: Seq<T>|
            {
                &&& #[trigger] is_sums(xs, attn, h)
                &&& #[trigger] is_normed_rows(
                    self.spec_ffn_norm(),
                    h,
                    n,
                    self.spec_embed_dim() as int,
                    normed,
                )
                &&& #[trigger] is_fed_rows(
                    self.spec_ffn(),
                    normed,
                    n,
                    self.spec_embed_dim() as int,
                    fed,
                )
                &&& is_sums(h, fed, ys)
            }
    }

    /// What the block makes of a sequence.
    pub open spec fn is_forward(&self, xs: Seq<T>, n: int, start_pos: int, ys: Seq<T>) -> bool {
        exists|normed: Seq<T>, attn: Seq<T>|
            {
                &&& #[trigger] self.is_attention_input(xs, n, normed)
                &&& #[trigger] self.spec_attention().is_forward(normed, n, start_pos, attn)
                &&& self.is_completed(xs, n, attn, ys)
            }
    }

    /// What the block makes of new tokens and a cache.
    pub open spec fn is_cached_forward(
        &self,
        before: &KvCache<T>,
        xs: Seq<T>,
        n: int,
        after: &KvCache<T>,
        ys: Seq<T>,
    ) -> bool {
        exists|normed: Seq<T>, attn: Seq<T>|
            {
                &&& #[trigger] self.is_attention_input(xs, n, normed)
                &&& #[trigger] self.spec_attention().is_cached_forward(
                    before,
                    normed,
                    n,
                    after,
                    attn,
                )
                &&& self.is_completed(xs, n, attn, ys)
            }
    }

    /// A block made of its parts.
    pub fn new(
        attn_norm: RmsNorm<T>,
        attention: MultiHeadAttention<T>,
        ffn_norm: RmsNorm<T>,
        ffn: SwiGLU<T>,
    ) -> (b: Self)
        requires
            attention.wf(),
            ffn.wf(),
            attention.spec_embed_dim() == ffn.spec_in(),
            ffn.spec_in() == ffn.spec_out(),
            attn_norm.spec_weight().len() == attention.spec_embed_dim(),
            ffn_norm.spec_weight().len() == attention.spec_embed_dim(),
        ensures
            b.wf(),
            b.spec_attn_norm() == attn_norm,
            b.spec_attention() == attention,
            b.spec_ffn_norm() == ffn_norm,
            b.spec_ffn() == ffn,
    {
        TransformerBlock { attn_norm, attention, ffn_norm, ffn }
    }

    /// A block made of its parts, with an optional normalization of the heads
    /// inside the attention layer.
    pub fn with_sub_norms(
        attn_norm: RmsNorm<T>,
        attention: MultiHeadAttention<T>,
        attn_sub_norm: Option<RmsNorm<T>>,
        ffn_norm: RmsNorm<T>,
        ffn: SwiGLU<T>,
    ) -> (b: Self)
        requires
            attention.wf(),
            ffn.wf(),
            attention.spec_embed_dim() == ffn.spec_in(),
            ffn.spec_in() == ffn.spec_out(),
            attn_norm.spec_weight().len() == attention.spec_embed_dim(),
            ffn_norm.spec_weight().len() == attention.spec_embed_dim(),
            attn_sub_norm matches Some(norm) ==> norm.spec_weight().len() == attention.q_dim(),
        ensures
            b.wf(),
            b.spec_attn_norm() == attn_norm,
            b.spec_attention().same_but_norm(&attention),
            b.spec_attention().spec_o_sub_norm() == match attn_sub_norm {
                Some(norm) => Some(norm),
                None => attention.spec_o_sub_norm(),
            },
            b.spec_ffn_norm() == ffn_norm,
            b.spec_ffn() == ffn,
    {
        let mut attention = attention;
        if let Some(norm) = attn_sub_norm {
            attention.set_o_sub_norm(norm);
        }
        TransformerBlock { attn_norm, attention, ffn_norm, ffn }
    }

    /// Length of the vectors.
    pub fn embed_dim(&self) -> (n: usize)
        ensures
            n == self.spec_embed_dim(),
    {
        self.attention.embed_dim()
    }

    /// The attention layer.
    pub fn attention(&self) -> (a: &MultiHeadAttention<T>)
        ensures
            *a == self.spec_attention(),
    {
        &self.attention
    }

    /// Finish a pass, given the output of the attention layer.
    fn complete(&self, input: &[T], seq_len: usize, attn: &[T]) -> (output: Vec<T>)
        requires
            self.wf(),
            input@.len() == seq_len * self.spec_embed_dim(),
            attn@.len() == input@.len(),
        ensures
            self.is_completed(input@, seq_len as int, attn@, output@),
            output@.len() == input@.len(),
    {
        let h: Vec<T> = sums(input, attn);
        let normed: Vec<T> = norm_sequence(&self.ffn_norm, h.as_slice(), seq_len);
        let fed: Vec<T> = self.ffn.forward_sequence(normed.as_slice(), seq_len);
        let output: Vec<T> = sums(h.as_slice(), fed.as_slice());
        assert(is_fed_rows(
            self.spec_ffn(),
            normed@,
            seq_len as int,
            self.spec_embed_dim() as int,
            fed@,
        ));
        output
    }

    /// Apply the block to a sequence.
    pub fn forward(&self, input: &[T], seq_len: usize, start_pos: usize) -> (output: Vec<T>)
        requires
            self.wf(),
            input@.len() == seq_len * self.spec_embed_dim(),
            start_pos + seq_len <= usize::MAX,
        ensures
            self.is_forward(input@, seq_len as int, start_pos as int, output@),
            output@.len() == input@.len(),
    {
        let normed: Vec<T> = norm_sequence(&self.attn_norm, input, seq_len);
        let attn: Vec<T> = self.attention.forward(normed.as_slice(), seq_len, start_pos);
        let output: Vec<T> = self.complete(input, seq_len, attn.as_slice());
        assert(self.is_attention_input(input@, seq_len as int, normed@));
        output
    }

    /// Apply the block to new tokens, with a cache.
    pub fn forward_cached(&self, input: &[T], seq_len: usize, cache: &mut KvCache<T>) -> (output: Vec<
        T,
    >)
        requires
            self.wf(),
            input@.len() == seq_len * self.spec_embed_dim(),
            self.spec_attention().fits_cache(old(cache), seq_len as int),
        ensures
            output@.len() == input@.len(),
            final(cache).wf(),
            final(cache).same_shape(old(cache)),
            final(cache).spec_len() == old(cache).spec_len() + seq_len,
            self.is_cached_forward(old(cache), input@, seq_len as int, final(cache), output@),
    {
        let normed: Vec<T> = norm_sequence(&self.attn_norm, input, seq_len);
        let attn: Vec<T> = self.attention.forward_cached(normed.as_slice(), seq_len, cache);
        let output: Vec<T> = self.complete(input, seq_len, attn.as_slice());
        assert(self.is_attention_input(input@, seq_len as int, normed@));
        output
    }

    /// On an empty cache, the cached pass computes what the plain pass
    /// computes from position zero.
    pub proof fn prefill_is_forward(
        &self,
        before: &KvCache<T>,
        xs: Seq<T>,
        n: int,
        after: &KvCache<T>,
        ys: Seq<T>,
    )
        requires
            before.wf(),
            before.spec_len() == 0,
            self.is_cached_forward(before, xs, n, after, ys),
        ensures
            self.is_forward(xs, n, 0, ys),
    {
        let (normed, attn) = choose|normed: Seq<T>, attn: Seq<T>|
            {
                &&& #[trigger] self.is_attention_input(xs, n, normed)
                &&& #[trigger] self.spec_attention().is_cached_forward(
                    before,
                    normed,
                    n,
                    after,
                    attn,
                )
                &&& self.is_completed(xs, n, attn, ys)
            };
        self.spec_attention().prefill_is_forward(before, normed, n, after, attn);
    }
}

impl<T: Real> TransformerBlock<T> {
    /// One line about a block.
    pub open spec fn description(&self) -> Seq<char> {
        "TransformerBlock("@ + "embed="@ + decimal(self.spec_embed_dim() as nat) + ", "@
            + self.spec_attention().description() + ", "@ + self.spec_ffn().description() + ")"@
    }

    /// One line about a block.
    pub fn describe(&self) -> (s: String)
        ensures
            s@ == self.description(),
    {
        let s: String = with_number(
            String::from_str("TransformerBlock("),
            "embed=",
            self.embed_dim(),
        );
        let s: String = concatenated(s.as_str(), ", ");
        let s: String = concatenated(s.as_str(), self.attention.describe().as_str());
        let s: String = concatenated(s.as_str(), ", ");
        let s: String = concatenated(s.as_str(), self.ffn.describe().as_str());
        concatenated(s.as_str(), ")")
    }
}

} // verus!
