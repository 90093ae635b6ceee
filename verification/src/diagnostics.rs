//! Figures by which to judge whether a model was read correctly.

use crate::layers::attention::{is_attention_scale, is_score};
use crate::layers::bitlinear::BitLinear;
use crate::layers::rope::{RoPE, RoPELayout, is_frequency};
use crate::numeric::{
    Real, dot, is_abs, is_dot, is_maximum, is_minus, is_over, is_positive, is_sqrt, is_sum, is_times,
    is_usize, is_zero, maximum, sum,
};
use crate::rows::{lemma_row_bounds, row_of, row_slice};
use vstd::prelude::*;

verus! {

/// `r` is the length of a vector.
pub open spec fn is_l2_norm<T: Real>(xs: Seq<T>, r: T) -> bool {
    exists|s: T| #[trigger] is_dot(xs, xs, s) && is_sqrt(s, r)
}

/// The length of a vector.
pub fn l2_norm<T: Real>(xs: &[T]) -> (r: T)
    ensures
        is_l2_norm(xs@, r),
{
    dot(xs, xs).sqrt()
}

/// `m` is the mean of numbers.
pub open spec fn is_mean<T: Real>(xs: Seq<T>, m: T) -> bool {
    exists|s: T, n: T|
        #[trigger] is_sum(xs, s) && #[trigger] is_usize(xs.len() as usize, n) && is_over(s, n, m)
}

/// The mean of numbers.
pub fn mean<T: Real>(xs: &[T]) -> (m: T)
    ensures
        is_mean(xs@, m),
{
    let s = sum(xs);
    let n = T::from_usize(xs.len());
    assert(is_sum(xs@, s) && is_usize(xs@.len() as usize, n));
    s.over(n)
}

/// `ds` holds the squares of the differences from `m`.
pub open spec fn is_squared_differences<T: Real>(xs: Seq<T>, m: T, ds: Seq<T>) -> bool {
    &&& ds.len() == xs.len()
    &&& forall|i: int| 0 <= i < xs.len() ==> is_squared_difference(xs[i], m, #[trigger] ds[i])
}

/// `r` is the square of `x - m`.
pub open spec fn is_squared_difference<T: Real>(x: T, m: T, r: T) -> bool {
    exists|d: T| #[trigger] is_minus(x, m, d) && is_times(d, d, r)
}

/// `v` is the variance of numbers: the mean square of their differences from
/// the mean.
pub open spec fn is_variance<T: Real>(xs: Seq<T>, v: T) -> bool {
    exists|m: T, ds: Seq<T>|
        is_mean(xs, m) && #[trigger] is_squared_differences(xs, m, ds) && is_mean(ds, v)
}

/// The variance of numbers.
pub fn variance<T: Real>(xs: &[T]) -> (v: T)
    ensures
        is_variance(xs@, v),
{
    let m = mean(xs);
    let mut ds: Vec<T> = Vec::new();
    let mut i: usize = 0;
    while i < xs.len()
        invariant
            i <= xs@.len(),
            ds@.len() == i,
            forall|j: int| 0 <= j < i ==> is_squared_difference(xs@[j], m, #[trigger] ds@[j]),
        decreases xs@.len() - i,
    {
        let d = xs[i].minus(m);
        let r = d.times(d);
        assert(is_squared_difference(xs@[i as int], m, r));
        ds.push(r);
        i += 1;
    }
    assert(is_squared_differences(xs@, m, ds@));
    mean(ds.as_slice())
}

/// As much of both sequences as the shorter one has.
pub open spec fn common<T>(a: Seq<T>, b: Seq<T>) -> Seq<T> {
    if b.len() < a.len() {
        a.take(b.len() as int)
    } else {
        a
    }
}

/// The four scores of two queries against two keys, the keys of a query next
/// to each other.
pub open spec fn is_score_table<T: Real>(
    q0: Seq<T>,
    q1: Seq<T>,
    k0: Seq<T>,
    k1: Seq<T>,
    scale: T,
    scores: Seq<T>,
) -> bool {
    &&& scores.len() == 4
    &&& is_score(common(q0, k0), common(k0, q0), scale, scores[0])
    &&& is_score(common(q0, k1), common(k1, q0), scale, scores[1])
    &&& is_score(common(q1, k0), common(k0, q1), scale, scores[2])
    &&& is_score(common(q1, k1), common(k1, q1), scale, scores[3])
}

fn cut<'a, T: Real>(a: &'a [T], b: &[T]) -> (r: &'a [T])
    ensures
        r@ == common(a@, b@),
{
    if b.len() < a.len() {
        assert(a@.subrange(0, b@.len() as int) =~= a@.take(b@.len() as int));
        vstd::slice::slice_subrange(a, 0, b.len())
    } else {
        a
    }
}

fn score<T: Real>(q: &[T], k: &[T], scale: T) -> (r: T)
    ensures
        is_score(common(q@, k@), common(k@, q@), scale, r),
{
    dot(cut(q, k), cut(k, q)).times(scale)
}

fn score_table<T: Real>(q0: &[T], q1: &[T], k0: &[T], k1: &[T], scale: T) -> (scores: Vec<T>)
    ensures
        is_score_table(q0@, q1@, k0@, k1@, scale, scores@),
{
    let mut scores: Vec<T> = Vec::new();
    scores.push(score(q0, k0, scale));
    scores.push(score(q0, k1, scale));
    scores.push(score(q1, k0, scale));
    scores.push(score(q1, k1, scale));
    scores
}

/// `ys` is the beginning of `xs`, rotated to a position under frequencies of
/// its own length.
pub open spec fn is_rotated_head<T: Real>(
    xs: Seq<T>,
    dim: usize,
    base: T,
    layout: RoPELayout,
    pos: usize,
    ys: Seq<T>,
) -> bool {
    exists|rope: RoPE<T>|
        {
            &&& rope.wf()
            &&& rope.spec_dim() == dim
            &&& rope.spec_layout() == layout
            &&& forall|i: int|
                0 <= i < rope.spec_freqs().len() ==> is_frequency(
                    base,
                    dim,
                    i as usize,
                    #[trigger] rope.spec_freqs()[i],
                )
            &&& #[trigger] rope.is_forward(xs.take(dim as int), pos, ys)
        }
}

fn rotated_head<T: Real>(xs: &[T], dim: usize, base: T, layout: RoPELayout, pos: usize) -> (ys: Vec<
    T,
>)
    requires
        dim > 0,
        dim % 2 == 0,
        dim <= xs@.len(),
        is_positive(base),
    ensures
        is_rotated_head(xs@, dim, base, layout, pos, ys@),
{
    let rope: RoPE<T> = RoPE::with_layout(dim, base, layout);
    let head: &[T] = vstd::slice::slice_subrange(xs, 0, dim);
    assert(head@ =~= xs@.take(dim as int));
    rope.forward(head, pos)
}

/// The queries and keys of two tokens.
pub struct ProbedTokens<T> {
    pub q0: T,
    pub q1: T,
    pub k0: T,
    pub k1: T,
}

/// The scores of two tokens in the first head, at positions 0 and 1.
pub open spec fn is_rotated_table<T: Real>(
    tokens: ProbedTokens<Seq<T>>,
    head_dim: usize,
    kv_head_dim: usize,
    base: T,
    layout: RoPELayout,
    scale: T,
    scores: Seq<T>,
) -> bool {
    exists|q0: Seq<T>, q1: Seq<T>, k0: Seq<T>, k1: Seq<T>|
        {
            &&& is_rotated_head(tokens.q0, head_dim, base, layout, 0, q0)
            &&& is_rotated_head(tokens.q1, head_dim, base, layout, 1, q1)
            &&& is_rotated_head(tokens.k0, kv_head_dim, base, layout, 0, k0)
            &&& is_rotated_head(tokens.k1, kv_head_dim, base, layout, 1, k1)
            &&& #[trigger] is_score_table(q0, q1, k0, k1, scale, scores)
        }
}

fn rotated_table<T: Real>(
    tokens: &ProbedTokens<Vec<T>>,
    head_dim: usize,
    kv_head_dim: usize,
    base: T,
    layout: RoPELayout,
    scale: T,
) -> (scores: Vec<T>)
    requires
        head_dim > 0,
        head_dim % 2 == 0,
        kv_head_dim > 0,
        kv_head_dim % 2 == 0,
        head_dim <= tokens.q0@.len(),
        head_dim <= tokens.q1@.len(),
        kv_head_dim <= tokens.k0@.len(),
        kv_head_dim <= tokens.k1@.len(),
        is_positive(base),
    ensures
        is_rotated_table(
            tokens.views(),
            head_dim,
            kv_head_dim,
            base,
            layout,
            scale,
            scores@,
        ),
{
    let q0: Vec<T> = rotated_head(tokens.q0.as_slice(), head_dim, base, layout, 0);
    let q1: Vec<T> = rotated_head(tokens.q1.as_slice(), head_dim, base, layout, 1);
    let k0: Vec<T> = rotated_head(tokens.k0.as_slice(), kv_head_dim, base, layout, 0);
    let k1: Vec<T> = rotated_head(tokens.k1.as_slice(), kv_head_dim, base, layout, 1);
    let scores: Vec<T> = score_table(
        q0.as_slice(),
        q1.as_slice(),
        k0.as_slice(),
        k1.as_slice(),
        scale,
    );
    assert(is_score_table(q0@, q1@, k0@, k1@, scale, scores@));
    scores
}

impl<T> ProbedTokens<Vec<T>> {
    /// The queries and keys as sequences.
    pub open spec fn views(&self) -> ProbedTokens<Seq<T>> {
        ProbedTokens { q0: self.q0@, q1: self.q1@, k0: self.k0@, k1: self.k1@ }
    }
}

/// How strongly two tokens attend to each other in the first head, under
/// either pairing of rotated elements and without rotation.
pub struct AttentionProbe<T: Real> {
    /// Queries and keys of the tokens.
    pub tokens: ProbedTokens<Vec<T>>,
    pub head_dim: usize,
    pub kv_head_dim: usize,
    /// One over the root of the head dimension.
    pub scale: T,
    /// Scores with neighbours rotated together, and their variance.
    pub interleaved: Vec<T>,
    pub interleaved_variance: T,
    /// Scores with the two halves rotated together, and their variance.
    pub halved: Vec<T>,
    pub halved_variance: T,
    /// Scores without rotation, and their variance.
    pub plain: Vec<T>,
    pub plain_variance: T,
}

impl<T: Real> AttentionProbe<T> {
    /// The probe is that of two embeddings under given projections.
    pub open spec fn is_probe(
        &self,
        q_proj: BitLinear<T>,
        k_proj: BitLinear<T>,
        emb0: Seq<T>,
        emb1: Seq<T>,
        base: T,
    ) -> bool {
        let tokens = self.tokens.views();
        &&& q_proj.is_forward(emb0, tokens.q0)
        &&& q_proj.is_forward(emb1, tokens.q1)
        &&& k_proj.is_forward(emb0, tokens.k0)
        &&& k_proj.is_forward(emb1, tokens.k1)
        &&& is_attention_scale(self.head_dim, self.scale)
        &&& is_rotated_table(
            tokens,
            self.head_dim,
            self.kv_head_dim,
            base,
            RoPELayout::Interleaved,
            self.scale,
            self.interleaved@,
        )
        &&& is_variance(self.interleaved@, self.interleaved_variance)
        &&& is_rotated_table(
            tokens,
            self.head_dim,
            self.kv_head_dim,
            base,
            RoPELayout::Halved,
            self.scale,
            self.halved@,
        )
        &&& is_variance(self.halved@, self.halved_variance)
        &&& is_score_table(
            tokens.q0.take(self.head_dim as int),
            tokens.q1.take(self.head_dim as int),
            tokens.k0.take(self.kv_head_dim as int),
            tokens.k1.take(self.kv_head_dim as int),
            self.scale,
            self.plain@,
        )
        &&& is_variance(self.plain@, self.plain_variance)
    }
}

/// Probe the attention between two tokens.
pub fn attention_probe<T: Real>(
    q_proj: &BitLinear<T>,
    k_proj: &BitLinear<T>,
    emb0: &[T],
    emb1: &[T],
    head_dim: usize,
    n_kv_heads: usize,
    rope_theta: T,
) -> (probe: AttentionProbe<T>)
    requires
        q_proj.wf(),
        k_proj.wf(),
        emb0@.len() == q_proj.spec_in(),
        emb1@.len() == q_proj.spec_in(),
        k_proj.spec_in() == q_proj.spec_in(),
        n_kv_heads > 0,
        head_dim > 0,
        head_dim % 2 == 0,
        head_dim <= q_proj.spec_out(),
        k_proj.spec_out() / n_kv_heads > 0,
        k_proj.spec_out() / n_kv_heads % 2 == 0,
        is_positive(rope_theta),
    ensures
        probe.is_probe(*q_proj, *k_proj, emb0@, emb1@, rope_theta),
        probe.head_dim == head_dim,
        probe.kv_head_dim == k_proj.spec_out() / n_kv_heads,
{
    let q0: Vec<T> = q_proj.forward(emb0);
    let q1: Vec<T> = q_proj.forward(emb1);
    let k0: Vec<T> = k_proj.forward(emb0);
    let k1: Vec<T> = k_proj.forward(emb1);
    let kv_head_dim: usize = k_proj.out_features() / n_kv_heads;
    proof {
        assert(k_proj.spec_out() / n_kv_heads <= k_proj.spec_out()) by (nonlinear_arith)
            requires
                n_kv_heads > 0,
        ;
    }
    let root = T::from_usize(head_dim).sqrt();
    let scale = T::one().over(root);
    let tokens = ProbedTokens { q0, q1, k0, k1 };
    let interleaved: Vec<T> = rotated_table(
        &tokens,
        head_dim,
        kv_head_dim,
        rope_theta,
        RoPELayout::Interleaved,
        scale,
    );
    let halved: Vec<T> = rotated_table(
        &tokens,
        head_dim,
        kv_head_dim,
        rope_theta,
        RoPELayout::Halved,
        scale,
    );
    let q0_head: &[T] = vstd::slice::slice_subrange(tokens.q0.as_slice(), 0, head_dim);
    let q1_head: &[T] = vstd::slice::slice_subrange(tokens.q1.as_slice(), 0, head_dim);
    let k0_head: &[T] = vstd::slice::slice_subrange(tokens.k0.as_slice(), 0, kv_head_dim);
    let k1_head: &[T] = vstd::slice::slice_subrange(tokens.k1.as_slice(), 0, kv_head_dim);
    let plain: Vec<T> = score_table(q0_head, q1_head, k0_head, k1_head, scale);
    assert(q0_head@ =~= tokens.q0@.take(head_dim as int));
    assert(q1_head@ =~= tokens.q1@.take(head_dim as int));
    assert(k0_head@ =~= tokens.k0@.take(kv_head_dim as int));
    assert(k1_head@ =~= tokens.k1@.take(kv_head_dim as int));
    let interleaved_variance = variance(interleaved.as_slice());
    let halved_variance = variance(halved.as_slice());
    let plain_variance = variance(plain.as_slice());
    AttentionProbe {
        tokens,
        head_dim,
        kv_head_dim,
        scale,
        interleaved,
        interleaved_variance,
        halved,
        halved_variance,
        plain,
        plain_variance,
    }
}

/// The two tokens to probe: the first two of a text, or the beginning-of-text
/// token where there are fewer.
pub fn probe_tokens(tokens: &[u32], bos: u32) -> (r: (u32, u32))
    ensures
        r.0 == if tokens@.len() > 0 {
            tokens@[0]
        } else {
            bos
        },
        r.1 == if tokens@.len() > 1 {
            tokens@[1]
        } else {
            bos
        },
{
    (
        if tokens.len() > 0 {
            tokens[0]
        } else {
            bos
        },
        if tokens.len() > 1 {
            tokens[1]
        } else {
            bos
        },
    )
}

/// Heads that the output of a projection is divided into.
pub const PROBE_HEADS: usize = 20;

/// Figures about the output of a projection.
pub struct OutputFigures<T: Real> {
    /// Length of the output.
    pub l2: T,
    /// Root of the mean square.
    pub rms: T,
    /// Largest absolute value, or zero.
    pub max_abs: T,
    /// Lengths of the heads.
    pub head_norms: Vec<T>,
    /// Mean of the lengths.
    pub mean_norm: T,
    /// Standard deviation of the lengths.
    pub norm_deviation: T,
    /// Standard deviation over mean.
    pub norm_variation: T,
}

/// `m` is the largest absolute value of `xs`, or zero.
pub open spec fn is_max_abs<T: Real>(xs: Seq<T>, m: T) -> bool {
    exists|zero: T, sizes: Seq<T>|
        {
            &&& is_zero(zero)
            &&& sizes.len() == xs.len()
            &&& forall|i: int| 0 <= i < xs.len() ==> is_abs(xs[i], #[trigger] sizes[i])
            &&& #[trigger] is_maximum(zero, sizes, m)
        }
}

/// `r` is the root of the mean square of `xs`.
pub open spec fn is_root_mean_square<T: Real>(xs: Seq<T>, r: T) -> bool {
    exists|s: T, n: T, q: T|
        {
            &&& #[trigger] is_dot(xs, xs, s)
            &&& is_usize(xs.len() as usize, n)
            &&& #[trigger] is_over(s, n, q)
            &&& is_sqrt(q, r)
        }
}

/// `d` is the root of the variance of `xs`.
pub open spec fn is_deviation<T: Real>(xs: Seq<T>, d: T) -> bool {
    exists|v: T| #[trigger] is_variance(xs, v) && is_sqrt(v, d)
}

impl<T: Real> OutputFigures<T> {
    /// The figures are those of an output whose heads have a given length.
    pub open spec fn is_about(&self, output: Seq<T>, head_dim: int, n_heads: int) -> bool {
        &&& is_l2_norm(output, self.l2)
        &&& is_root_mean_square(output, self.rms)
        &&& is_max_abs(output, self.max_abs)
        &&& self.head_norms@.len() == n_heads
        &&& forall|h: int|
            0 <= h < n_heads ==> is_l2_norm(
                row_of(output, head_dim, h),
                #[trigger] self.head_norms@[h],
            )
        &&& is_mean(self.head_norms@, self.mean_norm)
        &&& is_deviation(self.head_norms@, self.norm_deviation)
        &&& is_over(self.norm_deviation, self.mean_norm, self.norm_variation)
    }
}

fn max_abs<T: Real>(xs: &[T]) -> (m: T)
    ensures
        is_max_abs(xs@, m),
{
    let zero = T::zero();
    let mut sizes: Vec<T> = Vec::new();
    let mut i: usize = 0;
    while i < xs.len()
        invariant
            i <= xs@.len(),
            sizes@.len() == i,
            forall|j: int| 0 <= j < i ==> is_abs(xs@[j], #[trigger] sizes@[j]),
        decreases xs@.len() - i,
    {
        sizes.push(xs[i].abs());
        i += 1;
    }
    let m = maximum(zero, sizes.as_slice());
    assert(is_maximum(zero, sizes@, m));
    m
}

/// The heads to look at: as many as the output has, up to `PROBE_HEADS`.
pub open spec fn probed_heads(n: int, head_dim: int) -> int {
    if n / head_dim < PROBE_HEADS {
        n / head_dim
    } else {
        PROBE_HEADS as int
    }
}

/// Figures about the output of a projection of vectors with `cols` elements.
pub fn output_figures<T: Real>(output: &[T], cols: usize) -> (f: OutputFigures<T>)
    requires
        cols >= PROBE_HEADS,
    ensures
        f.is_about(
            output@,
            cols as int / PROBE_HEADS as int,
            probed_heads(output@.len() as int, cols as int / PROBE_HEADS as int),
        ),
{
    let head_dim: usize = cols / PROBE_HEADS;
    let n: usize = output.len();
    let available: usize = n / head_dim;
    let n_heads: usize = if available < PROBE_HEADS {
        available
    } else {
        PROBE_HEADS
    };
    proof {
        assert(n_heads * head_dim <= n) by (nonlinear_arith)
            requires
                n_heads <= n / head_dim,
                head_dim > 0,
        ;
    }
    let mut head_norms: Vec<T> = Vec::new();
    let mut h: usize = 0;
    while h < n_heads
        invariant
            n == output@.len(),
            n_heads * head_dim <= n,
            h <= n_heads,
            head_norms@.len() == h,
            forall|j: int|
                0 <= j < h ==> is_l2_norm(
                    row_of(output@, head_dim as int, j),
                    #[trigger] head_norms@[j],
                ),
        decreases n_heads - h,
    {
        proof {
            lemma_row_bounds(h as int, n_heads as int, head_dim as int);
        }
        head_norms.push(l2_norm(row_slice(output, head_dim, h)));
        h += 1;
    }
    let s = dot(output, output);
    let q = s.over(T::from_usize(n));
    let rms = q.sqrt();
    assert(is_root_mean_square(output@, rms));
    let mean_norm = mean(head_norms.as_slice());
    let norm_deviation = variance(head_norms.as_slice()).sqrt();
    let norm_variation = norm_deviation.over(mean_norm);
    OutputFigures {
        l2: l2_norm(output),
        rms,
        max_abs: max_abs(output),
        head_norms,
        mean_norm,
        norm_deviation,
        norm_variation,
    }
}

} // verus!
