//! Rotary position embeddings.
//!
//! A vector is cut into pairs of elements, and each pair is rotated by an
//! angle that grows with the position of the vector in its sequence. Two ways
//! of pairing exist: neighbours (0, 1), (2, 3), ..., or opposite elements of
//! the two halves (0, n/2), (1, n/2 + 1), ....

use crate::numeric::{
    Real, is_cos, is_i32, is_minus, is_one, is_over, is_plus, is_positive, is_power, is_sin, is_times,
    is_usize,
};
use crate::rows::{lemma_append_row, lemma_row_bounds, row_of, row_slice};
use crate::tensor::{FloatTensor, lemma_elements};
use crate::text::{concatenated, decimal, with_number};
use vstd::prelude::*;
use vstd::string::*;

verus! {

/// How elements are paired.
#[derive(Debug, Clone, Copy, PartialEq, Eq, Structural)]
pub enum RoPELayout {
    /// Neighbours: (0, 1), (2, 3), ....
    Interleaved,
    /// Opposite elements of the two halves: (i, i + n/2).
    Halved,
}

/// The first element of pair `i` in a vector of `2 * half` elements.
pub open spec fn pair_first(layout: RoPELayout, half: int, i: int) -> int {
    match layout {
        RoPELayout::Interleaved => 2 * i,
        RoPELayout::Halved => i,
    }
}

/// The second element of pair `i`.
pub open spec fn pair_second(layout: RoPELayout, half: int, i: int) -> int {
    match layout {
        RoPELayout::Interleaved => 2 * i + 1,
        RoPELayout::Halved => i + half,
    }
}

/// Every element belongs to exactly one pair, on exactly one side of it.
pub proof fn every_element_is_in_one_pair(layout: RoPELayout, half: int, d: int) -> (i: int)
    requires
        0 <= d < 2 * half,
    ensures
        0 <= i < half,
        (pair_first(layout, half, i) == d) != (pair_second(layout, half, i) == d),
        forall|j: int|
            0 <= j < half && j != i ==> pair_first(layout, half, j) != d && #[trigger] pair_second(
                layout,
                half,
                j,
            ) != d,
{
    match layout {
        RoPELayout::Interleaved => d / 2,
        RoPELayout::Halved => if d < half {
            d
        } else {
            d - half
        },
    }
}

/// `f` is the frequency of pair `i`: `1 / base^(2 i / dim)`.
pub open spec fn is_frequency<T: Real>(base: T, dim: usize, i: usize, f: T) -> bool {
    exists|two: T, fi: T, a: T, fd: T, e: T, p: T, one: T|
        {
            &&& is_i32(2, two)
            &&& is_usize(i, fi)
            &&& #[trigger] is_times(two, fi, a)
            &&& is_usize(dim, fd)
            &&& #[trigger] is_over(a, fd, e)
            &&& #[trigger] is_power(base, e, p)
            &&& is_one(one)
            &&& #[trigger] is_over(one, p, f)
        }
}

/// (`y0`, `y1`) is (`x0`, `x1`) rotated by the angle with cosine `c` and sine
/// `s`.
pub open spec fn is_rotation<T: Real>(x0: T, x1: T, c: T, s: T, y0: T, y1: T) -> bool {
    exists|a: T, b: T, d: T, e: T|
        {
            &&& #[trigger] is_times(x0, c, a)
            &&& #[trigger] is_times(x1, s, b)
            &&& is_minus(a, b, y0)
            &&& #[trigger] is_times(x0, s, d)
            &&& #[trigger] is_times(x1, c, e)
            &&& is_plus(d, e, y1)
        }
}

/// (`y0`, `y1`) is (`x0`, `x1`) rotated by `pos` times the frequency `f`.
pub open spec fn is_rotated_pair<T: Real>(pos: T, f: T, x0: T, x1: T, y0: T, y1: T) -> bool {
    exists|angle: T, c: T, s: T|
        {
            &&& #[trigger] is_times(pos, f, angle)
            &&& #[trigger] is_cos(angle, c)
            &&& #[trigger] is_sin(angle, s)
            &&& is_rotation(x0, x1, c, s, y0, y1)
        }
}

/// Every pair of `xs` is rotated in `ys`.
pub open spec fn is_rotated_by<T: Real>(
    layout: RoPELayout,
    freqs: Seq<T>,
    pos: T,
    xs: Seq<T>,
    ys: Seq<T>,
) -> bool {
    let half = freqs.len() as int;
    &&& ys.len() == xs.len()
    &&& forall|i: int|
        0 <= i < half ==> is_rotated_pair(
            pos,
            #[trigger] freqs[i],
            xs[pair_first(layout, half, i)],
            xs[pair_second(layout, half, i)],
            ys[pair_first(layout, half, i)],
            ys[pair_second(layout, half, i)],
        )
}

/// A layer that rotates vectors of one length.
#[derive(Debug)]
pub struct RoPE<T: Real> {
    dim: usize,
    inv_freq: Vec<T>,
    layout: RoPELayout,
}

impl<T: Real> RoPE<T> {
    pub closed spec fn spec_dim(&self) -> usize {
        self.dim
    }

    pub closed spec fn spec_freqs(&self) -> Seq<T> {
        self.inv_freq@
    }

    pub closed spec fn spec_layout(&self) -> RoPELayout {
        self.layout
    }

    /// There is one frequency per pair.
    pub open spec fn wf(&self) -> bool {
        self.spec_dim() > 0 && self.spec_dim() == 2 * self.spec_freqs().len()
    }

    /// What the layer makes of a vector at a position.
    pub open spec fn is_forward(&self, xs: Seq<T>, pos: usize, ys: Seq<T>) -> bool {
        exists|p: T|
            #[trigger] is_usize(pos, p) && is_rotated_by(
                self.spec_layout(),
                self.spec_freqs(),
                p,
                xs,
                ys,
            )
    }

    /// What the layer makes of a vector that is made of `n` heads.
    pub open spec fn is_forward_heads(&self, xs: Seq<T>, n: int, pos: usize, ys: Seq<T>) -> bool {
        &&& ys.len() == xs.len()
        &&& forall|h: int|
            0 <= h < n ==> self.is_forward(
                row_of(xs, self.spec_dim() as int, h),
                pos,
                #[trigger] row_of(ys, self.spec_dim() as int, h),
            )
    }

    /// A layer that pairs neighbours.
    pub fn new(dim: usize, base: T) -> (r: Self)
        requires
            dim > 0,
            dim % 2 == 0,
            is_positive(base),
        ensures
            r.wf(),
            r.spec_dim() == dim,
            r.spec_layout() == RoPELayout::Interleaved,
            forall|i: int|
                0 <= i < r.spec_freqs().len() ==> is_frequency(
                    base,
                    dim,
                    i as usize,
                    #[trigger] r.spec_freqs()[i],
                ),
    {
        RoPE::with_layout(dim, base, RoPELayout::Interleaved)
    }

    /// A layer with a given pairing.
    pub fn with_layout(dim: usize, base: T, layout: RoPELayout) -> (r: Self)
        requires
            dim > 0,
            dim % 2 == 0,
            is_positive(base),
        ensures
            r.wf(),
            r.spec_dim() == dim,
            r.spec_layout() == layout,
            forall|i: int|
                0 <= i < r.spec_freqs().len() ==> is_frequency(
                    base,
                    dim,
                    i as usize,
                    #[trigger] r.spec_freqs()[i],
                ),
    {
        let half: usize = dim / 2;
        let mut inv_freq: Vec<T> = Vec::new();
        let mut i: usize = 0;
        while i < half
            invariant
                i <= half,
                inv_freq@.len() == i,
                forall|j: int|
                    0 <= j < i ==> is_frequency(base, dim, j as usize, #[trigger] inv_freq@[j]),
            decreases half - i,
        {
            let exponent = T::from_i32(2).times(T::from_usize(i)).over(T::from_usize(dim));
            let f = T::one().over(base.power(exponent));
            assert(is_frequency(base, dim, i, f));
            inv_freq.push(f);
            i += 1;
        }
        RoPE { dim, inv_freq, layout }
    }

    /// Length of the vectors.
    pub fn dim(&self) -> (n: usize)
        ensures
            n == self.spec_dim(),
    {
        self.dim
    }

    /// How elements are paired.
    pub fn layout(&self) -> (l: RoPELayout)
        ensures
            l == self.spec_layout(),
    {
        self.layout
    }

    /// The positions of the two elements of a pair.
    fn pair(&self, i: usize) -> (r: (usize, usize))
        requires
            self.wf(),
            i < self.spec_freqs().len(),
        ensures
            r.0 == pair_first(self.spec_layout(), self.spec_freqs().len() as int, i as int),
            r.1 == pair_second(self.spec_layout(), self.spec_freqs().len() as int, i as int),
            r.0 < self.spec_dim(),
            r.1 < self.spec_dim(),
            r.0 != r.1,
    {
        match self.layout {
            RoPELayout::Interleaved => (2 * i, 2 * i + 1),
            RoPELayout::Halved => (i, i + self.dim / 2),
        }
    }

    /// Rotate a vector.
    pub fn forward(&self, input: &[T], seq_pos: usize) -> (output: Vec<T>)
        requires
            self.wf(),
            input@.len() == self.spec_dim(),
        ensures
            self.is_forward(input@, seq_pos, output@),
            output@.len() == self.spec_dim(),
    {
        let mut output: Vec<T> = vstd::slice::slice_to_vec(input);
        self.forward_into(input, seq_pos, output.as_mut_slice());
        output
    }

    /// Rotate a vector into a buffer.
    pub fn forward_into(&self, input: &[T], seq_pos: usize, output: &mut [T])
        requires
            self.wf(),
            input@.len() == self.spec_dim(),
            old(output)@.len() == self.spec_dim(),
        ensures
            self.is_forward(input@, seq_pos, final(output)@),
            final(output)@.len() == self.spec_dim(),
    {
        let pos = T::from_usize(seq_pos);
        let ghost half = self.inv_freq@.len() as int;
        let mut i: usize = 0;
        while i < self.inv_freq.len()
            invariant
                self.wf(),
                half == self.inv_freq@.len(),
                input@.len() == self.spec_dim(),
                output@.len() == self.spec_dim(),
                i <= half,
                forall|j: int|
                    0 <= j < i ==> is_rotated_pair(
                        pos,
                        #[trigger] self.spec_freqs()[j],
                        input@[pair_first(self.spec_layout(), half, j)],
                        input@[pair_second(self.spec_layout(), half, j)],
                        output@[pair_first(self.spec_layout(), half, j)],
                        output@[pair_second(self.spec_layout(), half, j)],
                    ),
            decreases half - i,
        {
            let angle = pos.times(self.inv_freq[i]);
            let cos_a = angle.cos();
            let sin_a = angle.sin();
            let (first, second) = self.pair(i);
            let x0 = input[first];
            let x1 = input[second];
            let y0 = x0.times(cos_a).minus(x1.times(sin_a));
            let y1 = x0.times(sin_a).plus(x1.times(cos_a));
            assert(is_rotation(x0, x1, cos_a, sin_a, y0, y1));
            assert(is_rotated_pair(pos, self.spec_freqs()[i as int], x0, x1, y0, y1));
            output[first] = y0;
            output[second] = y1;
            i += 1;
        }
        assert(is_rotated_by(self.spec_layout(), self.spec_freqs(), pos, input@, output@));
    }

    /// Rotate a one-dimensional tensor.
    pub fn forward_tensor(&self, input: &FloatTensor<T>, seq_pos: usize) -> (output: FloatTensor<T>)
        requires
            self.wf(),
            input.spec_shape().len() == 1,
            input.spec_data().len() == self.spec_dim(),
        ensures
            self.is_forward(input.spec_data(), seq_pos, output.spec_data()),
            output.spec_shape() == seq![self.spec_dim()],
            output.wf(),
    {
        let out: Vec<T> = self.forward(input.data(), seq_pos);
        let mut shape: Vec<usize> = Vec::new();
        shape.push(self.dim);
        proof {
            lemma_elements(shape@);
        }
        FloatTensor::new(out, shape)
    }

    /// Rotate every head of a vector at one position.
    pub fn forward_heads(&self, input: &[T], n_heads: usize, seq_pos: usize) -> (output: Vec<T>)
        requires
            self.wf(),
            input@.len() == n_heads * self.spec_dim(),
        ensures
            self.is_forward_heads(input@, n_heads as int, seq_pos, output@),
            output@.len() == input@.len(),
    {
        let dim: usize = self.dim;
        let mut output: Vec<T> = Vec::new();
        let mut h: usize = 0;
        while h < n_heads
            invariant
                self.wf(),
                dim == self.spec_dim(),
                input@.len() == n_heads * dim,
                h <= n_heads,
                output@.len() == h * dim,
                forall|j: int|
                    0 <= j < h ==> self.is_forward(
                        row_of(input@, dim as int, j),
                        seq_pos,
                        #[trigger] row_of(output@, dim as int, j),
                    ),
            decreases n_heads - h,
        {
            proof {
                lemma_row_bounds(h as int, n_heads as int, dim as int);
            }
            let mut rotated: Vec<T> = self.forward(row_slice(input, dim, h), seq_pos);
            proof {
                lemma_append_row(output@, rotated@, dim as int, h as int);
            }
            output.append(&mut rotated);
            h += 1;
        }
        output
    }

    /// Rotate a sequence of vectors, each at its own position.
    pub fn forward_sequence(&self, input: &[T], seq_len: usize, start_pos: usize) -> (output: Vec<T>)
        requires
            self.wf(),
            input@.len() == seq_len * self.spec_dim(),
            start_pos + seq_len <= usize::MAX,
        ensures
            output@.len() == input@.len(),
            forall|t: int|
                0 <= t < seq_len ==> self.is_forward(
                    row_of(input@, self.spec_dim() as int, t),
                    (start_pos + t) as usize,
                    #[trigger] row_of(output@, self.spec_dim() as int, t),
                ),
    {
        let dim: usize = self.dim;
        let mut output: Vec<T> = Vec::new();
        let mut t: usize = 0;
        while t < seq_len
            invariant
                self.wf(),
                dim == self.spec_dim(),
                input@.len() == seq_len * dim,
                start_pos + seq_len <= usize::MAX,
                t <= seq_len,
                output@.len() == t * dim,
                forall|j: int|
                    0 <= j < t ==> self.is_forward(
                        row_of(input@, dim as int, j),
                        (start_pos + j) as usize,
                        #[trigger] row_of(output@, dim as int, j),
                    ),
            decreases seq_len - t,
        {
            proof {
                lemma_row_bounds(t as int, seq_len as int, dim as int);
            }
            let mut rotated: Vec<T> = self.forward(row_slice(input, dim, t), start_pos + t);
            proof {
                lemma_append_row(output@, rotated@, dim as int, t as int);
            }
            output.append(&mut rotated);
            t += 1;
        }
        output
    }

    /// The frequencies.
    pub fn inv_freq(&self) -> (f: &[T])
        ensures
            f@ == self.spec_freqs(),
    {
        self.inv_freq.as_slice()
    }
}

impl<T: Real> RoPE<T> {
    /// One line about an embedding.
    pub open spec fn description(&self) -> Seq<char> {
        "RoPE("@ + "dim="@ + decimal(self.spec_dim() as nat) + ", n_freqs="@ + decimal(
            self.spec_freqs().len(),
        ) + (if self.spec_layout() == RoPELayout::Interleaved {
            ", Interleaved)"@
        } else {
            ", Halved)"@
        })
    }

    /// One line about an embedding.
    pub fn describe(&self) -> (s: String)
        ensures
            s@ == self.description(),
    {
        let s: String = with_number(String::from_str("RoPE("), "dim=", self.dim);
        let s: String = with_number(s, ", n_freqs=", self.inv_freq.len());
        match self.layout {
            RoPELayout::Interleaved => concatenated(s.as_str(), ", Interleaved)"),
            RoPELayout::Halved => concatenated(s.as_str(), ", Halved)"),
        }
    }
}

} // verus!
