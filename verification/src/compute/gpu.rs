//! What goes to a GPU and what comes back: aligned buffers, sizes, and
//! little-endian accumulators.

use crate::layers::bitlinear::BitLinear;
use crate::numeric::{Real, is_times};
use crate::ops::matmul::{is_product, is_rescaled, rescale};
use crate::ops::quantize::{is_quantized, quantize_absmax};
use crate::tensor::TernaryTensor;
use vstd::prelude::*;

verus! {

/// `n` rounded up to a multiple of four.
pub open spec fn aligned(n: int) -> int {
    (n + 3) / 4 * 4
}

/// Bytes followed by zeros up to a multiple of four.
pub open spec fn padded(bytes: Seq<u8>) -> Seq<u8> {
    bytes + Seq::new((aligned(bytes.len() as int) - bytes.len()) as nat, |i: int| 0u8)
}

/// The byte that an 8-bit integer is stored as.
pub open spec fn byte_of(v: i8) -> u8 {
    if v < 0 {
        (v + 256) as u8
    } else {
        v as u8
    }
}

/// Activations as bytes.
pub open spec fn bytes_of(xs: Seq<i8>) -> Seq<u8> {
    xs.map_values(|v: i8| byte_of(v))
}

/// The integer that four little-endian bytes stand for.
pub open spec fn accumulator_of(b0: u8, b1: u8, b2: u8, b3: u8) -> int {
    let u = b0 + 256 * b1 + 65536 * b2 + 16777216 * b3;
    if u >= 0x8000_0000 {
        u - 0x1_0000_0000
    } else {
        u
    }
}

/// The integers that bytes stand for, four bytes each; bytes left over count
/// for nothing.
pub open spec fn accumulators_of(bytes: Seq<u8>) -> Seq<i32> {
    Seq::new(
        bytes.len() / 4,
        |i: int|
            accumulator_of(
                bytes[4 * i],
                bytes[4 * i + 1],
                bytes[4 * i + 2],
                bytes[4 * i + 3],
            ) as i32,
    )
}

/// The four little-endian bytes of an accumulator.
pub open spec fn le_bytes(v: i32) -> Seq<u8> {
    let u = if v < 0 {
        v + 0x1_0000_0000
    } else {
        v as int
    };
    seq![
        (u % 256) as u8,
        (u / 256 % 256) as u8,
        (u / 65536 % 256) as u8,
        (u / 16777216) as u8,
    ]
}

proof fn lemma_le_digits(u: int)
    requires
        0 <= u < 0x1_0000_0000,
    ensures
        u % 256 + 256 * (u / 256 % 256) + 65536 * (u / 65536 % 256) + 16777216 * (u / 16777216) == u,
        0 <= u / 16777216 < 256,
{
    assert(u / 65536 == (u / 256) / 256);
    assert(u / 16777216 == (u / 65536) / 256);
}

proof fn lemma_accumulator_roundtrips(v: i32)
    ensures
        ({
            let b = le_bytes(v);
            accumulator_of(b[0], b[1], b[2], b[3]) == v
        }),
{
    lemma_le_digits(
        if v < 0 {
            v + 0x1_0000_0000
        } else {
            v as int
        },
    );
}

/// The little-endian bytes of accumulators, one after the other.
pub open spec fn le_bytes_of(accs: Seq<i32>) -> Seq<u8> {
    Seq::new(4 * accs.len(), |k: int| le_bytes(accs[k / 4])[k % 4])
}

/// Reading the bytes of accumulators gives them back.
pub proof fn accumulators_roundtrip(accs: Seq<i32>)
    ensures
        accumulators_of(le_bytes_of(accs)) == accs,
{
    let bytes = le_bytes_of(accs);
    assert forall|i: int| 0 <= i < accs.len() implies accumulators_of(bytes)[i] == accs[i] by {
        lemma_accumulator_roundtrips(accs[i]);
        assert(bytes[4 * i] == le_bytes(accs[i])[0]);
        assert(bytes[4 * i + 1] == le_bytes(accs[i])[1]);
        assert(bytes[4 * i + 2] == le_bytes(accs[i])[2]);
        assert(bytes[4 * i + 3] == le_bytes(accs[i])[3]);
    }
    assert(accumulators_of(bytes) =~= accs);
}

/// Pad bytes to a multiple of four.
pub fn pad_to_u32(data: &[u8]) -> (r: Vec<u8>)
    ensures
        r@ == padded(data@),
{
    let mut r: Vec<u8> = vstd::slice::slice_to_vec(data);
    let rest: usize = data.len() % 4;
    if rest != 0 {
        let fill: usize = 4 - rest;
        let mut i: usize = 0;
        while i < fill
            invariant
                i <= fill,
                r@ == data@ + Seq::new(i as nat, |i: int| 0u8),
            decreases fill - i,
        {
            r.push(0);
            assert(r@ =~= data@ + Seq::new((i + 1) as nat, |i: int| 0u8));
            i += 1;
        }
    }
    assert(r@ =~= padded(data@));
    r
}

/// Activations as bytes, padded to a multiple of four.
pub fn pack_activations(input: &[i8]) -> (r: Vec<u8>)
    ensures
        r@ == padded(bytes_of(input@)),
{
    let mut bytes: Vec<u8> = Vec::new();
    let mut i: usize = 0;
    while i < input.len()
        invariant
            i <= input@.len(),
            bytes@.len() == i,
            forall|j: int| 0 <= j < i ==> #[trigger] bytes@[j] == byte_of(input@[j]),
        decreases input@.len() - i,
    {
        let v: i8 = input[i];
        let b: u8 = if v < 0 {
            (v as i16 + 256) as u8
        } else {
            v as u8
        };
        bytes.push(b);
        i += 1;
    }
    assert(bytes@ =~= bytes_of(input@));
    pad_to_u32(bytes.as_slice())
}

/// Read accumulators out of bytes.
pub fn read_accumulators(bytes: &[u8]) -> (accs: Vec<i32>)
    ensures
        accs@ == accumulators_of(bytes@),
{
    let n: usize = bytes.len() / 4;
    let total: usize = bytes.len();
    let mut accs: Vec<i32> = Vec::new();
    let mut i: usize = 0;
    while i < n
        invariant
            total == bytes@.len(),
            n == total / 4,
            i <= n,
            accs@.len() == i,
            forall|j: int| 0 <= j < i ==> #[trigger] accs@[j] == accumulators_of(bytes@)[j],
        decreases n - i,
    {
        let u: i64 = bytes[4 * i] as i64 + 256 * (bytes[4 * i + 1] as i64) + 65536 * (bytes[4 * i
            + 2] as i64) + 16777216 * (bytes[4 * i + 3] as i64);
        let v: i64 = if u >= 0x8000_0000 {
            u - 0x1_0000_0000
        } else {
            u
        };
        accs.push(v as i32);
        i += 1;
    }
    assert(accs@ =~= accumulators_of(bytes@));
    accs
}

/// Everything a GPU needs for one matrix-vector product.
pub struct MatvecJob {
    /// Packed weights, padded.
    pub weight_bytes: Vec<u8>,
    /// Activations, padded.
    pub act_bytes: Vec<u8>,
    /// Size of the output in bytes.
    pub output_size: u64,
    /// Rows of the matrix, and number of work groups.
    pub rows: u32,
    /// Columns of the matrix.
    pub cols: u32,
}

/// Prepare a product for the GPU. There is nothing to send where the matrix
/// has no elements: the product is then all zeros.
pub fn prepare_matvec(weights: &TernaryTensor, input: &[i8]) -> (job: Option<MatvecJob>)
    requires
        weights.spec_rows() <= u32::MAX,
        weights.spec_cols() <= u32::MAX,
    ensures
        match job {
            Some(j) => {
                &&& weights.spec_rows() > 0
                &&& weights.spec_cols() > 0
                &&& j.weight_bytes@ == padded(weights.spec_data())
                &&& j.act_bytes@ == padded(bytes_of(input@))
                &&& j.output_size == 4 * weights.spec_rows()
                &&& j.rows == weights.spec_rows()
                &&& j.cols == weights.spec_cols()
            },
            None => weights.spec_rows() == 0 || weights.spec_cols() == 0,
        },
{
    let rows: usize = weights.rows();
    let cols: usize = weights.cols();
    if rows == 0 || cols == 0 {
        return None;
    }
    Some(
        MatvecJob {
            weight_bytes: pad_to_u32(weights.packed_data()),
            act_bytes: pack_activations(input),
            output_size: rows as u64 * 4,
            rows: rows as u32,
            cols: cols as u32,
        },
    )
}

/// Everything a GPU that already holds the weights of a layer needs to apply
/// it to a vector.
pub struct LinearJob<T: Real> {
    /// Quantized activations, padded.
    pub act_bytes: Vec<u8>,
    /// Scale of the activations.
    pub act_scale: T,
    /// Size of the output in bytes.
    pub output_size: u64,
    /// Rows of the matrix, and number of work groups.
    pub rows: u32,
    /// Columns of the matrix.
    pub cols: u32,
}

/// Activations are sent as the quantization `qs` of a vector.
pub open spec fn sends<T: Real>(job: LinearJob<T>, xs: Seq<T>, qs: Seq<i8>) -> bool {
    is_quantized(xs, qs, job.act_scale) && job.act_bytes@ == padded(bytes_of(qs))
}

/// Prepare to apply a layer whose weights the GPU holds.
pub fn prepare_linear<T: Real>(rows: usize, cols: usize, input: &[T]) -> (job: LinearJob<T>)
    requires
        rows <= u32::MAX,
        cols <= u32::MAX,
        cols == input@.len(),
    ensures
        exists|qs: Seq<i8>| #[trigger] sends(job, input@, qs),
        job.output_size == 4 * rows,
        job.rows == rows,
        job.cols == cols,
{
    let (qs, act_scale) = quantize_absmax(input);
    let job = LinearJob {
        act_bytes: pack_activations(qs.as_slice()),
        act_scale,
        output_size: rows as u64 * 4,
        rows: rows as u32,
        cols: cols as u32,
    };
    assert(sends(job, input@, qs@));
    job
}

/// `ys` holds accumulators that a GPU wrote, scaled back to numbers.
pub open spec fn is_finished<T: Real>(
    bytes: Seq<u8>,
    act_scale: T,
    weight_scale: T,
    ys: Seq<T>,
) -> bool {
    exists|combined: T|
        is_times(act_scale, weight_scale, combined) && #[trigger] is_rescaled(
            accumulators_of(bytes),
            combined,
            ys,
        )
}

/// Scale accumulators that a GPU wrote back to numbers.
pub fn finish_linear<T: Real>(bytes: &[u8], act_scale: T, weight_scale: T) -> (ys: Vec<T>)
    ensures
        is_finished(bytes@, act_scale, weight_scale, ys@),
{
    let accs: Vec<i32> = read_accumulators(bytes);
    let combined = act_scale.times(weight_scale);
    let ys: Vec<T> = rescale(accs.as_slice(), combined);
    assert(is_rescaled(accumulators_of(bytes@), combined, ys@));
    ys
}

/// If the GPU writes the product of the weights with the activations it was
/// sent, then a layer on the GPU does what the layer does on the processor.
pub proof fn gpu_layer_agrees<T: Real>(
    layer: BitLinear<T>,
    job: LinearJob<T>,
    xs: Seq<T>,
    qs: Seq<i8>,
    bytes: Seq<u8>,
    ys: Seq<T>,
)
    requires
        sends(job, xs, qs),
        is_product(layer.spec_weights(), qs, accumulators_of(bytes)),
        is_finished(bytes, job.act_scale, layer.spec_weight_scale(), ys),
    ensures
        layer.is_forward(xs, ys),
{
    assert(is_quantized(xs, qs, job.act_scale));
}

/// Distinct activations are sent as distinct bytes.
pub proof fn activation_bytes_are_distinct(a: i8, b: i8)
    requires
        a != b,
    ensures
        byte_of(a) != byte_of(b),
{
}

/// Sizes in bytes of the scratch buffers for `n_tokens` tokens: packed
/// activations of the widest layer, and one scale per token.
pub fn scratch_sizes(n_tokens: usize, embed_dim: usize, intermediate: usize) -> (r: (u64, u64))
    requires
        embed_dim <= usize::MAX - 3,
        intermediate <= usize::MAX - 3,
        n_tokens * (aligned(embed_dim as int) / 4) <= usize::MAX,
        n_tokens * (aligned(intermediate as int) / 4) <= usize::MAX,
        n_tokens * aligned(embed_dim as int) <= u64::MAX,
        n_tokens * aligned(intermediate as int) <= u64::MAX,
        4 * n_tokens <= u64::MAX,
    ensures
        r.0 == n_tokens * aligned(
            if embed_dim >= intermediate {
                embed_dim as int
            } else {
                intermediate as int
            },
        ),
        r.1 == 4 * n_tokens,
{
    let widest: usize = if embed_dim >= intermediate {
        embed_dim
    } else {
        intermediate
    };
    let words: usize = (widest + 3) / 4;
    proof {
        assert(n_tokens * (words * 4) == n_tokens * words * 4) by (nonlinear_arith);
        assert(0 <= n_tokens * words <= n_tokens * words * 4) by (nonlinear_arith);
    }
    ((n_tokens * words) as u64 * 4, n_tokens as u64 * 4)
}

/// Rows of the output that one work group covers.
pub const TILE_M: usize = 32;

/// Tokens that one work group covers.
pub const TILE_N: usize = 16;

/// The grid of work groups for a batched product: just enough tiles to cover
/// every row and every token.
pub fn dispatch_grid(rows: usize, n_tokens: usize) -> (r: (u32, u32))
    requires
        rows <= u32::MAX,
        n_tokens <= u32::MAX,
        rows <= usize::MAX - 31,
        n_tokens <= usize::MAX - 15,
    ensures
        r.0 == (rows + 31) / 32,
        r.1 == (n_tokens + 15) / 16,
        TILE_M * r.0 >= rows,
        TILE_N * r.1 >= n_tokens,
{
    let dx: usize = (rows + (TILE_M - 1)) / TILE_M;
    let dy: usize = (n_tokens + (TILE_N - 1)) / TILE_N;
    (dx as u32, dy as u32)
}

} // verus!
