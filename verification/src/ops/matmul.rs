//! Ternary matrix-vector products by unpacking two-bit weights.
//!
//! For a weight matrix W and an activation vector x, computes y = W x where a
//! weight of +1 adds its activation to the accumulator, -1 subtracts it and 0
//! skips it. No multiplication takes place.

use crate::numeric::{Real, is_i32, is_times};
use crate::tensor::{
    ActivationTensor, Ternary, TernaryTensor, decoded, lemma_row_in_range, packed_size, read_slot,
    weight_value,
};
use vstd::prelude::*;

verus! {

/// The sum of the first `k` weighted activations.
pub open spec fn partial_dot(ws: Seq<Ternary>, xs: Seq<i8>, k: nat) -> int
    decreases k,
{
    if k == 0 {
        0
    } else {
        partial_dot(ws, xs, (k - 1) as nat) + weight_value(ws[k - 1]) * xs[k - 1]
    }
}

/// The inner product of a row of weights and an activation vector.
pub open spec fn dot_product(ws: Seq<Ternary>, xs: Seq<i8>) -> int {
    partial_dot(ws, xs, ws.len())
}

/// So many columns fit a 32-bit accumulator whatever the activations are.
pub const SAFE_COLS: usize = 16_777_215;

/// So many columns fit a 32-bit accumulator where no activation is -128, as
/// quantization has it.
pub const SAFE_QUANTIZED_COLS: usize = 16_909_320;

/// A 32-bit accumulator can hold every partial sum of a row: there are few
/// enough columns, or the activations happen to be small enough.
pub open spec fn accumulates(ws: Seq<Ternary>, xs: Seq<i8>) -> bool {
    ||| ws.len() <= SAFE_COLS
    ||| forall|k: nat| k <= ws.len() ==> i32::MIN <= #[trigger] partial_dot(ws, xs, k) <= i32::MAX
}

/// Every row of a matrix accumulates in 32 bits.
pub open spec fn accumulator_fits(weights: TernaryTensor, xs: Seq<i8>) -> bool {
    ||| weights.spec_cols() <= SAFE_COLS
    ||| forall|row: int|
        0 <= row < weights.spec_rows() ==> accumulates(#[trigger] weights.row(row), xs)
}

/// The product of a matrix and a vector.
pub open spec fn is_product(weights: TernaryTensor, xs: Seq<i8>, ys: Seq<i32>) -> bool {
    &&& ys.len() == weights.spec_rows()
    &&& forall|row: int| 0 <= row < ys.len() ==> #[trigger] ys[row] == dot_product(weights.row(row), xs)
}

/// A partial sum of `k` terms is at most 128 `k` away from zero, and at most
/// 127 `k` where no activation is -128.
pub proof fn partial_sums_are_bounded(ws: Seq<Ternary>, xs: Seq<i8>, k: nat)
    ensures
        -128 * k <= partial_dot(ws, xs, k) <= 128 * k,
        (forall|i: int| 0 <= i < k ==> -127 <= #[trigger] xs[i]) ==> -127 * k <= partial_dot(ws, xs, k)
            <= 127 * k,
    decreases k,
{
    if k > 0 {
        partial_sums_are_bounded(ws, xs, (k - 1) as nat);
        let x = xs[k - 1] as int;
        let w = weight_value(ws[k - 1]);
        assert(w * x == -x || w * x == 0 || w * x == x) by (nonlinear_arith)
            requires
                w == -1 || w == 0 || w == 1,
        ;
    }
}

pub proof fn lemma_accumulates(ws: Seq<Ternary>, xs: Seq<i8>, k: nat)
    requires
        accumulates(ws, xs),
        k <= ws.len(),
    ensures
        i32::MIN <= partial_dot(ws, xs, k) <= i32::MAX,
{
    partial_sums_are_bounded(ws, xs, k);
}

/// Activations without -128 accumulate in somewhat longer rows.
pub proof fn quantized_rows_accumulate(weights: TernaryTensor, xs: Seq<i8>)
    requires
        weights.spec_cols() <= SAFE_QUANTIZED_COLS,
        weights.spec_cols() == xs.len(),
        forall|i: int| 0 <= i < xs.len() ==> -127 <= #[trigger] xs[i],
    ensures
        accumulator_fits(weights, xs),
{
    assert forall|row: int| 0 <= row < weights.spec_rows() implies accumulates(
        #[trigger] weights.row(row),
        xs,
    ) by {
        let ws = weights.row(row);
        assert forall|k: nat| k <= ws.len() implies i32::MIN <= #[trigger] partial_dot(ws, xs, k)
            <= i32::MAX by {
            partial_sums_are_bounded(ws, xs, k);
        }
    }
}

/// Swapping a matrix for one with the same weights leaves the product alone.
pub proof fn product_depends_on_weights_only(
    a: TernaryTensor,
    b: TernaryTensor,
    xs: Seq<i8>,
    ya: Seq<i32>,
    yb: Seq<i32>,
)
    requires
        a.spec_rows() == b.spec_rows(),
        forall|row: int| 0 <= row < a.spec_rows() ==> #[trigger] a.row(row) == b.row(row),
        is_product(a, xs, ya),
        is_product(b, xs, yb),
    ensures
        ya == yb,
{
    assert forall|row: int| 0 <= row < ya.len() implies ya[row] == yb[row] by {
        assert(a.row(row) == b.row(row));
    }
    assert(ya =~= yb);
}

/// Ternary matrix-vector product: y = W x.
pub fn ternary_matvec(weights: &TernaryTensor, input: &[i8]) -> (output: Vec<i32>)
    requires
        weights.wf(),
        weights.spec_cols() == input@.len(),
        accumulator_fits(*weights, input@),
    ensures
        is_product(*weights, input@, output@),
{
    let rows: usize = weights.rows();
    let cols: usize = weights.cols();
    let mut output: Vec<i32> = Vec::new();
    let mut row: usize = 0;
    while row < rows
        invariant
            weights.wf(),
            rows == weights.spec_rows(),
            cols == weights.spec_cols() == input@.len(),
            accumulator_fits(*weights, input@),
            row <= rows,
            output@.len() == row,
            forall|r: int| 0 <= r < row ==> #[trigger] output@[r] == dot_product(weights.row(r), input@),
        decreases rows - row,
    {
        assert(accumulates(weights.row(row as int), input@));
        let acc: i32 = ternary_dot_i2s(weights, row, input, cols);
        output.push(acc);
        row += 1;
    }
    output
}

/// Inner product of one row of weights with the activations, byte by byte.
///
/// The first byte may begin with slots of the row before, which are skipped.
pub fn ternary_dot_i2s(weights: &TernaryTensor, row: usize, input: &[i8], cols: usize) -> (acc: i32)
    requires
        weights.wf(),
        row < weights.spec_rows(),
        cols == weights.spec_cols() == input@.len(),
        accumulates(weights.row(row as int), input@),
    ensures
        acc == dot_product(weights.row(row as int), input@),
{
    let ghost ws = weights.row(row as int);
    let ghost first = row * cols;
    proof {
        lemma_row_in_range(row as int, weights.spec_rows() as int, cols as int);
    }
    let (bytes, start_offset, _vals_in_last) = weights.row_bytes(row);
    let mut acc: i32 = 0;
    let mut col: usize = 0;
    let mut byte_i: usize = 0;
    while byte_i < bytes.len()
        invariant
            weights.wf(),
            row < weights.spec_rows(),
            cols == weights.spec_cols() == input@.len(),
            ws == weights.row(row as int),
            accumulates(ws, input@),
            first == row * cols,
            0 <= first,
            first + cols <= weights.count(),
            bytes@ == weights.spec_data().subrange(first / 4, packed_size(first + cols)),
            start_offset == first % 4,
            byte_i <= bytes@.len(),
            col <= cols,
            col == cols || first + col == 4 * (first / 4 + byte_i) + if byte_i == 0 {
                start_offset as int
            } else {
                0
            },
            acc == partial_dot(ws, input@, col as nat),
        decreases bytes@.len() - byte_i,
    {
        let byte: u8 = bytes[byte_i];
        let mut slot: usize = if byte_i == 0 { start_offset } else { 0 };
        while slot < 4 && col < cols
            invariant
                weights.wf(),
                row < weights.spec_rows(),
                cols == weights.spec_cols() == input@.len(),
                ws == weights.row(row as int),
                accumulates(ws, input@),
                first == row * cols,
                0 <= first,
                first + cols <= weights.count(),
                byte_i < bytes@.len(),
                byte == weights.spec_data()[first / 4 + byte_i],
                slot <= 4,
                col <= cols,
                col == cols || first + col == 4 * (first / 4 + byte_i) + slot,
                acc == partial_dot(ws, input@, col as nat),
            decreases 4 - slot,
        {
            let code: u8 = read_slot(byte, slot);
            proof {
                lemma_accumulates(ws, input@, (col + 1) as nat);
                assert((first + col) / 4 == first / 4 + byte_i);
                assert((first + col) % 4 == slot);
                assert(ws[col as int] == decoded(code));
                lemma_signed(ws[col as int], input@[col as int]);
            }
            acc = acc + ternary_mul_i8(code, input[col]);
            col += 1;
            slot += 1;
        }
        byte_i += 1;
    }
    acc
}

pub proof fn lemma_signed(w: Ternary, x: i8)
    ensures
        weight_value(w) * x == match w {
            Ternary::Neg => -x,
            Ternary::Zero => 0,
            Ternary::Pos => x as int,
        },
{
    assert(-1 * x == -x && 0 * x == 0 && 1 * x == x) by (nonlinear_arith);
}

/// Ternary "multiplication" of an activation by a two-bit code: negate, drop
/// or keep.
pub fn ternary_mul_i8(weight_bits: u8, activation: i8) -> (r: i32)
    ensures
        r == weight_value(decoded(weight_bits)) * activation,
        -128 <= r <= 128,
{
    proof {
        lemma_signed(decoded(weight_bits), activation);
    }
    match weight_bits {
        0 => -(activation as i32),
        2 => activation as i32,
        _ => 0,
    }
}

/// `y` is an accumulator turned into a number and scaled.
pub open spec fn is_rescaled_element<T: Real>(acc: i32, scale: T, y: T) -> bool {
    exists|f: T| #[trigger] is_i32(acc, f) && is_times(f, scale, y)
}

/// `ys` holds accumulators turned into numbers and scaled.
pub open spec fn is_rescaled<T: Real>(accs: Seq<i32>, scale: T, ys: Seq<T>) -> bool {
    &&& ys.len() == accs.len()
    &&& forall|i: int| 0 <= i < accs.len() ==> is_rescaled_element(accs[i], scale, #[trigger] ys[i])
}

/// `ys` is the product of a matrix with quantized activations, scaled by the
/// scales of both.
pub open spec fn is_scaled_product<T: Real>(
    weights: TernaryTensor,
    xs: Seq<i8>,
    scale: T,
    weight_scale: T,
    ys: Seq<T>,
) -> bool {
    exists|accs: Seq<i32>, combined: T|
        #[trigger] is_product(weights, xs, accs) && is_times(scale, weight_scale, combined)
            && #[trigger] is_rescaled(accs, combined, ys)
}

/// Turn accumulators into numbers and scale them.
pub fn rescale<T: Real>(accs: &[i32], scale: T) -> (ys: Vec<T>)
    ensures
        is_rescaled(accs@, scale, ys@),
{
    let mut ys: Vec<T> = Vec::new();
    let mut i: usize = 0;
    while i < accs.len()
        invariant
            i <= accs@.len(),
            ys@.len() == i,
            forall|j: int| 0 <= j < i ==> is_rescaled_element(accs@[j], scale, #[trigger] ys@[j]),
        decreases accs@.len() - i,
    {
        let f = T::from_i32(accs[i]);
        let y = f.times(scale);
        assert(is_rescaled_element(accs@[i as int], scale, y));
        ys.push(y);
        i += 1;
    }
    ys
}

/// Ternary product with quantized activations, scaled back to numbers.
pub fn ternary_matvec_scaled<T: Real>(
    weights: &TernaryTensor,
    input: &ActivationTensor<T>,
    weight_scale: T,
) -> (output: Vec<T>)
    requires
        weights.wf(),
        weights.spec_cols() == input.spec_data().len(),
        accumulator_fits(*weights, input.spec_data()),
    ensures
        is_scaled_product(
            *weights,
            input.spec_data(),
            input.spec_scale(),
            weight_scale,
            output@,
        ),
{
    let raw: Vec<i32> = ternary_matvec(weights, input.data());
    let combined = input.scale().times(weight_scale);
    rescale(raw.as_slice(), combined)
}

/// Ternary products of one matrix with several vectors.
pub fn ternary_matmul_batch(weights: &TernaryTensor, inputs: &[&[i8]]) -> (outputs: Vec<Vec<i32>>)
    requires
        weights.wf(),
        forall|i: int|
            0 <= i < inputs@.len() ==> {
                &&& (#[trigger] inputs@[i])@.len() == weights.spec_cols()
                &&& accumulator_fits(*weights, inputs@[i]@)
            },
    ensures
        outputs@.len() == inputs@.len(),
        forall|i: int|
            0 <= i < outputs@.len() ==> is_product(*weights, inputs@[i]@, #[trigger] outputs@[i]@),
{
    let mut outputs: Vec<Vec<i32>> = Vec::new();
    let mut i: usize = 0;
    while i < inputs.len()
        invariant
            weights.wf(),
            forall|i: int|
                0 <= i < inputs@.len() ==> {
                    &&& (#[trigger] inputs@[i])@.len() == weights.spec_cols()
                    &&& accumulator_fits(*weights, inputs@[i]@)
                },
            i <= inputs@.len(),
            outputs@.len() == i,
            forall|j: int|
                0 <= j < i ==> is_product(*weights, inputs@[j]@, #[trigger] outputs@[j]@),
        decreases inputs@.len() - i,
    {
        let x: &[i8] = inputs[i];
        outputs.push(ternary_matvec(weights, x));
        i += 1;
    }
    outputs
}

} // verus!
