//! Ternary matrix-vector products by table lookup.
//!
//! Two weights have nine combinations. For a pair of activations `a0`, `a1`
//! the nine possible contributions are tabulated once, and the four bits that
//! encode the pair of weights select one of them:
//!
//! ```text
//! index  w0  w1  result
//! 0      -1  -1  -a0 - a1
//! 1      -1   0  -a0
//! 2      -1  +1  -a0 + a1
//! 3       0  -1       - a1
//! 4       0   0         0
//! 5       0  +1       + a1
//! 6      +1  -1  +a0 - a1
//! 7      +1   0  +a0
//! 8      +1  +1  +a0 + a1
//! ```
//!
//! The unused code 0b11 reads as zero here too, so that a pair selects the entry
//! of the two weights that its codes stand for.

use crate::ops::matmul::{
    accumulates, accumulator_fits, dot_product, is_product, lemma_accumulates, lemma_signed,
    partial_dot,
};
use crate::tensor::{
    TernaryTensor, decoded, lemma_row_in_range, packed_size, read_slot, slot_code, weight_value,
};
use vstd::prelude::*;

verus! {

/// The table index of a pair of codes, `w0` in bits 0-1 and `w1` in bits 2-3.
pub const PAIR_TO_LUT_INDEX: [usize; 16] = [0, 3, 6, 3, 1, 4, 7, 4, 2, 5, 8, 5, 1, 4, 7, 4];

/// The lookup kernel and the unpacking kernel give identical results on every
/// matrix, unused codes included.
pub proof fn kernels_agree(weights: TernaryTensor, xs: Seq<i8>, y_lut: Seq<i32>, y_i2s: Seq<i32>)
    requires
        is_product(weights, xs, y_lut),
        is_product(weights, xs, y_i2s),
    ensures
        y_lut == y_i2s,
{
    assert forall|row: int| 0 <= row < y_lut.len() implies y_lut[row] == y_i2s[row] by {}
    assert(y_lut =~= y_i2s);
}

/// Tabulate what each of the nine pairs of weights makes of two activations.
pub fn build_lut9(a0: i32, a1: i32) -> (lut: [i32; 9])
    requires
        i32::MIN < a0,
        i32::MIN < a1,
        i32::MIN <= a0 + a1 <= i32::MAX,
        i32::MIN <= -a0 - a1 <= i32::MAX,
        i32::MIN <= a0 - a1 <= i32::MAX,
        i32::MIN <= a1 - a0 <= i32::MAX,
    ensures
        forall|i: int|
            0 <= i < 9 ==> #[trigger] lut@[i] == (i / 3 - 1) * a0 + (i % 3 - 1) * a1,
{
    let lut: [i32; 9] = [-a0 - a1, -a0, -a0 + a1, -a1, 0, a1, a0 - a1, a0, a0 + a1];
    assert forall|i: int| 0 <= i < 9 implies #[trigger] lut@[i] == (i / 3 - 1) * a0 + (i % 3 - 1)
        * a1 by {
        assert(-1 * a0 == -a0 && -1 * a1 == -a1 && 0 * a0 == 0 && 0 * a1 == 0 && 1 * a0 == a0 && 1
            * a1 == a1) by (nonlinear_arith);
    }
    lut
}

/// The table entry of a pair of codes.
pub fn pair_index(code0: u8, code1: u8) -> (index: usize)
    requires
        code0 < 4,
        code1 < 4,
    ensures
        index == 3 * (weight_value(decoded(code0)) + 1) + weight_value(decoded(code1)) + 1,
        index < 9,
{
    assert((code0 | (code1 << 2)) == code0 + 4 * code1) by (bit_vector)
        requires
            code0 < 4,
            code1 < 4,
    ;
    PAIR_TO_LUT_INDEX[(code0 | (code1 << 2)) as usize]
}

/// Matrix-vector product by table lookup: y = W x.
pub fn lut_matvec(weights: &TernaryTensor, input: &[i8]) -> (output: Vec<i32>)
    requires
        weights.wf(),
        weights.spec_cols() == input@.len(),
        accumulator_fits(*weights, input@),
    ensures
        is_product(*weights, input@, output@),
{
    let rows: usize = weights.rows();
    let cols: usize = weights.cols();
    let mut output: Vec<i32> = Vec::new();
    let mut row: usize = 0;
    while row < rows
        invariant
            weights.wf(),
            rows == weights.spec_rows(),
            cols == weights.spec_cols() == input@.len(),
            accumulator_fits(*weights, input@),
            row <= rows,
            output@.len() == row,
            forall|r: int|
                0 <= r < row ==> #[trigger] output@[r] == dot_product(weights.row(r), input@),
        decreases rows - row,
    {
        assert(accumulates(weights.row(row as int), input@));
        let acc: i32 = lut_dot(weights, row, input, cols);
        output.push(acc);
        row += 1;
    }
    output
}

/// Inner product of one row with the activations by table lookup.
///
/// The slots of each byte are taken in pairs; one left over is multiplied on
/// its own.
#[verifier::rlimit(40)]
pub fn lut_dot(weights: &TernaryTensor, row: usize, input: &[i8], cols: usize) -> (acc: i32)
    requires
        weights.wf(),
        row < weights.spec_rows(),
        cols == weights.spec_cols() == input@.len(),
        accumulates(weights.row(row as int), input@),
    ensures
        acc == dot_product(weights.row(row as int), input@),
{
    let ghost ws = weights.row(row as int);
    let ghost first = row * cols;
    proof {
        lemma_row_in_range(row as int, weights.spec_rows() as int, cols as int);
    }
    let (bytes, start_offset, _vals_in_last) = weights.row_bytes(row);
    let mut acc: i32 = 0;
    let mut col: usize = 0;
    let mut byte_i: usize = 0;
    while byte_i < bytes.len()
        invariant
            weights.wf(),
            row < weights.spec_rows(),
            cols == weights.spec_cols() == input@.len(),
            ws == weights.row(row as int),
            accumulates(ws, input@),
            first == row * cols,
            0 <= first,
            first + cols <= weights.count(),
            bytes@ == weights.spec_data().subrange(first / 4, packed_size(first + cols)),
            start_offset == first % 4,
            byte_i <= bytes@.len(),
            col <= cols,
            col == cols || first + col == 4 * (first / 4 + byte_i) + if byte_i == 0 {
                start_offset as int
            } else {
                0
            },
            acc == partial_dot(ws, input@, col as nat),
        decreases bytes@.len() - byte_i,
    {
        let byte: u8 = bytes[byte_i];
        let slot_start: usize = if byte_i == 0 { start_offset } else { 0 };
        let mut slot: usize = slot_start;
        while slot < 3 && cols - col >= 2
            invariant
                weights.wf(),
                row < weights.spec_rows(),
                cols == weights.spec_cols() == input@.len(),
                ws == weights.row(row as int),
                accumulates(ws, input@),
                first == row * cols,
                0 <= first,
                first + cols <= weights.count(),
                byte_i < bytes@.len(),
                byte == weights.spec_data()[first / 4 + byte_i],
                slot_start == if byte_i == 0 { first % 4 } else { 0 },
                slot_start <= slot <= 4,
                (slot - slot_start) % 2 == 0,
                col <= cols,
                col == cols || first + col == 4 * (first / 4 + byte_i) + slot,
                acc == partial_dot(ws, input@, col as nat),
            decreases 4 - slot,
        {
            let code0: u8 = read_slot(byte, slot);
            let code1: u8 = read_slot(byte, slot + 1);
            let a0: i32 = input[col] as i32;
            let a1: i32 = input[col + 1] as i32;
            let lut: [i32; 9] = build_lut9(a0, a1);
            let index: usize = pair_index(code0, code1);
            proof {
                lemma_accumulates(ws, input@, (col + 2) as nat);
                lemma_pair(*weights, row as int, col as int, byte_i as int, slot as int);
                lemma_signed(ws[col as int], input@[col as int]);
                lemma_signed(ws[col + 1], input@[col + 1]);
                assert(partial_dot(ws, input@, (col + 2) as nat) == partial_dot(
                    ws,
                    input@,
                    (col + 1) as nat,
                ) + weight_value(ws[col + 1]) * input@[col + 1]);
                assert(lut@[index as int] == weight_value(decoded(code0)) * a0 + weight_value(
                    decoded(code1),
                ) * a1) by {
                    assert(-1 * a0 == -a0 && -1 * a1 == -a1 && 0 * a0 == 0 && 0 * a1 == 0 && 1 * a0
                        == a0 && 1 * a1 == a1) by (nonlinear_arith);
                }
            }
            acc = acc + lut[index];
            col += 2;
            slot += 2;
        }
        if slot < 4 && col < cols {
            let code: u8 = read_slot(byte, slot);
            proof {
                lemma_accumulates(ws, input@, (col + 1) as nat);
                assert((first + col) / 4 == first / 4 + byte_i);
                assert((first + col) % 4 == slot);
                assert(ws[col as int] == decoded(code));
            }
            acc = acc + scalar_ternary_mul(code, input[col]);
            col += 1;
        }
        byte_i += 1;
    }
    acc
}

proof fn lemma_pair(weights: TernaryTensor, row: int, col: int, byte_i: int, slot: int)
    requires
        0 <= col,
        col + 1 < weights.spec_cols(),
        0 <= byte_i,
        0 <= slot < 3,
        0 <= row * weights.spec_cols(),
        row * weights.spec_cols() + col == 4 * (row * weights.spec_cols() / 4 + byte_i) + slot,
    ensures
        ({
            let byte = weights.spec_data()[row * weights.spec_cols() / 4 + byte_i];
            &&& weights.row(row)[col] == decoded(slot_code(byte, slot))
            &&& weights.row(row)[col + 1] == decoded(slot_code(byte, slot + 1))
        }),
{
    let first = row * weights.spec_cols();
    assert((first + col) / 4 == first / 4 + byte_i && (first + col) % 4 == slot);
    assert((first + col + 1) / 4 == first / 4 + byte_i && (first + col + 1) % 4 == slot + 1);
}

/// Multiply a single leftover activation by its weight.
pub fn scalar_ternary_mul(weight_bits: u8, activation: i8) -> (r: i32)
    ensures
        r == weight_value(decoded(weight_bits)) * activation,
        -128 <= r <= 128,
{
    proof {
        lemma_signed(decoded(weight_bits), activation);
    }
    match weight_bits {
        0 => -(activation as i32),
        2 => activation as i32,
        _ => 0,
    }
}

} // verus!
