//! Blocked backend: 32 weights at a time.
//!
//! Eight packed bytes are expanded into 32 signs by looking up each half-byte
//! in two 16-entry tables. A block of 32 activations is then negated, dropped
//! or kept under those signs and summed. Columns past the last whole block are
//! handled one by one, as are rows that do not start at a byte boundary.

use crate::compute::ComputeBackend;
use crate::ops::matmul::{
    accumulates, accumulator_fits, dot_product, is_product, lemma_accumulates, lemma_signed,
    partial_dot, ternary_dot_i2s, ternary_mul_i8,
};
use crate::tensor::{
    Ternary, TernaryTensor, decoded, lemma_row_in_range, packed_size, read_slot, slot_code,
    weight_value,
};
use vstd::prelude::*;

verus! {

/// The blocked backend.
#[derive(Debug, Clone, Copy)]
pub struct Avx2Backend;

/// The sign of the weight in slot `i % 4` of byte `i / 4`, where that byte is
/// among the first eight; zero where it is missing.
pub open spec fn sign_at(packed: Seq<u8>, i: int) -> int {
    if i / 4 < packed.len() {
        weight_value(decoded(slot_code(packed[i / 4], i % 4)))
    } else {
        0
    }
}

/// Sign of the low two bits of a half-byte.
const LUT_LO: [i8; 16] = [-1, 0, 1, 0, -1, 0, 1, 0, -1, 0, 1, 0, -1, 0, 1, 0];

/// Sign of the high two bits of a half-byte.
const LUT_HI: [i8; 16] = [-1, -1, -1, -1, 0, 0, 0, 0, 1, 1, 1, 1, 0, 0, 0, 0];

/// Expand eight packed bytes into 32 signs, by table lookup per half-byte.
pub fn unpack_32_ternary_simd(packed: &[u8]) -> (signs: [i8; 32])
    requires
        8 <= packed@.len(),
    ensures
        forall|i: int| 0 <= i < 32 ==> #[trigger] signs@[i] == sign_at(packed@, i),
{
    let mut signs: [i8; 32] = [0i8; 32];
    let mut b: usize = 0;
    while b < 8
        invariant
            b <= 8 <= packed@.len(),
            forall|i: int| 0 <= i < 4 * b ==> #[trigger] signs@[i] == sign_at(packed@, i),
        decreases 8 - b,
    {
        let byte: u8 = packed[b];
        let lo: u8 = byte & 0x0F;
        let hi: u8 = (byte >> 4) & 0x0F;
        assert(lo < 16 && hi < 16 && lo % 4 == byte % 4 && lo / 4 == (byte / 4) % 4 && hi % 4 == (byte
            / 16) % 4 && hi / 4 == (byte / 64) % 4) by (bit_vector)
            requires
                lo == byte & 0x0F,
                hi == (byte >> 4) & 0x0F,
        ;
        signs[4 * b] = LUT_LO[lo as usize];
        signs[4 * b + 1] = LUT_HI[lo as usize];
        signs[4 * b + 2] = LUT_LO[hi as usize];
        signs[4 * b + 3] = LUT_HI[hi as usize];
        proof {
            assert forall|n: int| 0 <= n < 16 implies #[trigger] LUT_LO@[n] == weight_value(
                decoded((n % 4) as u8),
            ) && LUT_HI@[n] == weight_value(decoded((n / 4) as u8)) by {}
            assert(LUT_LO@[lo as int] == weight_value(decoded((lo % 4) as u8)));
            assert(LUT_LO@[hi as int] == weight_value(decoded((hi % 4) as u8)));
        }
        b += 1;
    }
    signs
}

/// Expand up to eight packed bytes into 32 signs, slot by slot.
pub fn unpack_32_ternary_scalar(packed: &[u8]) -> (signs: [i8; 32])
    ensures
        forall|i: int| 0 <= i < 32 ==> #[trigger] signs@[i] == sign_at(packed@, i),
{
    let mut signs: [i8; 32] = [0i8; 32];
    let mut i: usize = 0;
    while i < 32 && i / 4 < packed.len()
        invariant
            i <= 32,
            forall|j: int| 0 <= j < i ==> #[trigger] signs@[j] == sign_at(packed@, j),
            forall|j: int| i <= j < 32 ==> #[trigger] signs@[j] == 0,
        decreases 32 - i,
    {
        let code: u8 = read_slot(packed[i / 4], i % 4);
        signs[i] = match code {
            0 => -1,
            2 => 1,
            _ => 0,
        };
        i += 1;
    }
    signs
}

/// The two ways of expanding eight bytes give the same signs.
pub proof fn unpackers_agree(packed: Seq<u8>, a: Seq<i8>, b: Seq<i8>)
    requires
        a.len() == 32,
        b.len() == 32,
        forall|i: int| 0 <= i < 32 ==> #[trigger] a[i] == sign_at(packed, i),
        forall|i: int| 0 <= i < 32 ==> #[trigger] b[i] == sign_at(packed, i),
    ensures
        a == b,
{
    assert(a =~= b);
}

/// Sum of a block of activations under a block of signs.
///
/// `ws` and `xs` are the row and the activations that the block is cut from at
/// column `col`.
fn block_sum(
    signs: &[i8; 32],
    block: &[i8],
    Ghost(ws): Ghost<Seq<Ternary>>,
    Ghost(xs): Ghost<Seq<i8>>,
    Ghost(col): Ghost<nat>,
) -> (total: i32)
    requires
        col + 32 <= ws.len() == xs.len(),
        block@ == xs.subrange(col as int, (col + 32) as int),
        forall|i: int| 0 <= i < 32 ==> #[trigger] signs@[i] == weight_value(ws[col + i]),
    ensures
        total == partial_dot(ws, xs, col + 32) - partial_dot(ws, xs, col),
{
    let mut total: i32 = 0;
    let mut i: usize = 0;
    while i < 32
        invariant
            i <= 32,
            col + 32 <= ws.len() == xs.len(),
            block@ == xs.subrange(col as int, (col + 32) as int),
            forall|i: int| 0 <= i < 32 ==> #[trigger] signs@[i] == weight_value(ws[col + i]),
            total == partial_dot(ws, xs, (col + i) as nat) - partial_dot(ws, xs, col),
            -128 * i <= total <= 128 * i,
        decreases 32 - i,
    {
        let x: i32 = block[i] as i32;
        let sign: i8 = signs[i];
        proof {
            lemma_signed(ws[col + i], xs[col + i]);
        }
        let product: i32 = if sign < 0 {
            -x
        } else if sign > 0 {
            x
        } else {
            0
        };
        total = total + product;
        i += 1;
    }
    total
}

proof fn lemma_place_in_block(first: int, col: int, i: int)
    requires
        0 <= first,
        0 <= col,
        0 <= i,
        first % 4 == 0,
        col % 4 == 0,
    ensures
        (first + col + i) / 4 == first / 4 + col / 4 + i / 4,
        (first + col + i) % 4 == i % 4,
{
}

/// A block of a row that starts at a byte boundary has the signs of its bytes.
proof fn lemma_block_signs(weights: TernaryTensor, row: int, col: int, packed: Seq<u8>, i: int)
    requires
        0 <= row,
        0 <= col,
        0 <= i < 32,
        col + 32 <= weights.spec_cols(),
        (row * weights.spec_cols()) % 4 == 0,
        0 <= row * weights.spec_cols(),
        col % 4 == 0,
        packed.len() == 8,
        forall|k: int|
            0 <= k < 8 ==> #[trigger] packed[k] == weights.spec_data()[(row * weights.spec_cols())
                / 4 + col / 4 + k],
    ensures
        sign_at(packed, i) == weight_value(weights.row(row)[col + i]),
{
    lemma_place_in_block(row * weights.spec_cols(), col, i);
    assert(packed[i / 4] == weights.spec_data()[(row * weights.spec_cols()) / 4 + col / 4 + i / 4]);
}

/// Inner product of a row that starts at a byte boundary.
fn aligned_dot(weights: &TernaryTensor, row: usize, input: &[i8]) -> (acc: i32)
    requires
        weights.wf(),
        row < weights.spec_rows(),
        weights.spec_cols() == input@.len(),
        (row * weights.spec_cols()) % 4 == 0,
        accumulates(weights.row(row as int), input@),
    ensures
        acc == dot_product(weights.row(row as int), input@),
{
    let cols: usize = weights.cols();
    let ghost ws = weights.row(row as int);
    let ghost first = row * cols;
    proof {
        lemma_row_in_range(row as int, weights.spec_rows() as int, cols as int);
    }
    let (bytes, _start_offset, _vals_in_last) = weights.row_bytes(row);
    let mut acc: i32 = 0;
    let mut col: usize = 0;
    while cols - col >= 32
        invariant
            weights.wf(),
            row < weights.spec_rows(),
            cols == weights.spec_cols() == input@.len(),
            ws == weights.row(row as int),
            accumulates(ws, input@),
            first == row * cols,
            0 <= first,
            first % 4 == 0,
            first + cols <= weights.count(),
            bytes@ == weights.spec_data().subrange(first / 4, packed_size(first + cols)),
            col <= cols,
            col % 4 == 0,
            acc == partial_dot(ws, input@, col as nat),
        decreases cols - col,
    {
        let start: usize = col / 4;
        let packed: &[u8] = vstd::slice::slice_subrange(bytes, start, start + 8);
        let signs: [i8; 32] = unpack_32_ternary_simd(packed);
        let block: &[i8] = vstd::slice::slice_subrange(input, col, col + 32);
        assert forall|i: int| 0 <= i < 32 implies #[trigger] signs@[i] == weight_value(ws[col + i]) by {
            lemma_block_signs(*weights, row as int, col as int, packed@, i);
        }
        let total: i32 = block_sum(&signs, block, Ghost(ws), Ghost(input@), Ghost(col as nat));
        proof {
            lemma_accumulates(ws, input@, (col + 32) as nat);
        }
        acc = acc + total;
        col += 32;
    }
    while col < cols
        invariant
            weights.wf(),
            row < weights.spec_rows(),
            cols == weights.spec_cols() == input@.len(),
            ws == weights.row(row as int),
            accumulates(ws, input@),
            first == row * cols,
            0 <= first,
            first % 4 == 0,
            first + cols <= weights.count(),
            bytes@ == weights.spec_data().subrange(first / 4, packed_size(first + cols)),
            col <= cols,
            acc == partial_dot(ws, input@, col as nat),
        decreases cols - col,
    {
        let code: u8 = read_slot(bytes[col / 4], col % 4);
        proof {
            lemma_accumulates(ws, input@, (col + 1) as nat);
            assert((first + col) / 4 == first / 4 + col / 4 && (first + col) % 4 == col % 4);
            assert(ws[col as int] == decoded(code));
        }
        acc = acc + ternary_mul_i8(code, input[col]);
        col += 1;
    }
    acc
}

/// Blocked matrix-vector product: y = W x.
pub fn avx2_ternary_matvec(weights: &TernaryTensor, input: &[i8]) -> (output: Vec<i32>)
    requires
        weights.wf(),
        weights.spec_cols() == input@.len(),
        accumulator_fits(*weights, input@),
    ensures
        is_product(*weights, input@, output@),
{
    let rows: usize = weights.rows();
    let cols: usize = weights.cols();
    let mut output: Vec<i32> = Vec::new();
    let mut row: usize = 0;
    while row < rows
        invariant
            weights.wf(),
            rows == weights.spec_rows(),
            cols == weights.spec_cols() == input@.len(),
            accumulator_fits(*weights, input@),
            row <= rows,
            output@.len() == row,
            forall|r: int| 0 <= r < row ==> #[trigger] output@[r] == dot_product(weights.row(r), input@),
        decreases rows - row,
    {
        assert(accumulates(weights.row(row as int), input@));
        proof {
            lemma_row_in_range(row as int, rows as int, cols as int);
        }
        let acc: i32 = if (row * cols) % 4 == 0 {
            aligned_dot(weights, row, input)
        } else {
            ternary_dot_i2s(weights, row, input, cols)
        };
        output.push(acc);
        row += 1;
    }
    output
}

impl ComputeBackend for Avx2Backend {
    fn name(&self) -> (name: &str)
        ensures
            name@ == "avx2"@,
    {
        "avx2"
    }

    fn ternary_matvec(&self, weights: &TernaryTensor, input: &[i8]) -> (output: Vec<i32>) {
        avx2_ternary_matvec(weights, input)
    }
}

} // verus!
