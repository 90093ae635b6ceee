//! Tensors: ternary weights packed four to a byte, 8-bit activations with a
//! scale, and plain tensors of numbers.

use crate::numeric::{Real, is_zero, zeros};
use crate::ops::quantize::{dequantize_alloc, is_dequantized, is_quantized, quantize_absmax};
use crate::text::{concatenated, decimal, listed, with_list, with_number};
use vstd::prelude::*;
use vstd::string::*;

verus! {

/// A single ternary weight: -1, 0 or +1.
///
/// In packed form it takes two bits: 0b00 = -1, 0b01 = 0, 0b10 = +1. The
/// fourth pattern, 0b11, is unused and reads as zero.
#[derive(Debug, Clone, Copy, PartialEq, Eq, Structural)]
pub enum Ternary {
    Neg,
    Zero,
    Pos,
}

/// The two-bit code in slot `slot` (0 to 3, lowest bits first) of a byte.
pub open spec fn slot_code(byte: u8, slot: int) -> u8 {
    if slot == 0 {
        byte % 4
    } else if slot == 1 {
        (byte / 4) % 4
    } else if slot == 2 {
        (byte / 16) % 4
    } else {
        (byte / 64) % 4
    }
}

/// The weight that a two-bit code stands for.
pub open spec fn decoded(code: u8) -> Ternary {
    if code == 0 {
        Ternary::Neg
    } else if code == 2 {
        Ternary::Pos
    } else {
        Ternary::Zero
    }
}

/// The integer that a weight stands for.
pub open spec fn weight_value(w: Ternary) -> int {
    match w {
        Ternary::Neg => -1,
        Ternary::Zero => 0,
        Ternary::Pos => 1,
    }
}

/// The two-bit code of a weight.
pub open spec fn weight_code(w: Ternary) -> u8 {
    match w {
        Ternary::Neg => 0,
        Ternary::Zero => 1,
        Ternary::Pos => 2,
    }
}

/// How many bytes hold `n` two-bit codes.
pub open spec fn packed_size(n: int) -> int {
    (n + 3) / 4
}

impl Ternary {
    /// Decode a weight from the lowest two bits of a byte.
    pub fn from_bits(bits: u8) -> (w: Self)
        ensures
            w == decoded(bits % 4),
    {
        assert(bits & 3 == bits % 4) by (bit_vector);
        match bits & 3 {
            0 => Ternary::Neg,
            1 => Ternary::Zero,
            2 => Ternary::Pos,
            _ => Ternary::Zero,
        }
    }

    /// The two-bit code of this weight.
    pub fn bits(self) -> (code: u8)
        ensures
            code == weight_code(self),
    {
        match self {
            Ternary::Neg => 0,
            Ternary::Zero => 1,
            Ternary::Pos => 2,
        }
    }

    /// The integer value: -1, 0, or +1.
    pub fn value(self) -> (v: i8)
        ensures
            v == weight_value(self),
    {
        match self {
            Ternary::Neg => -1,
            Ternary::Zero => 0,
            Ternary::Pos => 1,
        }
    }
}

/// Every weight survives encoding and decoding.
pub proof fn decoding_inverts_encoding(w: Ternary)
    ensures
        weight_code(w) < 3,
        decoded(weight_code(w)) == w,
{
}

/// Read the two-bit code in one slot of a byte.
pub fn read_slot(byte: u8, slot: usize) -> (code: u8)
    requires
        slot < 4,
    ensures
        code == slot_code(byte, slot as int),
        code < 4,
{
    assert((byte >> 0u8) & 3 == byte % 4 && (byte >> 2u8) & 3 == (byte / 4) % 4 && (byte >> 4u8)
        & 3 == (byte / 16) % 4 && (byte >> 6u8) & 3 == (byte / 64) % 4) by (bit_vector);
    (byte >> (2 * slot as u8)) & 3
}

/// Overwrite the two-bit code in one slot of a byte; the others stay.
pub fn write_slot(byte: u8, slot: usize, code: u8) -> (r: u8)
    requires
        slot < 4,
        code < 4,
    ensures
        slot_code(r, slot as int) == code,
        forall|s: int| 0 <= s < 4 && s != slot ==> #[trigger] slot_code(r, s) == slot_code(byte, s),
{
    let shift: u8 = 2 * slot as u8;
    let r: u8 = (byte & !(3u8 << shift)) | (code << shift);
    proof {
        assert(shift == 0 ==> r % 4 == code && (r / 4) % 4 == (byte / 4) % 4 && (r / 16) % 4 == (byte
            / 16) % 4 && (r / 64) % 4 == (byte / 64) % 4) by (bit_vector)
            requires
                r == (byte & !(3u8 << shift)) | (code << shift),
                code < 4,
        ;
        assert(shift == 2 ==> (r / 4) % 4 == code && r % 4 == byte % 4 && (r / 16) % 4 == (byte / 16)
            % 4 && (r / 64) % 4 == (byte / 64) % 4) by (bit_vector)
            requires
                r == (byte & !(3u8 << shift)) | (code << shift),
                code < 4,
        ;
        assert(shift == 4 ==> (r / 16) % 4 == code && r % 4 == byte % 4 && (r / 4) % 4 == (byte / 4)
            % 4 && (r / 64) % 4 == (byte / 64) % 4) by (bit_vector)
            requires
                r == (byte & !(3u8 << shift)) | (code << shift),
                code < 4,
        ;
        assert(shift == 6 ==> (r / 64) % 4 == code && r % 4 == byte % 4 && (r / 4) % 4 == (byte / 4)
            % 4 && (r / 16) % 4 == (byte / 16) % 4) by (bit_vector)
            requires
                r == (byte & !(3u8 << shift)) | (code << shift),
                code < 4,
        ;
    }
    r
}

/// A dense matrix of ternary weights, packed four to a byte.
///
/// The codes of all rows follow one another without padding between rows: the
/// weight at (`row`, `col`) sits in slot `i % 4` of byte `i / 4`, where
/// `i = row * cols + col`. The storage is `ceil(rows * cols / 4)` bytes.
#[derive(Clone, Debug)]
pub struct TernaryTensor {
    data: Vec<u8>,
    rows: usize,
    cols: usize,
}

impl TernaryTensor {
    pub closed spec fn spec_data(&self) -> Seq<u8> {
        self.data@
    }

    pub closed spec fn spec_rows(&self) -> usize {
        self.rows
    }

    pub closed spec fn spec_cols(&self) -> usize {
        self.cols
    }

    /// How many weights the tensor has.
    pub open spec fn count(&self) -> int {
        self.spec_rows() * self.spec_cols()
    }

    /// The storage reaches every weight.
    pub open spec fn wf(&self) -> bool {
        &&& self.count() <= usize::MAX
        &&& packed_size(self.count()) <= self.spec_data().len()
    }

    /// The two-bit code of the `i`-th weight, in row-major order.
    pub open spec fn code_at(&self, i: int) -> u8 {
        slot_code(self.spec_data()[i / 4], i % 4)
    }

    /// The weight at (`row`, `col`).
    pub open spec fn at(&self, row: int, col: int) -> Ternary {
        decoded(self.code_at(row * self.spec_cols() + col))
    }

    /// The weights of one row.
    pub open spec fn row(&self, row: int) -> Seq<Ternary> {
        Seq::new(self.spec_cols() as nat, |col: int| self.at(row, col))
    }

    /// Pack a matrix of weights given in row-major order.
    pub fn pack(values: &[Ternary], rows: usize, cols: usize) -> (t: Self)
        requires
            values@.len() == rows * cols,
        ensures
            t.wf(),
            t.spec_rows() == rows,
            t.spec_cols() == cols,
            t.spec_data().len() == packed_size(rows * cols),
            forall|i: int| 0 <= i < rows * cols ==> #[trigger] t.code_at(i) == weight_code(values@[i]),
            forall|i: int|
                rows * cols <= i < 4 * packed_size(rows * cols) ==> #[trigger] t.code_at(i) == 0,
    {
        let n: usize = values.len();
        let packed_len: usize = n / 4 + if n % 4 == 0 { 0 } else { 1 };
        let mut data: Vec<u8> = vec![0u8; packed_len];
        let mut i: usize = 0;
        while i < n
            invariant
                i <= n == values@.len(),
                data@.len() == packed_size(n as int),
                forall|j: int|
                    0 <= j < i ==> slot_code(#[trigger] data@[j / 4], j % 4) == weight_code(values@[j]),
                forall|j: int|
                    i <= j < 4 * packed_size(n as int) ==> slot_code(#[trigger] data@[j / 4], j % 4) == 0,
            decreases n - i,
        {
            let ghost before = data@;
            data[i / 4] = write_slot(data[i / 4], i % 4, values[i].bits());
            assert forall|j: int| 0 <= j < 4 * packed_size(n as int) && j != i implies slot_code(
                #[trigger] data@[j / 4],
                j % 4,
            ) == slot_code(before[j / 4], j % 4) by {
                if j / 4 == i / 4 {
                    assert(j % 4 != i % 4);
                }
            }
            i += 1;
        }
        let t = TernaryTensor { data, rows, cols };
        assert forall|j: int| 0 <= j < 4 * packed_size(n as int) implies #[trigger] t.code_at(j)
            == slot_code(t.data@[j / 4], j % 4) by {}
        t
    }

    /// A tensor whose weights are all zero.
    pub fn zeros(rows: usize, cols: usize) -> (t: Self)
        requires
            rows * cols <= usize::MAX,
        ensures
            t.wf(),
            t.spec_rows() == rows,
            t.spec_cols() == cols,
            t.spec_data().len() == packed_size(rows * cols),
            forall|i: int| 0 <= i < 4 * packed_size(rows * cols) ==> #[trigger] t.code_at(i) == 1,
            forall|row: int, col: int|
                0 <= row < rows && 0 <= col < cols ==> #[trigger] t.at(row, col) == Ternary::Zero,
    {
        let n: usize = rows * cols;
        let packed_len: usize = n / 4 + if n % 4 == 0 { 0 } else { 1 };
        let t = TernaryTensor { data: vec![0x55u8; packed_len], rows, cols };
        assert(0x55u8 % 4 == 1 && (0x55u8 / 4) % 4 == 1 && (0x55u8 / 16) % 4 == 1 && (0x55u8 / 64) % 4
            == 1);
        assert forall|row: int, col: int| 0 <= row < rows && 0 <= col < cols implies #[trigger] t.at(
            row,
            col,
        ) == Ternary::Zero by {
            lemma_index_in_range(row, col, rows as int, cols as int);
            assert(t.code_at(row * cols + col) == 1);
        }
        t
    }

    /// Number of rows (output features).
    pub fn rows(&self) -> (n: usize)
        ensures
            n == self.spec_rows(),
    {
        self.rows
    }

    /// Number of columns (input features).
    pub fn cols(&self) -> (n: usize)
        ensures
            n == self.spec_cols(),
    {
        self.cols
    }

    /// The weight at (`row`, `col`).
    pub fn get(&self, row: usize, col: usize) -> (w: Ternary)
        requires
            self.wf(),
            row < self.spec_rows(),
            col < self.spec_cols(),
        ensures
            w == self.at(row as int, col as int),
    {
        proof {
            lemma_index_in_range(row as int, col as int, self.rows as int, self.cols as int);
        }
        let idx: usize = row * self.cols + col;
        Ternary::from_bits(read_slot(self.data[idx / 4], idx % 4))
    }

    /// Overwrite the weight at (`row`, `col`).
    pub fn set(&mut self, row: usize, col: usize, value: Ternary)
        requires
            old(self).wf(),
            row < old(self).spec_rows(),
            col < old(self).spec_cols(),
        ensures
            final(self).wf(),
            final(self).spec_rows() == old(self).spec_rows(),
            final(self).spec_cols() == old(self).spec_cols(),
            final(self).spec_data().len() == old(self).spec_data().len(),
            final(self).code_at(row * old(self).spec_cols() + col) == weight_code(value),
            forall|i: int|
                0 <= i < 4 * old(self).spec_data().len() && i != row * old(self).spec_cols() + col
                    ==> #[trigger] final(self).code_at(i) == old(self).code_at(i),
    {
        proof {
            lemma_index_in_range(row as int, col as int, self.rows as int, self.cols as int);
        }
        let idx: usize = row * self.cols + col;
        let byte: u8 = self.data[idx / 4];
        self.data[idx / 4] = write_slot(byte, idx % 4, value.bits());
        assert forall|i: int|
            0 <= i < 4 * old(self).spec_data().len() && i != idx implies #[trigger] self.code_at(i)
            == old(self).code_at(i) by {
            if i / 4 == idx / 4 {
                assert(i % 4 != idx % 4);
            }
        }
    }

    /// The packed bytes.
    pub fn packed_data(&self) -> (bytes: &[u8])
        ensures
            bytes@ == self.spec_data(),
    {
        self.data.as_slice()
    }

    /// Number of packed bytes.
    pub fn packed_len(&self) -> (n: usize)
        ensures
            n == self.spec_data().len(),
    {
        self.data.len()
    }

    /// The weights of one row, unpacked.
    pub fn unpack_row(&self, row: usize) -> (weights: Vec<Ternary>)
        requires
            self.wf(),
            row < self.spec_rows(),
        ensures
            weights@ == self.row(row as int),
    {
        let mut weights: Vec<Ternary> = Vec::new();
        let mut col: usize = 0;
        while col < self.cols
            invariant
                self.wf(),
                row < self.spec_rows(),
                col <= self.cols,
                weights@.len() == col,
                forall|c: int| 0 <= c < col ==> #[trigger] weights@[c] == self.at(row as int, c),
            decreases self.cols - col,
        {
            weights.push(self.get(row, col));
            col += 1;
        }
        assert(weights@ =~= self.row(row as int));
        weights
    }

    /// The bytes that hold one row.
    ///
    /// Returns the bytes, the number of slots of the first byte that belong to
    /// the row before, and how many slots of the last byte are in use (1 to 4).
    pub fn row_bytes(&self, row: usize) -> (r: (&[u8], usize, usize))
        requires
            self.wf(),
            row < self.spec_rows(),
        ensures
            ({
                let first = row * self.spec_cols();
                let end = first + self.spec_cols();
                &&& r.0@ == self.spec_data().subrange(first / 4, packed_size(end))
                &&& r.1 == first % 4
                &&& r.2 == if end % 4 == 0 { 4 } else { end % 4 }
            }),
    {
        proof {
            lemma_row_in_range(row as int, self.rows as int, self.cols as int);
        }
        let first: usize = row * self.cols;
        let end: usize = first + self.cols;
        let start_byte: usize = first / 4;
        let end_byte: usize = end / 4 + if end % 4 == 0 { 0 } else { 1 };
        let vals_in_last: usize = if end % 4 == 0 { 4 } else { end % 4 };
        (vstd::slice::slice_subrange(self.data.as_slice(), start_byte, end_byte), first % 4, vals_in_last)
    }

    /// Take over packed bytes; there may be more of them than needed.
    pub fn from_packed(data: Vec<u8>, rows: usize, cols: usize) -> (t: Self)
        requires
            rows * cols <= usize::MAX,
            packed_size(rows * cols) <= data@.len(),
        ensures
            t.wf(),
            t.spec_rows() == rows,
            t.spec_cols() == cols,
            t.spec_data() == data@,
    {
        TernaryTensor { data, rows, cols }
    }
}

pub proof fn lemma_row_in_range(row: int, rows: int, cols: int)
    requires
        0 <= row < rows,
        0 <= cols,
    ensures
        0 <= row * cols,
        row * cols + cols <= rows * cols,
{
    assert(0 <= row * cols && row * cols + cols <= rows * cols) by (nonlinear_arith)
        requires
            0 <= row < rows,
            0 <= cols,
    ;
}

pub proof fn lemma_index_in_range(row: int, col: int, rows: int, cols: int)
    requires
        0 <= row < rows,
        0 <= col < cols,
    ensures
        0 <= row * cols,
        row * cols + col < rows * cols,
{
    lemma_row_in_range(row, rows, cols);
}

/// Two positions of a matrix are stored at different indices.
pub proof fn lemma_index_injective(r1: int, c1: int, r2: int, c2: int, cols: int)
    requires
        0 <= c1 < cols,
        0 <= c2 < cols,
        r1 * cols + c1 == r2 * cols + c2,
    ensures
        r1 == r2,
        c1 == c2,
{
    assert(r1 == r2) by (nonlinear_arith)
        requires
            0 <= c1 < cols,
            0 <= c2 < cols,
            r1 * cols + c1 == r2 * cols + c2,
    ;
}

/// Reading back a packed matrix gives the weights that went in.
pub proof fn packing_keeps_weights(t: TernaryTensor, values: Seq<Ternary>, row: int, col: int)
    requires
        values.len() == t.count(),
        forall|i: int| 0 <= i < t.count() ==> #[trigger] t.code_at(i) == weight_code(values[i]),
        0 <= row < t.spec_rows(),
        0 <= col < t.spec_cols(),
    ensures
        t.at(row, col) == values[row * t.spec_cols() + col],
{
    lemma_index_in_range(row, col, t.spec_rows() as int, t.spec_cols() as int);
    assert(t.code_at(row * t.spec_cols() + col) == weight_code(values[row * t.spec_cols() + col]));
}

/// After a weight is set, it reads back, and every other weight is unchanged.
pub proof fn setting_changes_one_weight(
    before: TernaryTensor,
    after: TernaryTensor,
    row: int,
    col: int,
    value: Ternary,
    r: int,
    c: int,
)
    requires
        before.wf(),
        after.spec_rows() == before.spec_rows(),
        after.spec_cols() == before.spec_cols(),
        0 <= row < before.spec_rows(),
        0 <= col < before.spec_cols(),
        0 <= r < before.spec_rows(),
        0 <= c < before.spec_cols(),
        after.code_at(row * before.spec_cols() + col) == weight_code(value),
        forall|i: int|
            0 <= i < 4 * before.spec_data().len() && i != row * before.spec_cols() + col
                ==> #[trigger] after.code_at(i) == before.code_at(i),
    ensures
        after.at(r, c) == if r == row && c == col { value } else { before.at(r, c) },
{
    lemma_index_in_range(r, c, before.spec_rows() as int, before.spec_cols() as int);
    if r * before.spec_cols() + c == row * before.spec_cols() + col {
        lemma_index_injective(r, c, row, col, before.spec_cols() as int);
    } else {
        assert(after.code_at(r * before.spec_cols() + c) == before.code_at(
            r * before.spec_cols() + c,
        ));
    }
}

/// Storage is sixteen times smaller than four bytes per weight, up to the
/// padding of the last byte.
pub proof fn packing_is_sixteenfold(n: int)
    requires
        0 <= n,
    ensures
        4 * n <= 16 * packed_size(n) < 4 * n + 16,
        n % 4 == 0 ==> 16 * packed_size(n) == 4 * n,
{
}

/// The number of elements of a tensor with the given dimensions.
pub open spec fn elements(shape: Seq<usize>) -> nat
    decreases shape.len(),
{
    if shape.len() == 0 {
        1
    } else {
        elements(shape.drop_last()) * shape.last() as nat
    }
}

/// The dimensions can be multiplied from left to right without overflow.
pub open spec fn shape_fits(shape: Seq<usize>) -> bool {
    forall|k: int| 0 <= k <= shape.len() ==> #[trigger] elements(shape.take(k)) <= usize::MAX
}

/// The number of elements of a vector and of a matrix.
pub proof fn lemma_elements(shape: Seq<usize>)
    ensures
        shape.len() == 1 ==> elements(shape) == shape[0] && shape_fits(shape),
        shape.len() == 2 ==> elements(shape) == shape[0] * shape[1],
    decreases shape.len(),
{
    if shape.len() == 1 {
        assert(shape.drop_last() =~= Seq::<usize>::empty());
        assert(elements(shape.drop_last()) == 1);
        assert(1 * shape[0] == shape[0]) by (nonlinear_arith);
        assert forall|k: int| 0 <= k <= 1 implies #[trigger] elements(shape.take(k)) <= usize::MAX by {
            if k == 0 {
                assert(shape.take(k) =~= Seq::<usize>::empty());
            } else {
                assert(shape.take(k) =~= shape);
            }
        }
    } else if shape.len() == 2 {
        lemma_elements(shape.drop_last());
    }
}

/// The number of elements that a shape calls for.
pub fn count_elements(shape: &[usize]) -> (n: usize)
    requires
        shape_fits(shape@),
    ensures
        n == elements(shape@),
{
    let mut n: usize = 1;
    let mut i: usize = 0;
    assert(shape@.take(0) =~= Seq::<usize>::empty());
    while i < shape.len()
        invariant
            shape_fits(shape@),
            i <= shape@.len(),
            n == elements(shape@.take(i as int)),
        decreases shape@.len() - i,
    {
        proof {
            assert(shape@.take(i + 1).drop_last() =~= shape@.take(i as int));
            assert(elements(shape@.take(i + 1)) == n * shape@[i as int]);
        }
        n = n * shape[i];
        i += 1;
    }
    assert(shape@.take(shape@.len() as int) =~= shape@);
    n
}

/// A quantized tensor: 8-bit values and one scale, `real = value * scale`.
#[derive(Clone, Debug)]
pub struct ActivationTensor<T: Real> {
    data: Vec<i8>,
    scale: T,
    shape: Vec<usize>,
}

impl<T: Real> ActivationTensor<T> {
    pub closed spec fn spec_data(&self) -> Seq<i8> {
        self.data@
    }

    pub closed spec fn spec_scale(&self) -> T {
        self.scale
    }

    pub closed spec fn spec_shape(&self) -> Seq<usize> {
        self.shape@
    }

    /// The data has the length that the shape calls for.
    pub open spec fn wf(&self) -> bool {
        self.spec_data().len() == elements(self.spec_shape())
    }

    /// Quantize numbers under the scale of their largest absolute value.
    pub fn quantize(values: &[T], shape: Vec<usize>) -> (a: Self)
        requires
            values@.len() == elements(shape@),
        ensures
            a.wf(),
            a.spec_shape() == shape@,
            is_quantized(values@, a.spec_data(), a.spec_scale()),
    {
        let (data, scale) = quantize_absmax(values);
        ActivationTensor { data, scale, shape }
    }

    /// Take over quantized data.
    pub fn from_raw(data: Vec<i8>, scale: T, shape: Vec<usize>) -> (a: Self)
        requires
            data@.len() == elements(shape@),
        ensures
            a.wf(),
            a.spec_data() == data@,
            a.spec_scale() == scale,
            a.spec_shape() == shape@,
    {
        ActivationTensor { data, scale, shape }
    }

    /// The numbers that the values stand for.
    pub fn dequantize(&self) -> (xs: Vec<T>)
        ensures
            is_dequantized(self.spec_data(), self.spec_scale(), xs@),
    {
        dequantize_alloc(self.data.as_slice(), self.scale)
    }

    /// The quantized values.
    pub fn data(&self) -> (data: &[i8])
        ensures
            data@ == self.spec_data(),
    {
        self.data.as_slice()
    }

    /// The scale.
    pub fn scale(&self) -> (scale: T)
        ensures
            scale == self.spec_scale(),
    {
        self.scale
    }

    /// The dimensions.
    pub fn shape(&self) -> (shape: &[usize])
        ensures
            shape@ == self.spec_shape(),
    {
        self.shape.as_slice()
    }

    /// Total number of elements.
    pub fn len(&self) -> (n: usize)
        ensures
            n == self.spec_data().len(),
    {
        self.data.len()
    }

    /// Whether there are no elements.
    pub fn is_empty(&self) -> (r: bool)
        ensures
            r == (self.spec_data().len() == 0),
    {
        self.data.len() == 0
    }
}

/// A tensor of numbers, for what is not quantized: embeddings, norms, logits.
#[derive(Clone, Debug)]
pub struct FloatTensor<T: Real> {
    data: Vec<T>,
    shape: Vec<usize>,
}

impl<T: Real> FloatTensor<T> {
    pub closed spec fn spec_data(&self) -> Seq<T> {
        self.data@
    }

    pub closed spec fn spec_shape(&self) -> Seq<usize> {
        self.shape@
    }

    /// The data has the length that the shape calls for.
    pub open spec fn wf(&self) -> bool {
        self.spec_data().len() == elements(self.spec_shape())
    }

    /// Take over data of a given shape.
    pub fn new(data: Vec<T>, shape: Vec<usize>) -> (t: Self)
        requires
            data@.len() == elements(shape@),
        ensures
            t.wf(),
            t.spec_data() == data@,
            t.spec_shape() == shape@,
    {
        FloatTensor { data, shape }
    }

    /// A tensor of zeros.
    pub fn zeros(shape: Vec<usize>) -> (t: Self)
        requires
            shape_fits(shape@),
        ensures
            t.wf(),
            t.spec_shape() == shape@,
            forall|i: int| 0 <= i < t.spec_data().len() ==> is_zero(#[trigger] t.spec_data()[i]),
    {
        let n: usize = count_elements(shape.as_slice());
        FloatTensor { data: zeros(n), shape }
    }

    /// The elements.
    pub fn data(&self) -> (data: &[T])
        ensures
            data@ == self.spec_data(),
    {
        self.data.as_slice()
    }

    /// The elements, to be changed.
    pub fn data_mut(&mut self) -> (data: &mut [T])
        ensures
            data@ == old(self).spec_data(),
            final(self).spec_data() == final(data)@,
            final(self).spec_shape() == old(self).spec_shape(),
    {
        self.data.as_mut_slice()
    }

    /// The dimensions.
    pub fn shape(&self) -> (shape: &[usize])
        ensures
            shape@ == self.spec_shape(),
    {
        self.shape.as_slice()
    }

    /// Total number of elements.
    pub fn len(&self) -> (n: usize)
        ensures
            n == self.spec_data().len(),
    {
        self.data.len()
    }

    /// Whether there are no elements.
    pub fn is_empty(&self) -> (r: bool)
        ensures
            r == (self.spec_data().len() == 0),
    {
        self.data.len() == 0
    }

    /// Quantize the tensor.
    pub fn to_activation(&self) -> (a: ActivationTensor<T>)
        requires
            self.wf(),
        ensures
            a.wf(),
            a.spec_shape() == self.spec_shape(),
            is_quantized(self.spec_data(), a.spec_data(), a.spec_scale()),
    {
        let shape: Vec<usize> = vstd::slice::slice_to_vec(self.shape.as_slice());
        ActivationTensor::quantize(self.data.as_slice(), shape)
    }
}

impl TernaryTensor {
    /// One line about a tensor.
    pub open spec fn description(&self) -> Seq<char> {
        "TernaryTensor"@ + "("@ + decimal(self.spec_rows() as nat) + "×"@ + decimal(
            self.spec_cols() as nat,
        ) + ", "@ + decimal(self.spec_data().len()) + " bytes packed)"@
    }

    /// One line about a tensor.
    pub fn describe(&self) -> (s: String)
        ensures
            s@ == self.description(),
    {
        let s: String = with_number(String::from_str("TernaryTensor"), "(", self.rows);
        let s: String = with_number(s, "×", self.cols);
        let s: String = with_number(s, ", ", self.data.len());
        concatenated(s.as_str(), " bytes packed)")
    }
}

impl<T: Real> ActivationTensor<T> {
    /// One line about a tensor whose scale reads `scale`.
    pub open spec fn description(&self, scale: Seq<char>) -> Seq<char> {
        "ActivationTensor"@ + "(["@ + listed(self.spec_shape()) + "], scale="@ + scale + ")"@
    }

    /// One line about a tensor, given the text of its scale.
    pub fn describe(&self, scale: &str) -> (s: String)
        ensures
            s@ == self.description(scale@),
    {
        let s: String = with_list(
            String::from_str("ActivationTensor"),
            "([",
            self.shape.as_slice(),
        );
        let s: String = concatenated(s.as_str(), "], scale=");
        let s: String = concatenated(s.as_str(), scale);
        concatenated(s.as_str(), ")")
    }
}

impl<T: Real> FloatTensor<T> {
    /// One line about a tensor.
    pub open spec fn description(&self) -> Seq<char> {
        "FloatTensor"@ + "(["@ + listed(self.spec_shape()) + "])"@
    }

    /// One line about a tensor.
    pub fn describe(&self) -> (s: String)
        ensures
            s@ == self.description(),
    {
        let s: String = with_list(String::from_str("FloatTensor"), "([", self.shape.as_slice());
        concatenated(s.as_str(), "])")
    }
}

} // verus!
