//! Arrangements of two-bit codes in model files.
//!
//! Codes stand four to a byte. They may follow one another, or stand in blocks
//! of 128 codes and 32 bytes, where byte `p` of a block holds codes `p`,
//! `p + 32`, `p + 64` and `p + 96`. Either way the first code of a byte may be
//! in its highest bits or in its lowest.

use crate::tensor::{Ternary, TernaryTensor, decoded, packed_size, read_slot, slot_code};
use vstd::prelude::*;

verus! {

/// Codes in a block.
pub const BLOCK_CODES: usize = 128;

/// Bytes in a block.
pub const BLOCK_BYTES: usize = 32;

/// How codes are arranged.
#[derive(Debug, Clone, Copy, PartialEq, Eq, Structural)]
pub enum Arrangement {
    /// In blocks, first code in the highest bits. Codes after the last whole
    /// block follow one another.
    InterleavedHigh,
    /// In blocks, first code in the lowest bits. Codes after the last whole
    /// block are not stored: they are zero.
    InterleavedLow,
    /// One after another, first code in the lowest bits.
    SequentialLow,
    /// One after another, first code in the highest bits.
    SequentialHigh,
}

/// The byte and the slot that hold code `i` of `n`, if it is stored.
pub open spec fn source_of(arrangement: Arrangement, n: int, i: int) -> Option<(int, int)> {
    let in_blocks = n / 128 * 128;
    let byte = i / 128 * 32 + i % 32;
    let group = i % 128 / 32;
    match arrangement {
        Arrangement::InterleavedHigh => if i < in_blocks {
            Some((byte, 3 - group))
        } else {
            Some((i / 4, 3 - i % 4))
        },
        Arrangement::InterleavedLow => if i < in_blocks {
            Some((byte, group))
        } else {
            None
        },
        Arrangement::SequentialLow => Some((i / 4, i % 4)),
        Arrangement::SequentialHigh => Some((i / 4, 3 - i % 4)),
    }
}

/// Weight `i` of `n`.
pub open spec fn weight_at(arrangement: Arrangement, data: Seq<u8>, n: int, i: int) -> Ternary {
    match source_of(arrangement, n, i) {
        Some((byte, slot)) => decoded(slot_code(data[byte], slot)),
        None => Ternary::Zero,
    }
}

/// The weights that data holds under an arrangement.
pub open spec fn weights_in(arrangement: Arrangement, data: Seq<u8>, n: nat) -> Seq<Ternary> {
    Seq::new(n, |i: int| weight_at(arrangement, data, n as int, i))
}

/// How many bytes `n` weights take.
pub open spec fn bytes_needed(arrangement: Arrangement, n: int) -> int {
    match arrangement {
        Arrangement::InterleavedLow => n / 128 * 32,
        _ => packed_size(n),
    }
}

proof fn lemma_block_place(i: int)
    requires
        0 <= i,
    ensures
        i == 128 * (i / 128) + 32 * (i % 128 / 32) + i % 32,
        0 <= i % 128 / 32 < 4,
        0 <= i % 32 < 32,
{
    assert(i % 32 == i % 128 % 32);
}

/// Every stored code lies within the bytes that the weights take.
pub proof fn codes_lie_in_the_data(arrangement: Arrangement, n: int, i: int)
    requires
        0 <= i < n,
    ensures
        source_of(arrangement, n, i) matches Some((byte, slot)) ==> 0 <= byte < bytes_needed(
            arrangement,
            n,
        ) && 0 <= slot < 4,
{
    lemma_block_place(i);
    if i < n / 128 * 128 {
        assert(i / 128 + 1 <= n / 128);
    }
}

/// No two codes share a place.
pub proof fn codes_have_places_of_their_own(arrangement: Arrangement, n: int, i: int, j: int)
    requires
        0 <= i < n,
        0 <= j < n,
        i != j,
        source_of(arrangement, n, i) is Some,
    ensures
        source_of(arrangement, n, i) != source_of(arrangement, n, j),
{
    let last = n / 128 * 128;
    lemma_block_place(i);
    lemma_block_place(j);
    if i < last && j < last {
        if 32 * (i / 128) + i % 32 == 32 * (j / 128) + j % 32 {
            assert(i / 128 == j / 128);
        }
    } else if i < last {
        assert(i / 128 + 1 <= n / 128);
        assert(j / 4 >= n / 128 * 32);
    } else if j < last {
        assert(j / 128 + 1 <= n / 128);
        assert(i / 4 >= n / 128 * 32);
    }
}

/// A packed tensor holds what its bytes hold one after another, first code in
/// the lowest bits.
pub proof fn tensors_are_sequential(t: TernaryTensor, row: int, col: int)
    requires
        t.wf(),
        0 <= row < t.spec_rows(),
        0 <= col < t.spec_cols(),
    ensures
        t.at(row, col) == weight_at(
            Arrangement::SequentialLow,
            t.spec_data(),
            t.count(),
            row * t.spec_cols() + col,
        ),
{
}

/// Read weights under an arrangement.
pub fn unpack(arrangement: Arrangement, data: &[u8], n: usize) -> (weights: Vec<Ternary>)
    requires
        bytes_needed(arrangement, n as int) <= data@.len(),
    ensures
        weights@ == weights_in(arrangement, data@, n as nat),
{
    let in_blocks: usize = n / BLOCK_CODES * BLOCK_CODES;
    let mut weights: Vec<Ternary> = Vec::new();
    let mut i: usize = 0;
    while i < n
        invariant
            bytes_needed(arrangement, n as int) <= data@.len(),
            in_blocks == n / 128 * 128,
            i <= n,
            weights@.len() == i,
            forall|j: int|
                0 <= j < i ==> #[trigger] weights@[j] == weight_at(arrangement, data@, n as int, j),
        decreases n - i,
    {
        proof {
            codes_lie_in_the_data(arrangement, n as int, i as int);
        }
        let whole: bool = i < in_blocks;
        let byte: usize = i / BLOCK_CODES * BLOCK_BYTES + i % BLOCK_BYTES;
        let group: usize = i % BLOCK_CODES / BLOCK_BYTES;
        let w: Ternary = match arrangement {
            Arrangement::InterleavedHigh => if whole {
                Ternary::from_bits(read_slot(data[byte], 3 - group))
            } else {
                Ternary::from_bits(read_slot(data[i / 4], 3 - i % 4))
            },
            Arrangement::InterleavedLow => if whole {
                Ternary::from_bits(read_slot(data[byte], group))
            } else {
                Ternary::Zero
            },
            Arrangement::SequentialLow => Ternary::from_bits(read_slot(data[i / 4], i % 4)),
            Arrangement::SequentialHigh => Ternary::from_bits(read_slot(data[i / 4], 3 - i % 4)),
        };
        weights.push(w);
        i += 1;
    }
    assert(weights@ =~= weights_in(arrangement, data@, n as nat));
    weights
}

/// Read weights in blocks, first code in the highest bits.
pub fn unpack_interleaved_high(data: &[u8], n: usize) -> (weights: Vec<Ternary>)
    requires
        packed_size(n as int) <= data@.len(),
    ensures
        weights@ == weights_in(Arrangement::InterleavedHigh, data@, n as nat),
{
    unpack(Arrangement::InterleavedHigh, data, n)
}

/// Read weights in blocks, first code in the lowest bits.
pub fn unpack_interleaved_low(data: &[u8], n: usize) -> (weights: Vec<Ternary>)
    requires
        n / 128 * 32 <= data@.len(),
    ensures
        weights@ == weights_in(Arrangement::InterleavedLow, data@, n as nat),
{
    unpack(Arrangement::InterleavedLow, data, n)
}

/// Read weights one after another, first code in the lowest bits.
pub fn unpack_sequential_low(data: &[u8], n: usize) -> (weights: Vec<Ternary>)
    requires
        packed_size(n as int) <= data@.len(),
    ensures
        weights@ == weights_in(Arrangement::SequentialLow, data@, n as nat),
{
    unpack(Arrangement::SequentialLow, data, n)
}

/// Read weights one after another, first code in the highest bits.
pub fn unpack_sequential_high(data: &[u8], n: usize) -> (weights: Vec<Ternary>)
    requires
        packed_size(n as int) <= data@.len(),
    ensures
        weights@ == weights_in(Arrangement::SequentialHigh, data@, n as nat),
{
    unpack(Arrangement::SequentialHigh, data, n)
}

/// The bits of the scale that follows the codes of `n` weights, if the data
/// goes on that far: four bytes, lowest first.
pub open spec fn scale_bits(data: Seq<u8>, n: int) -> Option<int> {
    let at = packed_size(n);
    if at + 4 <= data.len() {
        Some(data[at] + 256 * data[at + 1] + 65536 * data[at + 2] + 16777216 * data[at + 3])
    } else {
        None
    }
}

/// Read the scale that follows the codes.
pub fn trailing_scale(data: &[u8], n: usize) -> (bits: Option<u32>)
    requires
        n <= usize::MAX - 3,
    ensures
        match bits {
            Some(b) => scale_bits(data@, n as int) == Some(b as int),
            None => scale_bits(data@, n as int) is None,
        },
{
    let at: usize = (n + 3) / 4;
    let len: usize = data.len();
    if len < 4 || at > len - 4 {
        return None;
    }
    Some(
        data[at] as u32 + 256 * (data[at + 1] as u32) + 65536 * (data[at + 2] as u32) + 16777216 * (
        data[at + 3] as u32),
    )
}

/// How many of the first `k` weights of a tensor are `w`.
pub open spec fn count_of(t: TernaryTensor, w: Ternary, k: int) -> int
    decreases k,
{
    if k <= 0 {
        0
    } else if decoded(t.code_at(k - 1)) == w {
        count_of(t, w, k - 1) + 1
    } else {
        count_of(t, w, k - 1)
    }
}

/// Every weight is counted exactly once.
pub proof fn counts_add_up(t: TernaryTensor, k: int)
    requires
        0 <= k,
    ensures
        count_of(t, Ternary::Neg, k) + count_of(t, Ternary::Zero, k) + count_of(t, Ternary::Pos, k)
            == k,
        0 <= count_of(t, Ternary::Neg, k) <= k,
        0 <= count_of(t, Ternary::Zero, k) <= k,
        0 <= count_of(t, Ternary::Pos, k) <= k,
    decreases k,
{
    if k > 0 {
        counts_add_up(t, k - 1);
    }
}

/// Count the negative, zero and positive weights of a tensor.
pub fn weight_counts(t: &TernaryTensor) -> (counts: (usize, usize, usize))
    requires
        t.wf(),
    ensures
        counts.0 == count_of(*t, Ternary::Neg, t.count()),
        counts.1 == count_of(*t, Ternary::Zero, t.count()),
        counts.2 == count_of(*t, Ternary::Pos, t.count()),
        counts.0 + counts.1 + counts.2 == t.count(),
{
    let mut neg: usize = 0;
    let mut zero: usize = 0;
    let mut pos: usize = 0;
    let data: &[u8] = t.packed_data();
    proof {
        assert(0 <= t.spec_rows() * t.spec_cols()) by (nonlinear_arith)
            requires
                t.spec_rows() >= 0,
                t.spec_cols() >= 0,
        ;
    }
    let n: usize = t.rows() * t.cols();
    let mut k: usize = 0;
    while k < n
        invariant
            t.wf(),
            data@ == t.spec_data(),
            n == t.count(),
            k <= n,
            neg == count_of(*t, Ternary::Neg, k as int),
            zero == count_of(*t, Ternary::Zero, k as int),
            pos == count_of(*t, Ternary::Pos, k as int),
            neg + zero + pos == k,
        decreases n - k,
    {
        match Ternary::from_bits(read_slot(data[k / 4], k % 4)) {
            Ternary::Neg => {
                neg += 1;
            },
            Ternary::Zero => {
                zero += 1;
            },
            Ternary::Pos => {
                pos += 1;
            },
        }
        k += 1;
    }
    (neg, zero, pos)
}

} // verus!
