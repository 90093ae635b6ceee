//! Activation quantization: 8-bit integers under one scale per vector.
//!
//! The scale is the largest absolute value divided by 127, or one where all
//! values are zero; an element becomes the nearest integer to its quotient by
//! the scale, kept within ±127.

use crate::numeric::{
    Real, is_abs, is_at_most, is_i32, is_maximum, is_one, is_over, is_rounded, is_times, is_zero,
    maximum,
};
use crate::rows::{lemma_append_row, lemma_row_bounds, row_of, row_slice};
use vstd::prelude::*;

verus! {

/// `abs` holds the absolute values of `xs`.
pub open spec fn is_abs_values<T: Real>(xs: Seq<T>, abs: Seq<T>) -> bool {
    &&& abs.len() == xs.len()
    &&& forall|i: int| 0 <= i < xs.len() ==> is_abs(xs[i], #[trigger] abs[i])
}

/// `m` is the largest absolute value in `xs`, at least zero.
pub open spec fn is_absmax<T: Real>(xs: Seq<T>, m: T) -> bool {
    exists|abs: Seq<T>, z: T|
        #[trigger] is_abs_values(xs, abs) && is_zero(z) && #[trigger] is_maximum(z, abs, m)
}

/// `scale` is the scale for a largest absolute value `m`: `m / 127`, or one
/// where all values are zero.
pub open spec fn is_scale_of<T: Real>(m: T, scale: T) -> bool {
    exists|z: T, none: bool|
        is_zero(z) && #[trigger] is_at_most(m, z, none) && if none {
            is_one(scale)
        } else {
            exists|c: T| is_i32(127, c) && #[trigger] is_over(m, c, scale)
        }
}

/// `scale` is the quantization scale of `xs`.
pub open spec fn is_absmax_scale<T: Real>(xs: Seq<T>, scale: T) -> bool {
    exists|m: T| #[trigger] is_absmax(xs, m) && is_scale_of(m, scale)
}

/// An integer kept within ±127.
pub open spec fn clamped(n: int) -> int {
    if n < -127 {
        -127
    } else if n > 127 {
        127
    } else {
        n
    }
}

/// `q` is `x` quantized under a scale.
pub open spec fn is_quantized_element<T: Real>(x: T, scale: T, q: i8) -> bool {
    exists|p: T, n: i32|
        #[trigger] is_over(x, scale, p) && #[trigger] is_rounded(p, n) && q == clamped(n as int)
}

/// `qs` is `xs` quantized under a scale.
pub open spec fn is_quantized_with<T: Real>(xs: Seq<T>, scale: T, qs: Seq<i8>) -> bool {
    &&& qs.len() == xs.len()
    &&& forall|i: int| 0 <= i < xs.len() ==> is_quantized_element(xs[i], scale, #[trigger] qs[i])
}

/// `qs` and `scale` are the quantization of `xs`.
pub open spec fn is_quantized<T: Real>(xs: Seq<T>, qs: Seq<i8>, scale: T) -> bool {
    is_absmax_scale(xs, scale) && is_quantized_with(xs, scale, qs)
}

/// `x` is the number that `q` stands for under a scale.
pub open spec fn is_dequantized_element<T: Real>(q: i8, scale: T, x: T) -> bool {
    exists|f: T| #[trigger] is_i32(q as i32, f) && is_times(f, scale, x)
}

/// `xs` are the numbers that `qs` stand for under a scale.
pub open spec fn is_dequantized<T: Real>(qs: Seq<i8>, scale: T, xs: Seq<T>) -> bool {
    &&& xs.len() == qs.len()
    &&& forall|i: int| 0 <= i < qs.len() ==> is_dequantized_element(qs[i], scale, #[trigger] xs[i])
}

/// Quantized values never reach -128.
pub proof fn quantized_values_are_within_127<T: Real>(xs: Seq<T>, scale: T, qs: Seq<i8>, i: int)
    requires
        is_quantized_with(xs, scale, qs),
        0 <= i < qs.len(),
    ensures
        -127 <= qs[i] <= 127,
{
    assert(is_quantized_element(xs[i], scale, qs[i]));
}

/// The scale of a vector.
pub fn absmax_scale<T: Real>(values: &[T]) -> (scale: T)
    ensures
        is_absmax_scale(values@, scale),
{
    let mut abs: Vec<T> = Vec::new();
    let mut i: usize = 0;
    while i < values.len()
        invariant
            i <= values@.len(),
            abs@.len() == i,
            forall|j: int| 0 <= j < i ==> is_abs(values@[j], #[trigger] abs@[j]),
        decreases values@.len() - i,
    {
        abs.push(values[i].abs());
        i += 1;
    }
    let z = T::zero();
    let m = maximum(z, abs.as_slice());
    assert(is_abs_values(values@, abs@));
    assert(is_absmax(values@, m));
    if m.at_most(z) {
        T::one()
    } else {
        let c = T::from_i32(127);
        m.over(c)
    }
}

/// One element quantized under a scale.
fn quantize_element<T: Real>(x: T, scale: T) -> (q: i8)
    ensures
        is_quantized_element(x, scale, q),
{
    let n: i32 = x.over(scale).round_to_i32();
    if n < -127 {
        -127
    } else if n > 127 {
        127
    } else {
        n as i8
    }
}

/// Quantize a vector under a scale, into a buffer.
pub fn quantize_with_scale<T: Real>(values: &[T], scale: T, out: &mut [i8])
    requires
        values@.len() == old(out)@.len(),
    ensures
        is_quantized_with(values@, scale, final(out)@),
{
    let mut i: usize = 0;
    while i < values.len()
        invariant
            i <= values@.len() == out@.len(),
            forall|j: int| 0 <= j < i ==> is_quantized_element(values@[j], scale, #[trigger] out@[j]),
        decreases values@.len() - i,
    {
        out[i] = quantize_element(values[i], scale);
        i += 1;
    }
}

/// Quantize a vector under a scale.
fn quantized_with_scale<T: Real>(values: &[T], scale: T) -> (out: Vec<i8>)
    ensures
        is_quantized_with(values@, scale, out@),
{
    let mut out: Vec<i8> = vec![0i8; values.len()];
    quantize_with_scale(values, scale, out.as_mut_slice());
    out
}

/// Quantize a vector under its own scale.
pub fn quantize_absmax<T: Real>(values: &[T]) -> (r: (Vec<i8>, T))
    ensures
        is_quantized(values@, r.0@, r.1),
{
    let scale = absmax_scale(values);
    let out: Vec<i8> = quantized_with_scale(values, scale);
    (out, scale)
}

/// The number that one quantized value stands for.
fn dequantize_element<T: Real>(q: i8, scale: T) -> (x: T)
    ensures
        is_dequantized_element(q, scale, x),
{
    T::from_i32(q as i32).times(scale)
}

/// The numbers that quantized values stand for, into a buffer.
pub fn dequantize<T: Real>(quantized: &[i8], scale: T, out: &mut [T])
    requires
        quantized@.len() == old(out)@.len(),
    ensures
        is_dequantized(quantized@, scale, final(out)@),
{
    let mut i: usize = 0;
    while i < quantized.len()
        invariant
            i <= quantized@.len() == out@.len(),
            forall|j: int|
                0 <= j < i ==> is_dequantized_element(quantized@[j], scale, #[trigger] out@[j]),
        decreases quantized@.len() - i,
    {
        out[i] = dequantize_element(quantized[i], scale);
        i += 1;
    }
}

/// The numbers that quantized values stand for.
pub fn dequantize_alloc<T: Real>(quantized: &[i8], scale: T) -> (xs: Vec<T>)
    ensures
        is_dequantized(quantized@, scale, xs@),
{
    let mut xs: Vec<T> = Vec::new();
    let mut i: usize = 0;
    while i < quantized.len()
        invariant
            i <= quantized@.len(),
            xs@.len() == i,
            forall|j: int|
                0 <= j < i ==> is_dequantized_element(quantized@[j], scale, #[trigger] xs@[j]),
        decreases quantized@.len() - i,
    {
        xs.push(dequantize_element(quantized[i], scale));
        i += 1;
    }
    xs
}

/// Quantize every row of a batch under its own scale.
pub fn quantize_per_token<T: Real>(values: &[T], cols: usize) -> (r: (Vec<i8>, Vec<T>))
    requires
        cols > 0,
        values@.len() % (cols as nat) == 0,
    ensures
        r.0@.len() == values@.len(),
        r.1@.len() == values@.len() / (cols as nat),
        forall|t: int|
            0 <= t < r.1@.len() ==> is_quantized(
                #[trigger] row_of(values@, cols as int, t),
                row_of(r.0@, cols as int, t),
                r.1@[t],
            ),
{
    let rows: usize = values.len() / cols;
    assert(rows * cols == values@.len()) by (nonlinear_arith)
        requires
            cols > 0,
            rows == values@.len() / (cols as nat),
            values@.len() % (cols as nat) == 0,
    ;
    let mut quantized: Vec<i8> = Vec::new();
    let mut scales: Vec<T> = Vec::new();
    let mut row: usize = 0;
    while row < rows
        invariant
            rows * cols == values@.len(),
            row <= rows,
            quantized@.len() == row * cols,
            scales@.len() == row,
            forall|t: int|
                0 <= t < row ==> is_quantized(
                    #[trigger] row_of(values@, cols as int, t),
                    row_of(quantized@, cols as int, t),
                    scales@[t],
                ),
        decreases rows - row,
    {
        proof {
            lemma_row_bounds(row as int, rows as int, cols as int);
        }
        let token: &[T] = row_slice(values, cols, row);
        let (mut q, scale) = quantize_absmax(token);
        proof {
            lemma_append_row(quantized@, q@, cols as int, row as int);
        }
        quantized.append(&mut q);
        scales.push(scale);
        row += 1;
    }
    (quantized, scales)
}

} // verus!
