//! Matrices stored row after row in one flat sequence.

use vstd::prelude::*;

verus! {

/// Row `t` of a matrix whose rows have `width` elements.
pub open spec fn row_of<T>(xs: Seq<T>, width: int, t: int) -> Seq<T> {
    xs.subrange(t * width, t * width + width)
}

pub proof fn lemma_row_bounds(t: int, n: int, width: int)
    requires
        0 <= t < n,
        0 <= width,
    ensures
        0 <= t * width,
        t * width + width <= n * width,
        (t + 1) * width == t * width + width,
{
    assert(0 <= t * width && t * width + width <= n * width && (t + 1) * width == t * width + width)
        by (nonlinear_arith)
        requires
            0 <= t < n,
            0 <= width,
    ;
}

/// Adding a row keeps the rows before it.
pub proof fn lemma_append_row<T>(xs: Seq<T>, row: Seq<T>, width: int, k: int)
    requires
        0 <= k,
        0 <= width,
        xs.len() == k * width,
        row.len() == width,
    ensures
        (xs + row).len() == (k + 1) * width,
        row_of(xs + row, width, k) == row,
        forall|t: int| 0 <= t < k ==> #[trigger] row_of(xs + row, width, t) == row_of(xs, width, t),
{
    assert((k + 1) * width == k * width + width) by (nonlinear_arith);
    assert(row_of(xs + row, width, k) =~= row);
    assert forall|t: int| 0 <= t < k implies #[trigger] row_of(xs + row, width, t) == row_of(
        xs,
        width,
        t,
    ) by {
        lemma_row_bounds(t, k, width);
        assert(row_of(xs + row, width, t) =~= row_of(xs, width, t));
    }
}

/// Rows of the beginning of a matrix are rows of the matrix.
pub proof fn lemma_take_rows<T>(xs: Seq<T>, width: int, n: int, t: int)
    requires
        0 <= t < n,
        0 <= width,
        n * width <= xs.len(),
    ensures
        row_of(xs.take(n * width), width, t) == row_of(xs, width, t),
{
    lemma_row_bounds(t, n, width);
    assert(row_of(xs.take(n * width), width, t) =~= row_of(xs, width, t));
}

/// Rows of the end of a matrix are rows of the matrix.
pub proof fn lemma_skip_rows<T>(xs: Seq<T>, width: int, n: int, m: int, t: int)
    requires
        0 <= m,
        0 <= t < n - m,
        0 <= width,
        n * width <= xs.len(),
    ensures
        row_of(xs.skip(m * width), width, t) == row_of(xs, width, m + t),
{
    lemma_row_bounds(m + t, n, width);
    assert((m + t) * width == m * width + t * width && 0 <= m * width && 0 <= t * width)
        by (nonlinear_arith)
        requires
            0 <= m,
            0 <= t,
            0 <= width,
    ;
    assert(row_of(xs.skip(m * width), width, t) =~= row_of(xs, width, m + t));
}

/// Rows of two matrices, one after the other.
pub proof fn lemma_add_rows<T>(a: Seq<T>, b: Seq<T>, width: int, n: int, m: int, t: int)
    requires
        0 <= n,
        0 <= m,
        0 <= t < n + m,
        0 <= width,
        a.len() == n * width,
        b.len() == m * width,
    ensures
        row_of(a + b, width, t) == if t < n {
            row_of(a, width, t)
        } else {
            row_of(b, width, t - n)
        },
{
    if t < n {
        lemma_row_bounds(t, n, width);
        assert(row_of(a + b, width, t) =~= row_of(a, width, t));
    } else {
        lemma_row_bounds(t - n, m, width);
        assert(t * width == n * width + (t - n) * width) by (nonlinear_arith);
        assert(row_of(a + b, width, t) =~= row_of(b, width, t - n));
    }
}

/// Matrices with the same rows are the same.
pub proof fn lemma_same_rows<T>(a: Seq<T>, b: Seq<T>, width: int, n: int)
    requires
        0 <= n,
        0 <= width,
        a.len() == n * width,
        b.len() == n * width,
        forall|t: int| 0 <= t < n ==> #[trigger] row_of(a, width, t) == row_of(b, width, t),
    ensures
        a == b,
{
    assert forall|k: int| 0 <= k < a.len() implies a[k] == b[k] by {
        assert(width > 0) by (nonlinear_arith)
            requires
                0 <= k < n * width,
                0 <= n,
                0 <= width,
        ;
        let t = k / width;
        assert(0 <= t < n && t * width + k % width == k && 0 <= k % width < width)
            by (nonlinear_arith)
            requires
                t == k / width,
                0 <= k < n * width,
                0 < width,
        ;
        lemma_row_bounds(t, n, width);
        assert(row_of(a, width, t)[k % width] == a[k]);
        assert(row_of(b, width, t)[k % width] == b[k]);
    }
    assert(a =~= b);
}

/// A row of a slice.
pub fn row_slice<T>(xs: &[T], width: usize, t: usize) -> (row: &[T])
    requires
        t * width + width <= xs@.len(),
    ensures
        row@ == row_of(xs@, width as int, t as int),
{
    assert(0 <= t * width) by (nonlinear_arith);
    assert(xs@.len() == xs.len());
    vstd::slice::slice_subrange(xs, t * width, t * width + width)
}

} // verus!
