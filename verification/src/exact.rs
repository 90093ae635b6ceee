//! Exact arithmetic: number types whose numbers stand for reals.
//!
//! The laws of the layers that speak of sizes and signs hold where the
//! operations on numbers compute without error. The predicates below say so of
//! one group of operations each, given the real that a number stands for.

use crate::numeric::{
    Real, is_abs, is_at_most, is_dot, is_exp, is_i32, is_less, is_max, is_minus, is_negate, is_one,
    is_order_key, is_over, is_plus, is_products, is_rounded, is_sqrt, is_sum, is_sum_from, is_times,
    is_usize, is_zero,
};
use vstd::prelude::*;

verus! {

/// Sums and differences are exact.
pub open spec fn adds<T: Real>(v: spec_fn(T) -> real) -> bool {
    &&& forall|r: T| #[trigger] is_zero(r) ==> v(r) == 0 as real
    &&& forall|a: T, b: T, r: T| #[trigger] is_plus(a, b, r) ==> v(r) == v(a) + v(b)
    &&& forall|a: T, b: T, r: T| #[trigger] is_minus(a, b, r) ==> v(r) == v(a) - v(b)
    &&& forall|a: T, r: T| #[trigger] is_negate(a, r) ==> v(r) == -v(a)
}

/// Products and quotients are exact.
pub open spec fn multiplies<T: Real>(v: spec_fn(T) -> real) -> bool {
    &&& forall|r: T| #[trigger] is_one(r) ==> v(r) == 1 as real
    &&& forall|a: T, b: T, r: T| #[trigger] is_times(a, b, r) ==> v(r) == v(a) * v(b)
    &&& forall|a: T, b: T, r: T| #[trigger]
        is_over(a, b, r) && v(b) != 0 as real ==> v(r) * v(b) == v(a)
}

/// Integers are numbers.
pub open spec fn counts<T: Real>(v: spec_fn(T) -> real) -> bool {
    &&& forall|n: i32, r: T| #[trigger] is_i32(n, r) ==> v(r) == n as real
    &&& forall|n: usize, r: T| #[trigger] is_usize(n, r) ==> v(r) == n as real
}

/// Comparisons tell the order of the values.
pub open spec fn orders<T: Real>(v: spec_fn(T) -> real) -> bool {
    &&& forall|a: T, b: T, r: bool| #[trigger] is_less(a, b, r) ==> r == (v(a) < v(b))
    &&& forall|a: T, b: T, r: bool| #[trigger] is_at_most(a, b, r) ==> r == (v(a) <= v(b))
    &&& forall|a: T, b: T, r: T| #[trigger]
        is_max(a, b, r) ==> v(r) == if v(a) >= v(b) {
            v(a)
        } else {
            v(b)
        }
    &&& forall|a: T, r: T| #[trigger]
        is_abs(a, r) ==> v(r) == if v(a) >= 0 as real {
            v(a)
        } else {
            -v(a)
        }
    &&& forall|a: T, b: T, k: i64, l: i64|
        #[trigger] is_order_key(a, k) && #[trigger] is_order_key(b, l) ==> (k < l) == (v(a) < v(b))
}

/// Roots are exact.
pub open spec fn takes_roots<T: Real>(v: spec_fn(T) -> real) -> bool {
    forall|a: T, r: T| #[trigger]
        is_sqrt(a, r) && v(a) >= 0 as real ==> v(r) >= 0 as real && v(r) * v(r) == v(a)
}

/// Rounding gives an integer at most half away.
pub open spec fn rounds<T: Real>(v: spec_fn(T) -> real) -> bool {
    forall|a: T, n: i32| #[trigger]
        is_rounded(a, n) && size(v(a)) <= 0x7fff_ffff as real ==> 2 as real * size(v(a) - n as real)
            <= 1 as real
}

/// The absolute value of a real.
pub open spec fn size(x: real) -> real {
    if x >= 0 as real {
        x
    } else {
        -x
    }
}

/// Exponentials are exact: a function of the value that is positive, grows, and
/// turns sums into products.
pub open spec fn exponentiates<T: Real>(v: spec_fn(T) -> real, e: spec_fn(real) -> real) -> bool {
    &&& forall|a: T, r: T| #[trigger] is_exp(a, r) ==> v(r) == e(v(a))
    &&& forall|x: real| #[trigger] e(x) > 0 as real
    &&& forall|x: real, y: real| #[trigger] e(x + y) == e(x) * e(y)
    &&& forall|x: real, y: real| x < y ==> #[trigger] e(x) < #[trigger] e(y)
}

/// The sum of the values of `xs`.
pub open spec fn total<T>(v: spec_fn(T) -> real, xs: Seq<T>) -> real
    decreases xs.len(),
{
    if xs.len() == 0 {
        0 as real
    } else {
        total(v, xs.drop_last()) + v(xs.last())
    }
}

/// The inner product of the values of `xs` and those of as many `ys`.
pub open spec fn inner<T>(v: spec_fn(T) -> real, xs: Seq<T>, ys: Seq<T>) -> real
    decreases xs.len(),
{
    if xs.len() == 0 {
        0 as real
    } else {
        inner(v, xs.drop_last(), ys) + v(xs.last()) * v(ys[xs.len() - 1])
    }
}

pub proof fn lemma_sum_from<T: Real>(v: spec_fn(T) -> real, start: T, xs: Seq<T>, r: T)
    requires
        adds(v),
        is_sum_from(start, xs, r),
    ensures
        v(r) == v(start) + total(v, xs),
    decreases xs.len(),
{
    if xs.len() > 0 {
        let p = choose|p: T|
            is_sum_from(start, xs.drop_last(), p) && #[trigger] is_plus(p, xs.last(), r);
        lemma_sum_from(v, start, xs.drop_last(), p);
    }
}

/// A sum is the sum of the values.
pub proof fn sums_are_totals<T: Real>(v: spec_fn(T) -> real, xs: Seq<T>, r: T)
    requires
        adds(v),
        is_sum(xs, r),
    ensures
        v(r) == total(v, xs),
{
    let z = choose|z: T| #[trigger] is_zero(z) && is_sum_from(z, xs, r);
    lemma_sum_from(v, z, xs, r);
}

pub proof fn lemma_products_total<T: Real>(
    v: spec_fn(T) -> real,
    xs: Seq<T>,
    ys: Seq<T>,
    ps: Seq<T>,
)
    requires
        multiplies(v),
        is_products(xs, ys, ps),
    ensures
        total(v, ps) == inner(v, xs, ys),
    decreases xs.len(),
{
    if xs.len() > 0 {
        let n = xs.len() - 1;
        assert forall|i: int| 0 <= i < n implies is_times(
            xs.drop_last()[i],
            ys[i],
            #[trigger] ps.drop_last()[i],
        ) by {
            assert(ps.drop_last()[i] == ps[i]);
        }
        lemma_products_total(v, xs.drop_last(), ys, ps.drop_last());
        assert(is_times(xs[n], ys[n], ps[n]));
    }
}

/// An inner product is the inner product of the values.
pub proof fn dots_are_inner_products<T: Real>(v: spec_fn(T) -> real, xs: Seq<T>, ys: Seq<T>, r: T)
    requires
        adds(v),
        multiplies(v),
        is_dot(xs, ys, r),
    ensures
        v(r) == inner(v, xs, ys),
{
    let ps = choose|ps: Seq<T>| #[trigger] is_products(xs, ys, ps) && is_sum(ps, r);
    sums_are_totals(v, ps, r);
    lemma_products_total(v, xs, ys, ps);
}

/// Values that are all multiplied by one factor have a total multiplied by it.
pub proof fn lemma_total_scaled<T>(v: spec_fn(T) -> real, xs: Seq<T>, c: real, ys: Seq<T>)
    requires
        ys.len() == xs.len(),
        forall|i: int| 0 <= i < xs.len() ==> v(#[trigger] ys[i]) == v(xs[i]) * c,
    ensures
        total(v, ys) == total(v, xs) * c,
    decreases xs.len(),
{
    if xs.len() == 0 {
        assert(0 as real == 0 as real * c) by (nonlinear_arith);
    } else {
        let n = xs.len() - 1;
        assert forall|i: int| 0 <= i < n implies v(#[trigger] ys.drop_last()[i]) == v(
            xs.drop_last()[i],
        ) * c by {
            assert(ys.drop_last()[i] == ys[i]);
        }
        lemma_total_scaled(v, xs.drop_last(), c, ys.drop_last());
        assert(v(ys[n]) == v(xs[n]) * c);
        let (t, x) = (total(v, xs.drop_last()), v(xs[n]));
        assert((t + x) * c == t * c + x * c) by (nonlinear_arith);
    }
}

/// Positive values have a positive total.
pub proof fn lemma_total_positive<T>(v: spec_fn(T) -> real, xs: Seq<T>)
    requires
        forall|i: int| 0 <= i < xs.len() ==> v(#[trigger] xs[i]) > 0 as real,
    ensures
        total(v, xs) >= 0 as real,
        xs.len() > 0 ==> total(v, xs) > 0 as real,
    decreases xs.len(),
{
    if xs.len() > 0 {
        assert forall|i: int| 0 <= i < xs.len() - 1 implies v(#[trigger] xs.drop_last()[i])
            > 0 as real by {
            assert(xs.drop_last()[i] == xs[i]);
        }
        lemma_total_positive(v, xs.drop_last());
        assert(v(xs[xs.len() - 1]) > 0 as real);
    }
}

/// The total of two lists is the sum of their totals.
pub proof fn lemma_total_add<T>(v: spec_fn(T) -> real, xs: Seq<T>, ys: Seq<T>)
    ensures
        total(v, xs + ys) == total(v, xs) + total(v, ys),
    decreases ys.len(),
{
    if ys.len() == 0 {
        assert(xs + ys =~= xs);
    } else {
        lemma_total_add(v, xs, ys.drop_last());
        assert((xs + ys).drop_last() =~= xs + ys.drop_last());
        assert((xs + ys).last() == ys.last());
    }
}

/// Inner products add up with their second vectors.
pub proof fn lemma_inner_add<T>(v: spec_fn(T) -> real, xs: Seq<T>, a: Seq<T>, b: Seq<T>, c: Seq<T>)
    requires
        forall|i: int| 0 <= i < xs.len() ==> v(#[trigger] c[i]) == v(a[i]) + v(b[i]),
    ensures
        inner(v, xs, c) == inner(v, xs, a) + inner(v, xs, b),
    decreases xs.len(),
{
    if xs.len() > 0 {
        let n = xs.len() - 1;
        lemma_inner_add(v, xs.drop_last(), a, b, c);
        lemma_distribute(v(xs[n]), v(a[n]), v(b[n]), v(c[n]));
    }
}

proof fn lemma_distribute(x: real, a: real, b: real, c: real)
    requires
        c == a + b,
    ensures
        x * c == x * a + x * b,
{
    assert(x * (a + b) == x * a + x * b) by (nonlinear_arith);
}

/// The inner product with zeros is zero.
pub proof fn lemma_inner_zero<T>(v: spec_fn(T) -> real, xs: Seq<T>, a: Seq<T>)
    requires
        forall|i: int| 0 <= i < xs.len() ==> v(#[trigger] a[i]) == 0 as real,
    ensures
        inner(v, xs, a) == 0 as real,
    decreases xs.len(),
{
    if xs.len() > 0 {
        let n = xs.len() - 1;
        lemma_inner_zero(v, xs.drop_last(), a);
        let x = v(xs[n]);
        assert(v(a[n]) == 0 as real);
        assert(x * (0 as real) == 0 as real) by (nonlinear_arith);
    }
}

} // verus!
