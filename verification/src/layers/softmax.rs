//! From scores to probabilities.

use crate::numeric::{
    Real, is_exp, is_lowest, is_maximum, is_minus, is_one, is_over, is_sum_from, is_times, is_zero,
    lemma_sum_push, maximum,
};
use vstd::prelude::*;

verus! {

/// `e` is the exponential of how far `x` lies above `m`.
pub open spec fn is_shifted_exp<T: Real>(x: T, m: T, e: T) -> bool {
    exists|d: T| #[trigger] is_minus(x, m, d) && is_exp(d, e)
}

/// `es` holds the exponentials of `xs`, shifted by `m`.
pub open spec fn is_shifted_exps<T: Real>(xs: Seq<T>, m: T, es: Seq<T>) -> bool {
    &&& es.len() == xs.len()
    &&& forall|i: int| 0 <= i < xs.len() ==> is_shifted_exp(xs[i], m, #[trigger] es[i])
}

/// `ps` holds the elements of `es` times `inv`.
pub open spec fn is_multiplied<T: Real>(es: Seq<T>, inv: T, ps: Seq<T>) -> bool {
    &&& ps.len() == es.len()
    &&& forall|i: int| 0 <= i < es.len() ==> is_times(es[i], inv, #[trigger] ps[i])
}

/// `inv` is the inverse of the sum of `es`.
pub open spec fn is_inverse_sum<T: Real>(es: Seq<T>, inv: T) -> bool {
    exists|z: T, total: T, one: T|
        is_zero(z) && #[trigger] is_sum_from(z, es, total) && is_one(one) && #[trigger] is_over(
            one,
            total,
            inv,
        )
}

/// `ps` is the softmax of two or more scores: exponentials relative to the
/// largest score, times the inverse of their sum.
pub open spec fn is_softmax_of_many<T: Real>(xs: Seq<T>, ps: Seq<T>) -> bool {
    exists|low: T, m: T, es: Seq<T>, inv: T|
        is_lowest(low) && #[trigger] is_maximum(low, xs, m) && #[trigger] is_shifted_exps(xs, m, es)
            && is_inverse_sum(es, inv) && #[trigger] is_multiplied(es, inv, ps)
}

/// `ps` is the softmax of `xs`. A single score has probability one.
pub open spec fn is_softmax<T: Real>(xs: Seq<T>, ps: Seq<T>) -> bool {
    if xs.len() == 0 {
        ps.len() == 0
    } else if xs.len() == 1 {
        ps.len() == 1 && is_one(ps[0])
    } else {
        is_softmax_of_many(xs, ps)
    }
}

/// Turn scores into probabilities, in place.
pub fn softmax_inplace<T: Real>(values: &mut Vec<T>)
    ensures
        is_softmax(old(values)@, final(values)@),
        final(values)@.len() == old(values)@.len(),
{
    let n: usize = values.len();
    if n == 0 {
        return ;
    }
    if n == 1 {
        values[0] = T::one();
        return ;
    }
    let ghost xs = values@;
    let low = T::lowest();
    let m = maximum(low, values.as_slice());
    let z = T::zero();
    let mut total = z;
    let mut i: usize = 0;
    while i < n
        invariant
            n == values@.len() == xs.len(),
            i <= n,
            forall|j: int| 0 <= j < i ==> is_shifted_exp(xs[j], m, #[trigger] values@[j]),
            forall|j: int| i <= j < n ==> #[trigger] values@[j] == xs[j],
            is_sum_from(z, values@.take(i as int), total),
        decreases n - i,
    {
        let e = values[i].minus(m).exp();
        let ghost before = values@;
        let ghost total0 = total;
        values[i] = e;
        total = total.plus(e);
        proof {
            lemma_sum_push(z, before.take(i as int), total0, e, total);
            assert(before.take(i as int).push(e) =~= values@.take(i + 1));
        }
        i += 1;
    }
    let ghost es = values@;
    assert(es.take(n as int) =~= es);
    let inv = T::one().over(total);
    assert(is_inverse_sum(es, inv));
    let mut k: usize = 0;
    while k < n
        invariant
            n == values@.len() == es.len(),
            k <= n,
            forall|j: int| 0 <= j < k ==> is_times(es[j], inv, #[trigger] values@[j]),
            forall|j: int| k <= j < n ==> #[trigger] values@[j] == es[j],
        decreases n - k,
    {
        let p = values[k].times(inv);
        values[k] = p;
        k += 1;
    }
    assert(is_maximum(low, xs, m) && is_shifted_exps(xs, m, es) && is_multiplied(es, inv, values@));
}

} // verus!
