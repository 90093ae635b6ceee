//! Inner products with half-precision weights.

use crate::numeric::{Real, is_half, is_sum, is_sum_from, is_times, lemma_sum_push};
use vstd::prelude::*;

verus! {

/// `p` is `x` times the number with half-precision bits `h`.
pub open spec fn is_half_product<T: Real>(x: T, h: u16, p: T) -> bool {
    exists|w: T| #[trigger] is_half(h, w) && is_times(x, w, p)
}

/// `r` is the inner product of numbers with half-precision weights,
/// accumulated from left to right.
pub open spec fn is_half_dot<T: Real>(xs: Seq<T>, hs: Seq<u16>, r: T) -> bool {
    exists|ps: Seq<T>|
        {
            &&& ps.len() == xs.len()
            &&& forall|i: int| 0 <= i < xs.len() ==> is_half_product(xs[i], hs[i], #[trigger] ps[i])
            &&& #[trigger] is_sum(ps, r)
        }
}

/// Inner product of numbers with half-precision weights.
pub fn dot_f16<T: Real>(a: &[T], b: &[u16]) -> (r: T)
    requires
        a@.len() == b@.len(),
    ensures
        is_half_dot(a@, b@, r),
{
    let start = T::zero();
    let mut acc = start;
    let ghost mut ps: Seq<T> = Seq::empty();
    let mut i: usize = 0;
    while i < a.len()
        invariant
            a@.len() == b@.len(),
            i <= a@.len(),
            ps.len() == i,
            forall|j: int| 0 <= j < i ==> is_half_product(a@[j], b@[j], #[trigger] ps[j]),
            is_sum_from(start, ps, acc),
        decreases a@.len() - i,
    {
        let w = T::from_half(b[i]);
        let p = a[i].times(w);
        assert(is_half_product(a@[i as int], b@[i as int], p));
        let ghost before = acc;
        acc = acc.plus(p);
        proof {
            lemma_sum_push(start, ps, before, p, acc);
            ps = ps.push(p);
        }
        i += 1;
    }
    assert(is_sum(ps, acc));
    acc
}

} // verus!
