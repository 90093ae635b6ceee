//! The numbers that layers compute with.
//!
//! [`Real`] lists the operations that the layers need of their number type. It
//! promises nothing about what they return: a contract in this crate says that
//! a result came out of given operations on given arguments, whatever those
//! operations do. The spec functions below name one application of each
//! operation.

use vstd::prelude::*;

verus! {

/// A number type with the operations of single-precision arithmetic.
pub trait Real: Copy + Send + Sync {
    /// The number zero.
    fn zero() -> Self;

    /// The number one.
    fn one() -> Self;

    /// A number below every other, from which a running maximum starts.
    fn lowest() -> Self;

    /// The number nearest to an integer.
    fn from_i32(n: i32) -> Self;

    /// The number nearest to a count.
    fn from_usize(n: usize) -> Self;

    /// The number with given half-precision bits.
    fn from_half(bits: u16) -> Self;

    /// `self + other`.
    fn plus(self, other: Self) -> Self;

    /// `self - other`.
    fn minus(self, other: Self) -> Self;

    /// `self * other`.
    fn times(self, other: Self) -> Self;

    /// `self / other`.
    fn over(self, other: Self) -> Self;

    /// `-self`.
    fn negate(self) -> Self;

    /// The absolute value.
    fn abs(self) -> Self;

    /// The larger of two numbers.
    fn max(self, other: Self) -> Self;

    /// The square root.
    fn sqrt(self) -> Self;

    /// The exponential.
    fn exp(self) -> Self;

    /// The sine.
    fn sin(self) -> Self;

    /// The cosine.
    fn cos(self) -> Self;

    /// `self` raised to the power `exponent`.
    fn power(self, exponent: Self) -> Self;

    /// The nearest integer, halves away from zero, saturating at the bounds.
    fn round_to_i32(self) -> i32;

    /// Whether `self < other`.
    fn less(self, other: Self) -> bool;

    /// Whether `self <= other`.
    fn at_most(self, other: Self) -> bool;

    /// An integer that orders as the number does.
    fn order_key(self) -> i64;
}

#[verifier::inline]
pub open spec fn is_zero<T: Real>(r: T) -> bool {
    call_ensures(T::zero, (), r)
}

#[verifier::inline]
pub open spec fn is_one<T: Real>(r: T) -> bool {
    call_ensures(T::one, (), r)
}

#[verifier::inline]
pub open spec fn is_lowest<T: Real>(r: T) -> bool {
    call_ensures(T::lowest, (), r)
}

#[verifier::inline]
pub open spec fn is_i32<T: Real>(n: i32, r: T) -> bool {
    call_ensures(T::from_i32, (n,), r)
}

#[verifier::inline]
pub open spec fn is_usize<T: Real>(n: usize, r: T) -> bool {
    call_ensures(T::from_usize, (n,), r)
}

#[verifier::inline]
pub open spec fn is_half<T: Real>(bits: u16, r: T) -> bool {
    call_ensures(T::from_half, (bits,), r)
}

#[verifier::inline]
pub open spec fn is_plus<T: Real>(a: T, b: T, r: T) -> bool {
    call_ensures(T::plus, (a, b), r)
}

#[verifier::inline]
pub open spec fn is_minus<T: Real>(a: T, b: T, r: T) -> bool {
    call_ensures(T::minus, (a, b), r)
}

#[verifier::inline]
pub open spec fn is_times<T: Real>(a: T, b: T, r: T) -> bool {
    call_ensures(T::times, (a, b), r)
}

#[verifier::inline]
pub open spec fn is_over<T: Real>(a: T, b: T, r: T) -> bool {
    call_ensures(T::over, (a, b), r)
}

#[verifier::inline]
pub open spec fn is_negate<T: Real>(a: T, r: T) -> bool {
    call_ensures(T::negate, (a,), r)
}

#[verifier::inline]
pub open spec fn is_abs<T: Real>(a: T, r: T) -> bool {
    call_ensures(T::abs, (a,), r)
}

#[verifier::inline]
pub open spec fn is_max<T: Real>(a: T, b: T, r: T) -> bool {
    call_ensures(T::max, (a, b), r)
}

#[verifier::inline]
pub open spec fn is_sqrt<T: Real>(a: T, r: T) -> bool {
    call_ensures(T::sqrt, (a,), r)
}

#[verifier::inline]
pub open spec fn is_exp<T: Real>(a: T, r: T) -> bool {
    call_ensures(T::exp, (a,), r)
}

#[verifier::inline]
pub open spec fn is_sin<T: Real>(a: T, r: T) -> bool {
    call_ensures(T::sin, (a,), r)
}

#[verifier::inline]
pub open spec fn is_cos<T: Real>(a: T, r: T) -> bool {
    call_ensures(T::cos, (a,), r)
}

#[verifier::inline]
pub open spec fn is_power<T: Real>(a: T, e: T, r: T) -> bool {
    call_ensures(T::power, (a, e), r)
}

#[verifier::inline]
pub open spec fn is_rounded<T: Real>(a: T, r: i32) -> bool {
    call_ensures(T::round_to_i32, (a,), r)
}

#[verifier::inline]
pub open spec fn is_less<T: Real>(a: T, b: T, r: bool) -> bool {
    call_ensures(T::less, (a, b), r)
}

#[verifier::inline]
pub open spec fn is_at_most<T: Real>(a: T, b: T, r: bool) -> bool {
    call_ensures(T::at_most, (a, b), r)
}

#[verifier::inline]
pub open spec fn is_order_key<T: Real>(a: T, r: i64) -> bool {
    call_ensures(T::order_key, (a,), r)
}

/// A number that compares as greater than zero.
pub open spec fn is_positive<T: Real>(x: T) -> bool {
    exists|z: T| #[trigger] is_zero(z) && is_less(z, x, true)
}

/// Whether a number compares as greater than zero.
pub fn positive<T: Real>(x: T) -> (r: bool)
    ensures
        r ==> is_positive(x),
        !r ==> exists|z: T| #[trigger] is_zero(z) && is_less(z, x, false),
{
    let z = T::zero();
    let r: bool = z.less(x);
    assert(is_zero(z) && is_less(z, x, r));
    r
}

/// The operations of a number type are functions: the same arguments always
/// give the same result.
pub open spec fn is_functional<T: Real>() -> bool {
    &&& forall|r: T, s: T| #[trigger] is_zero(r) && #[trigger] is_zero(s) ==> r == s
    &&& forall|r: T, s: T| #[trigger] is_one(r) && #[trigger] is_one(s) ==> r == s
    &&& forall|r: T, s: T| #[trigger] is_lowest(r) && #[trigger] is_lowest(s) ==> r == s
    &&& forall|n: i32, r: T, s: T| #[trigger] is_i32(n, r) && #[trigger] is_i32(n, s) ==> r == s
    &&& forall|n: usize, r: T, s: T| #[trigger] is_usize(n, r) && #[trigger] is_usize(n, s) ==> r == s
    &&& forall|n: u16, r: T, s: T| #[trigger] is_half(n, r) && #[trigger] is_half(n, s) ==> r == s
    &&& forall|a: T, b: T, r: T, s: T|
        #[trigger] is_plus(a, b, r) && #[trigger] is_plus(a, b, s) ==> r == s
    &&& forall|a: T, b: T, r: T, s: T|
        #[trigger] is_minus(a, b, r) && #[trigger] is_minus(a, b, s) ==> r == s
    &&& forall|a: T, b: T, r: T, s: T|
        #[trigger] is_times(a, b, r) && #[trigger] is_times(a, b, s) ==> r == s
    &&& forall|a: T, b: T, r: T, s: T|
        #[trigger] is_over(a, b, r) && #[trigger] is_over(a, b, s) ==> r == s
    &&& forall|a: T, b: T, r: T, s: T|
        #[trigger] is_max(a, b, r) && #[trigger] is_max(a, b, s) ==> r == s
    &&& forall|a: T, b: T, r: T, s: T|
        #[trigger] is_power(a, b, r) && #[trigger] is_power(a, b, s) ==> r == s
    &&& forall|a: T, r: T, s: T| #[trigger] is_negate(a, r) && #[trigger] is_negate(a, s) ==> r == s
    &&& forall|a: T, r: T, s: T| #[trigger] is_abs(a, r) && #[trigger] is_abs(a, s) ==> r == s
    &&& forall|a: T, r: T, s: T| #[trigger] is_sqrt(a, r) && #[trigger] is_sqrt(a, s) ==> r == s
    &&& forall|a: T, r: T, s: T| #[trigger] is_exp(a, r) && #[trigger] is_exp(a, s) ==> r == s
    &&& forall|a: T, r: T, s: T| #[trigger] is_sin(a, r) && #[trigger] is_sin(a, s) ==> r == s
    &&& forall|a: T, r: T, s: T| #[trigger] is_cos(a, r) && #[trigger] is_cos(a, s) ==> r == s
    &&& forall|a: T, r: i32, s: i32| #[trigger] is_rounded(a, r) && #[trigger] is_rounded(a, s) ==> r == s
    &&& forall|a: T, b: T, r: bool, s: bool|
        #[trigger] is_less(a, b, r) && #[trigger] is_less(a, b, s) ==> r == s
    &&& forall|a: T, b: T, r: bool, s: bool|
        #[trigger] is_at_most(a, b, r) && #[trigger] is_at_most(a, b, s) ==> r == s
    &&& forall|a: T, r: i64, s: i64|
        #[trigger] is_order_key(a, r) && #[trigger] is_order_key(a, s) ==> r == s
}

/// `r` is `start` plus the elements of `xs`, added from left to right.
pub open spec fn is_sum_from<T: Real>(start: T, xs: Seq<T>, r: T) -> bool
    decreases xs.len(),
{
    if xs.len() == 0 {
        r == start
    } else {
        exists|p: T|
            is_sum_from(start, xs.drop_last(), p) && #[trigger] is_plus(p, xs.last(), r)
    }
}

/// `r` is the sum of `xs`, added from left to right onto zero.
pub open spec fn is_sum<T: Real>(xs: Seq<T>, r: T) -> bool {
    exists|z: T| #[trigger] is_zero(z) && is_sum_from(z, xs, r)
}

/// `ps` holds the element-wise products of `xs` and `ys`.
pub open spec fn is_products<T: Real>(xs: Seq<T>, ys: Seq<T>, ps: Seq<T>) -> bool {
    &&& ps.len() == xs.len()
    &&& forall|i: int| 0 <= i < xs.len() ==> is_times(xs[i], ys[i], #[trigger] ps[i])
}

/// `r` is the inner product of `xs` and `ys`, accumulated from left to right.
pub open spec fn is_dot<T: Real>(xs: Seq<T>, ys: Seq<T>, r: T) -> bool {
    exists|ps: Seq<T>| #[trigger] is_products(xs, ys, ps) && is_sum(ps, r)
}

/// `rs` holds the element-wise sums of `xs` and `ys`.
pub open spec fn is_sums<T: Real>(xs: Seq<T>, ys: Seq<T>, rs: Seq<T>) -> bool {
    &&& rs.len() == xs.len()
    &&& forall|i: int| 0 <= i < xs.len() ==> is_plus(xs[i], ys[i], #[trigger] rs[i])
}

/// `r` is the largest of `start` and the elements of `xs`, taken from left to
/// right.
pub open spec fn is_maximum<T: Real>(start: T, xs: Seq<T>, r: T) -> bool
    decreases xs.len(),
{
    if xs.len() == 0 {
        r == start
    } else {
        exists|p: T|
            is_maximum(start, xs.drop_last(), p) && #[trigger] is_max(p, xs.last(), r)
    }
}

pub proof fn lemma_sum_push<T: Real>(start: T, xs: Seq<T>, p: T, x: T, r: T)
    requires
        is_sum_from(start, xs, p),
        is_plus(p, x, r),
    ensures
        is_sum_from(start, xs.push(x), r),
{
    assert(xs.push(x).drop_last() =~= xs);
    assert(is_sum_from(start, xs.push(x).drop_last(), p) && is_plus(p, xs.push(x).last(), r));
}

pub proof fn lemma_maximum_push<T: Real>(start: T, xs: Seq<T>, p: T, x: T, r: T)
    requires
        is_maximum(start, xs, p),
        is_max(p, x, r),
    ensures
        is_maximum(start, xs.push(x), r),
{
    assert(xs.push(x).drop_last() =~= xs);
    assert(is_maximum(start, xs.push(x).drop_last(), p) && is_max(p, xs.push(x).last(), r));
}

/// Sums are unique where addition is a function.
pub proof fn sums_from_are_unique<T: Real>(start: T, xs: Seq<T>, r: T, s: T)
    requires
        is_functional::<T>(),
        is_sum_from(start, xs, r),
        is_sum_from(start, xs, s),
    ensures
        r == s,
    decreases xs.len(),
{
    if xs.len() > 0 {
        let p = choose|p: T|
            is_sum_from(start, xs.drop_last(), p) && #[trigger] is_plus(p, xs.last(), r);
        let q = choose|q: T|
            is_sum_from(start, xs.drop_last(), q) && #[trigger] is_plus(q, xs.last(), s);
        sums_from_are_unique(start, xs.drop_last(), p, q);
    }
}

/// Sums are unique where addition is a function.
pub proof fn sums_are_unique<T: Real>(xs: Seq<T>, r: T, s: T)
    requires
        is_functional::<T>(),
        is_sum(xs, r),
        is_sum(xs, s),
    ensures
        r == s,
{
    let z = choose|z: T| #[trigger] is_zero(z) && is_sum_from(z, xs, r);
    let y = choose|y: T| #[trigger] is_zero(y) && is_sum_from(y, xs, s);
    sums_from_are_unique(z, xs, r, s);
}

/// Inner products are unique where the operations are functions.
pub proof fn dots_are_unique<T: Real>(xs: Seq<T>, ys: Seq<T>, r: T, s: T)
    requires
        is_functional::<T>(),
        is_dot(xs, ys, r),
        is_dot(xs, ys, s),
    ensures
        r == s,
{
    let ps = choose|ps: Seq<T>| #[trigger] is_products(xs, ys, ps) && is_sum(ps, r);
    let qs = choose|qs: Seq<T>| #[trigger] is_products(xs, ys, qs) && is_sum(qs, s);
    products_are_unique(xs, ys, ps, qs);
    sums_are_unique(ps, r, s);
}

/// Element-wise products are unique where multiplication is a function.
pub proof fn products_are_unique<T: Real>(xs: Seq<T>, ys: Seq<T>, ps: Seq<T>, qs: Seq<T>)
    requires
        is_functional::<T>(),
        is_products(xs, ys, ps),
        is_products(xs, ys, qs),
    ensures
        ps == qs,
{
    assert forall|i: int| 0 <= i < ps.len() implies ps[i] == qs[i] by {
        assert(is_times(xs[i], ys[i], ps[i]) && is_times(xs[i], ys[i], qs[i]));
    }
    assert(ps =~= qs);
}

/// Maxima are unique where the larger of two numbers is a function of them.
pub proof fn maxima_are_unique<T: Real>(start: T, xs: Seq<T>, r: T, s: T)
    requires
        is_functional::<T>(),
        is_maximum(start, xs, r),
        is_maximum(start, xs, s),
    ensures
        r == s,
    decreases xs.len(),
{
    if xs.len() > 0 {
        let p = choose|p: T|
            is_maximum(start, xs.drop_last(), p) && #[trigger] is_max(p, xs.last(), r);
        let q = choose|q: T|
            is_maximum(start, xs.drop_last(), q) && #[trigger] is_max(q, xs.last(), s);
        maxima_are_unique(start, xs.drop_last(), p, q);
    }
}

/// The sum of a slice, from left to right.
pub fn sum<T: Real>(xs: &[T]) -> (r: T)
    ensures
        is_sum(xs@, r),
{
    let start = T::zero();
    let mut acc = start;
    let mut i: usize = 0;
    while i < xs.len()
        invariant
            i <= xs@.len(),
            is_sum_from(start, xs@.take(i as int), acc),
        decreases xs@.len() - i,
    {
        let ghost before = acc;
        acc = acc.plus(xs[i]);
        proof {
            lemma_sum_push(start, xs@.take(i as int), before, xs@[i as int], acc);
            assert(xs@.take(i as int).push(xs@[i as int]) =~= xs@.take(i + 1));
        }
        i += 1;
    }
    assert(xs@.take(xs@.len() as int) =~= xs@);
    acc
}

/// The inner product of two slices of one length.
pub fn dot<T: Real>(xs: &[T], ys: &[T]) -> (r: T)
    requires
        xs@.len() == ys@.len(),
    ensures
        is_dot(xs@, ys@, r),
{
    let start = T::zero();
    let mut acc = start;
    let ghost mut ps: Seq<T> = Seq::empty();
    let mut i: usize = 0;
    while i < xs.len()
        invariant
            i <= xs@.len(),
            xs@.len() == ys@.len(),
            ps.len() == i,
            forall|j: int| 0 <= j < i ==> is_times(xs@[j], ys@[j], #[trigger] ps[j]),
            is_sum_from(start, ps, acc),
        decreases xs@.len() - i,
    {
        let p = xs[i].times(ys[i]);
        let ghost before = acc;
        acc = acc.plus(p);
        proof {
            lemma_sum_push(start, ps, before, p, acc);
            ps = ps.push(p);
        }
        i += 1;
    }
    assert(is_products(xs@, ys@, ps));
    acc
}

/// The element-wise sum of two slices of one length.
pub fn sums<T: Real>(xs: &[T], ys: &[T]) -> (rs: Vec<T>)
    requires
        xs@.len() == ys@.len(),
    ensures
        is_sums(xs@, ys@, rs@),
{
    let mut rs: Vec<T> = Vec::new();
    let mut i: usize = 0;
    while i < xs.len()
        invariant
            i <= xs@.len(),
            xs@.len() == ys@.len(),
            rs@.len() == i,
            forall|j: int| 0 <= j < i ==> is_plus(xs@[j], ys@[j], #[trigger] rs@[j]),
        decreases xs@.len() - i,
    {
        rs.push(xs[i].plus(ys[i]));
        i += 1;
    }
    rs
}

/// The largest element of a slice and `start`.
pub fn maximum<T: Real>(start: T, xs: &[T]) -> (r: T)
    ensures
        is_maximum(start, xs@, r),
{
    let mut best = start;
    let mut i: usize = 0;
    while i < xs.len()
        invariant
            i <= xs@.len(),
            is_maximum(start, xs@.take(i as int), best),
        decreases xs@.len() - i,
    {
        let ghost before = best;
        best = best.max(xs[i]);
        proof {
            lemma_maximum_push(start, xs@.take(i as int), before, xs@[i as int], best);
            assert(xs@.take(i as int).push(xs@[i as int]) =~= xs@.take(i + 1));
        }
        i += 1;
    }
    assert(xs@.take(xs@.len() as int) =~= xs@);
    best
}

/// A list of `n` zeros.
pub fn zeros<T: Real>(n: usize) -> (xs: Vec<T>)
    ensures
        xs@.len() == n,
        forall|i: int| 0 <= i < n ==> is_zero(#[trigger] xs@[i]),
{
    let mut xs: Vec<T> = Vec::new();
    let mut i: usize = 0;
    while i < n
        invariant
            i <= n,
            xs@.len() == i,
            forall|j: int| 0 <= j < i ==> is_zero(#[trigger] xs@[j]),
        decreases n - i,
    {
        xs.push(T::zero());
        i += 1;
    }
    xs
}

} // verus!
