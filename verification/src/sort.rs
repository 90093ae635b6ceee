//! Sorting positions by key, the largest key first and equal keys in the
//! order of their positions.

use vstd::multiset::*;
use vstd::prelude::*;
use vstd::seq_lib::*;

verus! {

/// Position `a` comes before position `b`: it has the larger key, or the same
/// key and comes first.
pub open spec fn precedes(keys: Seq<i64>, a: usize, b: usize) -> bool {
    keys[a as int] > keys[b as int] || (keys[a as int] == keys[b as int] && a < b)
}

/// Every position comes before those after it.
pub open spec fn is_falling(keys: Seq<i64>, order: Seq<usize>) -> bool {
    forall|i: int, j: int|
        0 <= i < j < order.len() ==> precedes(keys, #[trigger] order[i], #[trigger] order[j])
}

/// All positions below `n`, in order.
pub open spec fn positions(n: nat) -> Seq<usize> {
    Seq::new(n, |i: int| i as usize)
}

/// `order` holds every position of `keys` once, by falling key, equal keys by
/// rising position.
pub open spec fn is_ranking(keys: Seq<i64>, order: Seq<usize>) -> bool {
    &&& order.to_multiset() == positions(keys.len()).to_multiset()
    &&& is_falling(keys, order)
}

/// A ranking has the length of what it ranks, and only positions in range.
pub proof fn lemma_ranking(keys: Seq<i64>, order: Seq<usize>)
    requires
        keys.len() <= usize::MAX,
        is_ranking(keys, order),
    ensures
        order.len() == keys.len(),
        forall|i: int| 0 <= i < order.len() ==> (#[trigger] order[i]) < keys.len(),
{
    let all = positions(keys.len());
    to_multiset_len(order);
    to_multiset_len(all);
    assert forall|i: int| 0 <= i < order.len() implies (#[trigger] order[i]) < keys.len() by {
        to_multiset_contains(order, order[i]);
        assert(order.contains(order[i]));
        to_multiset_contains(all, order[i]);
        let k = choose|k: int| 0 <= k < all.len() && all[k] == order[i];
        assert(all[k] == k as usize);
    }
}

/// A ranking repeats no position.
pub proof fn ranking_repeats_nothing(keys: Seq<i64>, order: Seq<usize>)
    requires
        is_ranking(keys, order),
    ensures
        order.no_duplicates(),
{
    assert forall|i: int, j: int| 0 <= i < order.len() && 0 <= j < order.len() && i != j implies order[i]
        != order[j] by {
        if i < j {
            assert(precedes(keys, order[i], order[j]));
        } else {
            assert(precedes(keys, order[j], order[i]));
        }
    }
}

proof fn lemma_same_order(keys: Seq<i64>, a: Seq<usize>, b: Seq<usize>)
    requires
        is_falling(keys, a),
        is_falling(keys, b),
        a.to_multiset() == b.to_multiset(),
    ensures
        a == b,
    decreases a.len(),
{
    to_multiset_len(a);
    to_multiset_len(b);
    if a.len() == 0 {
        assert(a =~= b);
    } else {
        let x = a.last();
        let y = b.last();
        to_multiset_contains(a, x);
        to_multiset_contains(b, y);
        to_multiset_contains(a, y);
        to_multiset_contains(b, x);
        assert(a.contains(x)) by {
            assert(a[a.len() - 1] == x);
        }
        assert(b.contains(y)) by {
            assert(b[b.len() - 1] == y);
        }
        if x != y {
            let i = choose|i: int| 0 <= i < a.len() && a[i] == y;
            let j = choose|j: int| 0 <= j < b.len() && b[j] == x;
            assert(precedes(keys, a[i], a[a.len() - 1]));
            assert(precedes(keys, b[j], b[b.len() - 1]));
        }
        let a1 = a.drop_last();
        let b1 = b.drop_last();
        assert(a1.push(x) =~= a);
        assert(b1.push(y) =~= b);
        to_multiset_build(a1, x);
        to_multiset_build(b1, y);
        assert(a1.to_multiset() =~= a.to_multiset().remove(x));
        assert(b1.to_multiset() =~= b.to_multiset().remove(y));
        lemma_same_order(keys, a1, b1);
    }
}

/// Keys have one ranking.
pub proof fn rankings_are_unique(keys: Seq<i64>, a: Seq<usize>, b: Seq<usize>)
    requires
        is_ranking(keys, a),
        is_ranking(keys, b),
    ensures
        a == b,
{
    lemma_same_order(keys, a, b);
}

fn merge(
    keys: &[i64],
    a: Vec<usize>,
    b: Vec<usize>,
    Ghost(start): Ghost<int>,
    Ghost(end): Ghost<int>,
) -> (r: Vec<usize>)
    requires
        0 <= start <= end <= keys@.len(),
        forall|i: int| 0 <= i < a@.len() ==> start <= (#[trigger] a@[i]) < end,
        forall|i: int| 0 <= i < b@.len() ==> start <= (#[trigger] b@[i]) < end,
        is_falling(keys@, a@),
        is_falling(keys@, b@),
        forall|i: int, j: int|
            0 <= i < a@.len() && 0 <= j < b@.len() ==> (#[trigger] a@[i]) < (#[trigger] b@[j]),
    ensures
        r@.to_multiset() == a@.to_multiset().add(b@.to_multiset()),
        forall|i: int| 0 <= i < r@.len() ==> start <= (#[trigger] r@[i]) < end,
        is_falling(keys@, r@),
{
    let mut r: Vec<usize> = Vec::new();
    let mut i: usize = 0;
    let mut j: usize = 0;
    proof {
        assert(a@.take(0) =~= Seq::<usize>::empty());
        assert(b@.take(0) =~= Seq::<usize>::empty());
        Seq::<usize>::empty().to_multiset_ensures();
        assert(r@.to_multiset() =~= a@.take(0).to_multiset().add(b@.take(0).to_multiset()));
    }
    while i < a.len() || j < b.len()
        invariant
            0 <= start <= end <= keys@.len(),
            forall|i: int| 0 <= i < a@.len() ==> start <= (#[trigger] a@[i]) < end,
            forall|i: int| 0 <= i < b@.len() ==> start <= (#[trigger] b@[i]) < end,
            is_falling(keys@, a@),
            is_falling(keys@, b@),
            forall|i: int, j: int|
                0 <= i < a@.len() && 0 <= j < b@.len() ==> (#[trigger] a@[i]) < (#[trigger] b@[j]),
            i <= a@.len(),
            j <= b@.len(),
            r@.to_multiset() == a@.take(i as int).to_multiset().add(b@.take(j as int).to_multiset()),
            forall|k: int| 0 <= k < r@.len() ==> start <= (#[trigger] r@[k]) < end,
            is_falling(keys@, r@),
            forall|k: int, l: int|
                0 <= k < r@.len() && i <= l < a@.len() ==> precedes(
                    keys@,
                    #[trigger] r@[k],
                    #[trigger] a@[l],
                ),
            forall|k: int, l: int|
                0 <= k < r@.len() && j <= l < b@.len() ==> precedes(
                    keys@,
                    #[trigger] r@[k],
                    #[trigger] b@[l],
                ),
        decreases a@.len() - i + b@.len() - j,
    {
        let from_a: bool = if i < a.len() && j < b.len() {
            keys[a[i]] >= keys[b[j]]
        } else {
            i < a.len()
        };
        if from_a {
            let ghost before = r@;
            r.push(a[i]);
            proof {
                broadcast use group_to_multiset_ensures;

                assert(a@.take(i + 1) =~= a@.take(i as int).push(a@[i as int]));
                assert(r@.to_multiset() =~= a@.take(i + 1).to_multiset().add(
                    b@.take(j as int).to_multiset(),
                ));
            }
            i += 1;
        } else {
            let ghost before = r@;
            r.push(b[j]);
            proof {
                broadcast use group_to_multiset_ensures;

                assert(b@.take(j + 1) =~= b@.take(j as int).push(b@[j as int]));
                assert(r@.to_multiset() =~= a@.take(i as int).to_multiset().add(
                    b@.take(j + 1).to_multiset(),
                ));
            }
            j += 1;
        }
    }
    proof {
        assert(a@.take(a@.len() as int) =~= a@);
        assert(b@.take(b@.len() as int) =~= b@);
    }
    r
}

fn sort_range(keys: &[i64], start: usize, end: usize) -> (r: Vec<usize>)
    requires
        start <= end <= keys@.len(),
    ensures
        r@.to_multiset() == positions(keys@.len()).subrange(start as int, end as int).to_multiset(),
        forall|i: int| 0 <= i < r@.len() ==> start <= (#[trigger] r@[i]) < end,
        is_falling(keys@, r@),
    decreases end - start,
{
    let ghost all = positions(keys@.len());
    if end - start == 0 {
        let r: Vec<usize> = Vec::new();
        assert(r@ =~= all.subrange(start as int, end as int));
        return r;
    }
    if end - start == 1 {
        let mut r: Vec<usize> = Vec::new();
        r.push(start);
        assert(r@ =~= all.subrange(start as int, end as int));
        return r;
    }
    let mid: usize = start + (end - start) / 2;
    let a: Vec<usize> = sort_range(keys, start, mid);
    let b: Vec<usize> = sort_range(keys, mid, end);
    proof {
        let x = all.subrange(start as int, mid as int);
        let y = all.subrange(mid as int, end as int);
        assert(all.subrange(start as int, end as int) =~= x + y);
        lemma_multiset_commutative(x, y);
    }
    merge(keys, a, b, Ghost(start as int), Ghost(end as int))
}

/// Rank positions by falling key.
pub fn rank(keys: &[i64]) -> (order: Vec<usize>)
    ensures
        is_ranking(keys@, order@),
{
    let order: Vec<usize> = sort_range(keys, 0, keys.len());
    proof {
        let all = positions(keys@.len());
        assert(all.subrange(0, keys@.len() as int) =~= all);
    }
    order
}

} // verus!
