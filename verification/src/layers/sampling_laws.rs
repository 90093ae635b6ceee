//! What sampling is for, in exact arithmetic: repetition is discouraged, better
//! scores are more probable, and a draw hits a token as often as it is probable.

use crate::exact::{
    adds, counts, exponentiates, lemma_total_positive, lemma_total_scaled, multiplies, orders,
    sums_are_totals, total,
};
use crate::layers::exact_laws::softmax_is_a_distribution;
use crate::layers::gating_laws::same_sign;
use crate::layers::sampler::{
    Sampler, SamplerConfig, fractions_are_below_one, is_argmax, is_cut, is_divided, is_drawn,
    is_fraction, is_greedy_choice, is_keys, is_last_largest, is_lowered, is_lowered_at,
    is_lowered_for, is_nucleus, is_order, is_penalized, is_pick, is_probabilities, is_renormalizer,
    is_running, is_scaled, kept_by_count, lemma_lowering_keeps_length, ranked, xorshift,
};
use crate::layers::softmax::is_softmax;
use crate::numeric::{
    Real, is_at_most, is_i32, is_less, is_one, is_order_key, is_over, is_plus, is_sum, is_times,
    is_zero,
};
use crate::sort::{is_ranking, lemma_ranking, precedes, ranking_repeats_nothing};
use vstd::prelude::*;

verus! {

proof fn lemma_lowered_value(x: real, p: real, y: real)
    requires
        p > 1 as real,
        x > 0 as real ==> y * p == x,
        x <= 0 as real ==> y == x * p,
    ensures
        y <= x,
        x != 0 as real ==> y < x,
        same_sign(x, y),
{
    if x > 0 as real {
        assert(y > 0 as real && y < x) by (nonlinear_arith)
            requires
                p > 1 as real,
                y * p == x,
                x > 0 as real,
        ;
    } else if x < 0 as real {
        assert(x * p < x) by (nonlinear_arith)
            requires
                p > 1 as real,
                x < 0 as real,
        ;
    } else {
        assert((0 as real) * p == 0 as real) by (nonlinear_arith);
    }
}

proof fn lemma_lowered<T: Real>(v: spec_fn(T) -> real, x: T, penalty: T, y: T)
    requires
        adds(v),
        multiplies(v),
        orders(v),
        v(penalty) > 1 as real,
        is_lowered(x, penalty, y),
    ensures
        v(y) <= v(x),
        v(x) != 0 as real ==> v(y) < v(x),
        same_sign(v(x), v(y)),
        v(x) > 0 as real ==> v(y) * v(penalty) == v(x),
        v(x) <= 0 as real ==> v(y) == v(x) * v(penalty),
{
    let (z, positive) = choose|z: T, positive: bool|
        is_zero(z) && #[trigger] is_less(z, x, positive) && if positive {
            is_over(x, penalty, y)
        } else {
            is_times(x, penalty, y)
        };
    lemma_lowered_value(v(x), v(penalty), v(y));
}

proof fn lemma_lowered_for<T: Real>(
    v: spec_fn(T) -> real,
    xs: Seq<T>,
    recent: Seq<u32>,
    penalty: T,
    ys: Seq<T>,
    i: int,
)
    requires
        adds(v),
        multiplies(v),
        orders(v),
        v(penalty) > 1 as real,
        is_lowered_for(xs, recent, penalty, ys),
        0 <= i < xs.len(),
        xs.len() <= u32::MAX,
    ensures
        ys.len() == xs.len(),
        v(ys[i]) <= v(xs[i]),
        same_sign(v(xs[i]), v(ys[i])),
        !recent.contains(i as u32) ==> ys[i] == xs[i],
        recent.contains(i as u32) && v(xs[i]) != 0 as real ==> v(ys[i]) < v(xs[i]),
        recent.len() == 1 && recent[0] == i && v(xs[i]) > 0 as real ==> v(ys[i]) * v(penalty) == v(
            xs[i],
        ),
        recent.len() == 1 && recent[0] == i && v(xs[i]) <= 0 as real ==> v(ys[i]) == v(xs[i]) * v(
            penalty,
        ),
    decreases recent.len(),
{
    lemma_lowering_keeps_length(xs, recent, penalty, ys);
    if recent.len() > 0 {
        let rest = recent.drop_last();
        let last = recent.last();
        let mid = choose|mid: Seq<T>|
            is_lowered_for(xs, rest, penalty, mid) && #[trigger] is_lowered_at(
                mid,
                last,
                penalty,
                ys,
            );
        lemma_lowering_keeps_length(xs, rest, penalty, mid);
        lemma_lowered_for(v, xs, rest, penalty, mid, i);
        assert(recent.contains(i as u32) == (rest.contains(i as u32) || last == i)) by {
            if rest.contains(i as u32) {
                let k = choose|k: int| 0 <= k < rest.len() && rest[k] == i as u32;
                assert(recent[k] == i as u32);
            }
            if last == i {
                assert(recent[recent.len() - 1] == i as u32);
            }
            if recent.contains(i as u32) && last != i {
                let k = choose|k: int| 0 <= k < recent.len() && recent[k] == i as u32;
                assert(rest[k] == i as u32);
            }
        }
        if last < mid.len() {
            let y = choose|y: T|
                #[trigger] is_lowered(mid[last as int], penalty, y) && ys == mid.update(
                    last as int,
                    y,
                );
            if last == i {
                lemma_lowered(v, mid[i], penalty, y);
                if recent.len() == 1 {
                    assert(mid == xs);
                }
            } else {
                assert(ys[i] == mid[i]);
            }
        }
    }
}

/// Repetition is discouraged and never rewarded: with a penalty above one, no
/// score rises, negative scores included; that of a recent token falls, unless
/// it is zero; and other tokens keep theirs. A penalty of one or less changes
/// nothing.
pub open spec fn discourages<T: Real>(
    v: spec_fn(T) -> real,
    penalty: T,
    recent: Seq<u32>,
    xs: Seq<T>,
    ys: Seq<T>,
) -> bool {
    &&& ys.len() == xs.len()
    &&& v(penalty) <= 1 as real ==> ys == xs
    &&& forall|i: int| 0 <= i < xs.len() ==> v(#[trigger] ys[i]) <= v(xs[i])
    &&& forall|i: int|
        0 <= i < xs.len() && !recent.contains(i as u32) ==> #[trigger] ys[i] == xs[i]
    &&& forall|i: int|
        0 <= i < xs.len() && recent.contains(i as u32) && v(penalty) > 1 as real && v(xs[i])
            != 0 as real ==> v(#[trigger] ys[i]) < v(xs[i])
    &&& forall|i: int|
        0 <= i < xs.len() && recent.len() == 1 && recent[0] == i && v(penalty) > 1 as real ==> if v(
            xs[i],
        ) > 0 as real {
            v(#[trigger] ys[i]) * v(penalty) == v(xs[i])
        } else {
            v(ys[i]) == v(xs[i]) * v(penalty)
        }
}

/// What repetition leaves of the scores discourages it.
pub proof fn repetition_is_never_rewarded<T: Real>(
    v: spec_fn(T) -> real,
    config: SamplerConfig<T>,
    recent: Seq<u32>,
    xs: Seq<T>,
    ys: Seq<T>,
)
    requires
        adds(v),
        multiplies(v),
        orders(v),
        xs.len() <= u32::MAX,
        is_penalized(config, recent, xs, ys),
    ensures
        discourages(v, config.repetition_penalty, recent, xs, ys),
{
    let penalty = config.repetition_penalty;
    let (one, active) = choose|one: T, active: bool|
        is_one(one) && #[trigger] is_less(one, config.repetition_penalty, active) && if active {
            is_lowered_for(xs, recent, config.repetition_penalty, ys)
        } else {
            ys == xs
        };
    if active {
        lemma_lowering_keeps_length(xs, recent, penalty, ys);
        assert forall|i: int| 0 <= i < xs.len() implies {
            &&& v(#[trigger] ys[i]) <= v(xs[i])
            &&& (!recent.contains(i as u32) ==> ys[i] == xs[i])
            &&& (recent.contains(i as u32) && v(xs[i]) != 0 as real ==> v(ys[i]) < v(xs[i]))
            &&& (recent.len() == 1 && recent[0] == i ==> if v(xs[i]) > 0 as real {
                v(ys[i]) * v(penalty) == v(xs[i])
            } else {
                v(ys[i]) == v(xs[i]) * v(penalty)
            })
        } by {
            lemma_lowered_for(v, xs, recent, penalty, ys, i);
        }
    }
}

proof fn lemma_argmax<T: Real>(v: spec_fn(T) -> real, xs: Seq<T>, i: int)
    requires
        orders(v),
        is_argmax(xs, i),
    ensures
        0 <= i < xs.len(),
        forall|j: int| 0 <= j < xs.len() ==> v(#[trigger] xs[j]) <= v(xs[i]),
        forall|j: int| i < j < xs.len() ==> v(#[trigger] xs[j]) < v(xs[i]),
{
    let keys = choose|keys: Seq<i64>| #[trigger] is_keys(xs, keys) && is_last_largest(keys, i);
    assert forall|j: int| 0 <= j < xs.len() implies v(#[trigger] xs[j]) <= v(xs[i]) by {
        assert(is_order_key(xs[j], keys[j]) && is_order_key(xs[i], keys[i]));
        assert(keys[j] <= keys[i]);
    }
    assert forall|j: int| i < j < xs.len() implies v(#[trigger] xs[j]) < v(xs[i]) by {
        assert(is_order_key(xs[j], keys[j]) && is_order_key(xs[i], keys[i]));
        assert(keys[j] < keys[i]);
    }
}

impl<T: Real> Sampler<T> {
    /// Greedy sampling takes the best score: without repetition, the last of
    /// the highest. A recent token is taken only if it scored at least as high
    /// as every token that is not recent.
    pub proof fn greedy_sampling_takes_the_best(
        &self,
        v: spec_fn(T) -> real,
        xs: Seq<T>,
        token: u32,
        next: &Sampler<T>,
    )
        requires
            adds(v),
            multiplies(v),
            orders(v),
            0 < xs.len() <= u32::MAX,
            v(self.spec_config().temperature) <= 0 as real || self.spec_config().top_k == 1,
            self.is_sampled(xs, token, next),
        ensures
            token < xs.len(),
            forall|j: int|
                0 <= j < xs.len() && !self.spec_recent().contains(j as u32) ==> v(#[trigger] xs[j])
                    <= v(xs[token as int]),
            v(self.spec_config().repetition_penalty) <= 1 as real ==> forall|j: int|
                0 <= j < xs.len() ==> v(#[trigger] xs[j]) <= v(xs[token as int]),
            v(self.spec_config().repetition_penalty) <= 1 as real ==> forall|j: int|
                token < j < xs.len() ==> v(#[trigger] xs[j]) < v(xs[token as int]),
            next.spec_state() == self.spec_state(),
    {
        let config = self.spec_config();
        let (ys, greedy) = choose|ys: Seq<T>, greedy: bool|
            {
                &&& #[trigger] is_penalized(config, self.spec_recent(), xs, ys)
                &&& #[trigger] is_greedy_choice(config, greedy)
                &&& if greedy {
                    is_argmax(ys, token as int) && next.spec_state() == self.spec_state()
                } else {
                    self.is_drawn_from_scores(ys, token, next)
                }
            };
        let (z, cold) = choose|z: T, cold: bool|
            is_zero(z) && #[trigger] is_at_most(config.temperature, z, cold) && greedy == (cold
                || config.top_k == 1);
        assert(greedy);
        repetition_is_never_rewarded(v, config, self.spec_recent(), xs, ys);
        lemma_argmax(v, ys, token as int);
        assert forall|j: int|
            0 <= j < xs.len() && !self.spec_recent().contains(j as u32) implies v(#[trigger] xs[j])
            <= v(xs[token as int]) by {
            assert(ys[j] == xs[j]);
            assert(v(ys[token as int]) <= v(xs[token as int]));
        }
    }

    /// The sampler remembers the tokens it chose last, as many as its window
    /// holds: the oldest is forgotten first.
    pub proof fn the_latest_tokens_are_remembered(
        &self,
        xs: Seq<T>,
        token: u32,
        next: &Sampler<T>,
    )
        requires
            self.wf(),
            self.is_sampled(xs, token, next),
        ensures
            ({
                let all = self.spec_recent().push(token);
                let window = self.spec_config().repetition_window as int;
                &&& window == 0 ==> next.spec_recent() == Seq::<u32>::empty()
                &&& 0 < window && all.len() <= window ==> next.spec_recent() == all
                &&& 0 < window < all.len() ==> next.spec_recent().len() == window
                    && next.spec_recent() == all.skip(all.len() - window)
            }),
    {
    }
}

/// `ps` is the distribution of the scores `xs` at a temperature: positive
/// probabilities that sum to one, no smaller for a higher score, and that stand
/// to each other as the exponentials of the scores divided by the temperature.
pub open spec fn is_tempered<T>(
    v: spec_fn(T) -> real,
    e: spec_fn(real) -> real,
    temperature: real,
    xs: Seq<T>,
    ps: Seq<T>,
) -> bool {
    &&& ps.len() == xs.len()
    &&& total(v, ps) == 1 as real
    &&& forall|i: int| 0 <= i < ps.len() ==> v(#[trigger] ps[i]) > 0 as real
    &&& forall|i: int, j: int|
        0 <= i < ps.len() && 0 <= j < ps.len() && v(xs[i]) <= v(xs[j]) ==> v(#[trigger] ps[i]) <= v(
            #[trigger] ps[j],
        )
    &&& forall|i: int, j: int, s: real, t: real|
        0 <= i < ps.len() && 0 <= j < ps.len() && s * temperature == v(xs[i]) && t * temperature
            == v(xs[j]) ==> v(#[trigger] ps[i]) * #[trigger] e(t) == v(#[trigger] ps[j])
            * #[trigger] e(s)
}

proof fn lemma_cancel(a: real, b: real, t: real)
    requires
        t > 0 as real,
    ensures
        a * t == b * t ==> a == b,
        a * t <= b * t ==> a <= b,
{
    if a < b {
        assert(a * t < b * t) by (nonlinear_arith)
            requires
                a < b,
                t > 0 as real,
        ;
    } else if b < a {
        assert(b * t < a * t) by (nonlinear_arith)
            requires
                b < a,
                t > 0 as real,
        ;
    }
}

proof fn lemma_odds(p: real, q: real, x: real, y: real)
    requires
        p > 0 as real,
        x > 0 as real,
        x <= y,
        p * y == q * x,
    ensures
        p <= q,
{
    if q < p {
        assert(q * x < p * x) by (nonlinear_arith)
            requires
                q < p,
                x > 0 as real,
        ;
        assert(p * x <= p * y) by (nonlinear_arith)
            requires
                p > 0 as real,
                x <= y,
        ;
    }
}

/// Probabilities are those of the scores at the temperature.
pub proof fn probabilities_are_tempered<T: Real>(
    v: spec_fn(T) -> real,
    e: spec_fn(real) -> real,
    temperature: T,
    xs: Seq<T>,
    ps: Seq<T>,
)
    requires
        adds(v),
        multiplies(v),
        exponentiates(v, e),
        v(temperature) > 0 as real,
        xs.len() > 0,
        is_probabilities(xs, temperature, ps),
    ensures
        is_tempered(v, e, v(temperature), xs, ps),
{
    let ys = choose|ys: Seq<T>| #[trigger] is_divided(xs, temperature, ys) && is_softmax(ys, ps);
    softmax_is_a_distribution(v, e, ys, ps);
    let h = v(temperature);
    assert forall|i: int| 0 <= i < ys.len() implies v(#[trigger] ys[i]) * h == v(xs[i]) by {
        assert(is_over(xs[i], temperature, ys[i]));
    }
    assert forall|i: int, j: int|
        0 <= i < ps.len() && 0 <= j < ps.len() && v(xs[i]) <= v(xs[j]) implies v(#[trigger] ps[i])
        <= v(#[trigger] ps[j]) by {
        lemma_cancel(v(ys[i]), v(ys[j]), h);
        lemma_odds(v(ps[i]), v(ps[j]), e(v(ys[i])), e(v(ys[j])));
    }
    assert forall|i: int, j: int, s: real, t: real|
        0 <= i < ps.len() && 0 <= j < ps.len() && s * h == v(xs[i]) && t * h == v(xs[j]) implies v(
        #[trigger] ps[i],
    ) * #[trigger] e(t) == v(#[trigger] ps[j]) * #[trigger] e(s) by {
        lemma_cancel(s, v(ys[i]), h);
        lemma_cancel(t, v(ys[j]), h);
    }
}

/// The probability that the first `k` of the ranked tokens have together.
pub open spec fn mass<T>(v: spec_fn(T) -> real, ps: Seq<T>, order: Seq<usize>, k: int) -> real
    decreases k,
{
    if k <= 0 {
        0 as real
    } else {
        mass(v, ps, order, k - 1) + v(ps[order[k - 1] as int])
    }
}

/// `order` names every token once, the more probable first, and of equally
/// probable ones the smaller.
pub open spec fn ranks<T>(v: spec_fn(T) -> real, ps: Seq<T>, order: Seq<usize>) -> bool {
    &&& order.len() == ps.len()
    &&& order.no_duplicates()
    &&& forall|a: int| 0 <= a < order.len() ==> (#[trigger] order[a]) < ps.len()
    &&& forall|a: int, b: int|
        0 <= a < b < order.len() ==> {
            ||| v(ps[#[trigger] order[a] as int]) > v(ps[#[trigger] order[b] as int])
            ||| v(ps[order[a] as int]) == v(ps[order[b] as int]) && order[a] < order[b]
        }
}

/// The first `n` of the ranked tokens are the candidates: at most `top_k` of
/// them, and no more than are needed for a probability of `top_p` together.
pub open spec fn are_candidates<T: Real>(
    v: spec_fn(T) -> real,
    config: SamplerConfig<T>,
    ps: Seq<T>,
    order: Seq<usize>,
    n: int,
) -> bool {
    let bound = if 0 < config.top_k < ps.len() {
        config.top_k as int
    } else {
        ps.len() as int
    };
    &&& 0 < n <= bound
    &&& v(config.top_p) >= 1 as real ==> n == bound
    &&& v(config.top_p) < 1 as real ==> {
        &&& forall|k: int|
            0 < k < n ==> #[trigger] mass(v, ps, order, k) < v(config.top_p)
        &&& n < bound ==> mass(v, ps, order, n) >= v(config.top_p)
    }
}

/// The fraction that the top bits of `u` stand for, of the probability of all
/// `n` candidates, falls to candidate `i`.
pub open spec fn falls_to<T>(
    v: spec_fn(T) -> real,
    ps: Seq<T>,
    order: Seq<usize>,
    n: int,
    u: u64,
    i: int,
) -> bool {
    let part = (u >> 40) as int as real * mass(v, ps, order, n);
    &&& 0 <= i < n
    &&& mass(v, ps, order, i) * (0x100_0000 as real) <= part
    &&& part < mass(v, ps, order, i + 1) * (0x100_0000 as real)
}

proof fn lemma_ranked_total<T: Real>(
    v: spec_fn(T) -> real,
    ps: Seq<T>,
    order: Seq<usize>,
    n: int,
    k: int,
)
    requires
        0 <= k <= n,
    ensures
        total(v, ranked(ps, order, n).take(k)) == mass(v, ps, order, k),
    decreases k,
{
    let xs = ranked(ps, order, n);
    if k > 0 {
        assert(xs.take(k).drop_last() =~= xs.take(k - 1));
        assert(xs.take(k).last() == ps[order[k - 1] as int]);
        lemma_ranked_total(v, ps, order, n, k - 1);
    }
}

proof fn lemma_running<T: Real>(v: spec_fn(T) -> real, xs: Seq<T>, z: T, cs: Seq<T>, j: int)
    requires
        adds(v),
        is_zero(z),
        is_running(xs, z, cs),
        0 <= j < cs.len(),
    ensures
        v(cs[j]) == total(v, xs.take(j + 1)),
    decreases j,
{
    assert(xs.take(j + 1).drop_last() =~= xs.take(j));
    assert(xs.take(j + 1).last() == xs[j]);
    if j == 0 {
        assert(total(v, xs.take(0)) == 0 as real);
        assert(is_plus(z, xs[0], cs[0]));
    } else {
        lemma_running(v, xs, z, cs, j - 1);
        assert(is_plus(cs[j - 1], xs[j], cs[j]));
    }
}

proof fn lemma_ranks<T: Real>(v: spec_fn(T) -> real, ps: Seq<T>, order: Seq<usize>)
    requires
        orders(v),
        ps.len() <= usize::MAX,
        is_order(ps, order),
    ensures
        ranks(v, ps, order),
{
    let keys = choose|keys: Seq<i64>| #[trigger] is_keys(ps, keys) && is_ranking(keys, order);
    lemma_ranking(keys, order);
    ranking_repeats_nothing(keys, order);
    assert forall|a: int, b: int| 0 <= a < b < order.len() implies {
        ||| v(ps[#[trigger] order[a] as int]) > v(ps[#[trigger] order[b] as int])
        ||| v(ps[order[a] as int]) == v(ps[order[b] as int]) && order[a] < order[b]
    } by {
        let (x, y) = (order[a] as int, order[b] as int);
        assert(precedes(keys, order[a], order[b]));
        assert(is_order_key(ps[x], keys[x]) && is_order_key(ps[y], keys[y]));
    }
}

proof fn lemma_candidates<T: Real>(
    v: spec_fn(T) -> real,
    config: SamplerConfig<T>,
    ps: Seq<T>,
    order: Seq<usize>,
    n: int,
)
    requires
        adds(v),
        multiplies(v),
        orders(v),
        ps.len() > 0,
        is_cut(config, ps, order, n),
    ensures
        are_candidates(v, config, ps, order, n),
{
    let kept = kept_by_count(config.top_k, ps.len() as int);
    let xs = ranked(ps, order, kept);
    let (one, active) = choose|one: T, active: bool|
        is_one(one) && #[trigger] is_less(config.top_p, one, active) && if active {
            is_nucleus(ranked(ps, order, kept), config.top_p, n)
        } else {
            n == kept
        };
    if active {
        let (z, cs, last) = choose|z: T, cs: Seq<T>, last: bool|
            {
                &&& is_zero(z)
                &&& #[trigger] is_running(xs, z, cs)
                &&& 0 < n == cs.len()
                &&& forall|i: int|
                    0 <= i < n - 1 ==> is_at_most(config.top_p, #[trigger] cs[i], false)
                &&& #[trigger] is_at_most(config.top_p, cs[n - 1], last)
                &&& last || n == xs.len()
            };
        assert forall|k: int| 0 < k < n implies #[trigger] mass(v, ps, order, k) < v(
            config.top_p,
        ) by {
            lemma_running(v, xs, z, cs, k - 1);
            lemma_ranked_total(v, ps, order, kept, k);
            assert(is_at_most(config.top_p, cs[k - 1], false));
        }
        lemma_running(v, xs, z, cs, n - 1);
        lemma_ranked_total(v, ps, order, kept, n);
    }
}

proof fn lemma_share(r: real, f: real, w: real, inv: real, z: real, m: real)
    requires
        r * w == f,
        w > 0 as real,
        inv * z == 1 as real,
        z > 0 as real,
    ensures
        m * inv <= r ==> m * w <= f * z,
        r < m * inv ==> f * z < m * w,
        r < 1 as real ==> f * z < z * w,
{
    assert(f * z == (r * z) * w) by (nonlinear_arith)
        requires
            r * w == f,
    ;
    assert((m * inv) * z == m) by (nonlinear_arith)
        requires
            inv * z == 1 as real,
    ;
    let s = r * z;
    let c = m * inv;
    if c <= r {
        assert(c * z <= r * z) by (nonlinear_arith)
            requires
                c <= r,
                z > 0 as real,
        ;
        assert(m * w <= s * w) by (nonlinear_arith)
            requires
                m <= s,
                w > 0 as real,
        ;
    } else {
        assert(r * z < c * z) by (nonlinear_arith)
            requires
                r < c,
                z > 0 as real,
        ;
        assert(s * w < m * w) by (nonlinear_arith)
            requires
                s < m,
                w > 0 as real,
        ;
    }
    if r < 1 as real {
        assert(r * z < z) by (nonlinear_arith)
            requires
                r < 1 as real,
                z > 0 as real,
        ;
        assert(s * w < z * w) by (nonlinear_arith)
            requires
                s < z,
                w > 0 as real,
        ;
    }
}

proof fn lemma_fraction<T: Real>(v: spec_fn(T) -> real, u: u64, r: T)
    requires
        multiplies(v),
        counts(v),
        is_fraction(u, r),
    ensures
        v(r) * (0x100_0000 as real) == (u >> 40) as int as real,
        v(r) >= 0 as real,
        v(r) < 1 as real,
{
    fractions_are_below_one(u);
    let (a, b) = choose|a: T, b: T|
        is_i32((u >> 40) as i32, a) && is_i32(0x100_0000, b) && #[trigger] is_over(a, b, r);
    assert(v(b) == 0x100_0000 as real);
}

proof fn lemma_falls_to<T: Real>(
    v: spec_fn(T) -> real,
    ps: Seq<T>,
    order: Seq<usize>,
    n: int,
    inv: T,
    u: u64,
    r: T,
    i: int,
)
    requires
        adds(v),
        multiplies(v),
        counts(v),
        orders(v),
        forall|j: int| 0 <= j < ps.len() ==> v(#[trigger] ps[j]) > 0 as real,
        ranks(v, ps, order),
        0 < n <= ps.len(),
        is_renormalizer(ranked(ps, order, n), inv),
        is_fraction(u, r),
        is_pick(ranked(ps, order, n), inv, r, i),
    ensures
        falls_to(v, ps, order, n, u, i),
{
    let xs = ranked(ps, order, n);
    let (sum, z, positive, one) = choose|sum: T, z: T, positive: bool, one: T|
        {
            &&& #[trigger] is_sum(xs, sum)
            &&& is_zero(z)
            &&& #[trigger] is_less(z, sum, positive)
            &&& #[trigger] is_one(one)
            &&& if positive {
                is_over(one, sum, inv)
            } else {
                inv == one
            }
        };
    sums_are_totals(v, xs, sum);
    assert forall|j: int| 0 <= j < xs.len() implies v(#[trigger] xs[j]) > 0 as real by {
        assert(order[j] < ps.len());
    }
    lemma_total_positive(v, xs);
    assert(xs.take(n) =~= xs);
    lemma_ranked_total(v, ps, order, n, n);
    let whole = mass(v, ps, order, n);
    assert(v(inv) * whole == 1 as real);
    let (ys, zero, cs, last) = choose|ys: Seq<T>, zero: T, cs: Seq<T>, last: bool|
        {
            &&& #[trigger] is_scaled(xs, inv, ys)
            &&& is_zero(zero)
            &&& #[trigger] is_running(ys, zero, cs)
            &&& 0 <= i < xs.len()
            &&& ys.len() == i + 1 == cs.len()
            &&& forall|j: int| 0 <= j < i ==> is_less(r, #[trigger] cs[j], false)
            &&& #[trigger] is_less(r, cs[i], last)
            &&& last || i == xs.len() - 1
        };
    assert forall|k: int| 0 <= k <= i implies v(#[trigger] cs[k]) == mass(v, ps, order, k + 1) * v(
        inv,
    ) by {
        lemma_running(v, ys, zero, cs, k);
        assert forall|j: int| 0 <= j < k + 1 implies v(#[trigger] ys.take(k + 1)[j]) == v(
            xs.take(k + 1)[j],
        ) * v(inv) by {
            assert(is_times(xs[j], inv, ys[j]));
        }
        lemma_total_scaled(v, xs.take(k + 1), v(inv), ys.take(k + 1));
        lemma_ranked_total(v, ps, order, n, k + 1);
    }
    lemma_fraction(v, u, r);
    let f = (u >> 40) as int as real;
    let w = 0x100_0000 as real;
    assert(w > 0 as real);
    if i > 0 {
        assert(is_less(r, cs[i - 1], false));
        lemma_share(v(r), f, w, v(inv), whole, mass(v, ps, order, i));
    } else {
        assert(f * whole >= 0 as real) by (nonlinear_arith)
            requires
                f >= 0 as real,
                whole > 0 as real,
        ;
    }
    lemma_share(v(r), f, w, v(inv), whole, mass(v, ps, order, i + 1));
}

/// A draw is fair: the candidates are the most probable tokens, and each is
/// drawn for a share of the random numbers as large as its share of the
/// candidates' probability.
pub proof fn draws_are_fair<T: Real>(
    v: spec_fn(T) -> real,
    config: SamplerConfig<T>,
    ps: Seq<T>,
    u: u64,
    token: u32,
)
    requires
        adds(v),
        multiplies(v),
        counts(v),
        orders(v),
        0 < ps.len() <= usize::MAX,
        forall|j: int| 0 <= j < ps.len() ==> v(#[trigger] ps[j]) > 0 as real,
        is_drawn(config, ps, u, token),
    ensures
        is_fair_draw(v, config, ps, u, token),
{
    let (order, n, inv, r, i) = choose|order: Seq<usize>, n: int, inv: T, r: T, i: int|
        {
            &&& #[trigger] is_order(ps, order)
            &&& #[trigger] is_cut(config, ps, order, n)
            &&& #[trigger] is_renormalizer(ranked(ps, order, n), inv)
            &&& is_fraction(u, r)
            &&& #[trigger] is_pick(ranked(ps, order, n), inv, r, i)
            &&& token == order[i]
        };
    lemma_ranks(v, ps, order);
    lemma_candidates(v, config, ps, order, n);
    lemma_falls_to(v, ps, order, n, inv, u, r, i);
}

/// `token` is the candidate to which the random bits `u` fall.
pub open spec fn is_fair_draw<T: Real>(
    v: spec_fn(T) -> real,
    config: SamplerConfig<T>,
    ps: Seq<T>,
    u: u64,
    token: u32,
) -> bool {
    exists|order: Seq<usize>, n: int, i: int|
        {
            &&& ranks(v, ps, order)
            &&& #[trigger] are_candidates(v, config, ps, order, n)
            &&& #[trigger] falls_to(v, ps, order, n, u, i)
            &&& token == order[i]
        }
}

impl<T: Real> Sampler<T> {
    /// Above zero temperature, and with more than one candidate, sampling draws
    /// fairly from the distribution at the temperature of scores that
    /// discourage repetition.
    pub proof fn sampling_draws_fairly(
        &self,
        v: spec_fn(T) -> real,
        e: spec_fn(real) -> real,
        xs: Seq<T>,
        token: u32,
        next: &Sampler<T>,
    )
        requires
            adds(v),
            multiplies(v),
            counts(v),
            orders(v),
            exponentiates(v, e),
            0 < xs.len() <= u32::MAX,
            v(self.spec_config().temperature) > 0 as real,
            self.spec_config().top_k != 1,
            self.is_sampled(xs, token, next),
        ensures
            exists|ys: Seq<T>, ps: Seq<T>|
                {
                    &&& #[trigger] discourages(
                        v,
                        self.spec_config().repetition_penalty,
                        self.spec_recent(),
                        xs,
                        ys,
                    )
                    &&& #[trigger] is_tempered(v, e, v(self.spec_config().temperature), ys, ps)
                    &&& is_fair_draw(v, self.spec_config(), ps, next.spec_state(), token)
                },
            next.spec_state() == xorshift(self.spec_state()),
    {
        let config = self.spec_config();
        let (ys, greedy) = choose|ys: Seq<T>, greedy: bool|
            {
                &&& #[trigger] is_penalized(config, self.spec_recent(), xs, ys)
                &&& #[trigger] is_greedy_choice(config, greedy)
                &&& if greedy {
                    is_argmax(ys, token as int) && next.spec_state() == self.spec_state()
                } else {
                    self.is_drawn_from_scores(ys, token, next)
                }
            };
        let (z, cold) = choose|z: T, cold: bool|
            is_zero(z) && #[trigger] is_at_most(config.temperature, z, cold) && greedy == (cold
                || config.top_k == 1);
        assert(!greedy);
        repetition_is_never_rewarded(v, config, self.spec_recent(), xs, ys);
        let ps = choose|ps: Seq<T>|
            {
                &&& #[trigger] is_probabilities(ys, config.temperature, ps)
                &&& is_drawn(config, ps, next.spec_state(), token)
            };
        probabilities_are_tempered(v, e, config.temperature, ys, ps);
        draws_are_fair(v, config, ps, next.spec_state(), token);
    }

    /// The probability that comes with a token is that of the token in the
    /// distribution it was taken from: at the temperature, or at one for the
    /// best token.
    pub proof fn reported_probabilities_are_true(
        &self,
        v: spec_fn(T) -> real,
        e: spec_fn(real) -> real,
        xs: Seq<T>,
        token: u32,
        prob: T,
        next: &Sampler<T>,
    )
        requires
            adds(v),
            multiplies(v),
            counts(v),
            orders(v),
            exponentiates(v, e),
            0 < xs.len() <= u32::MAX,
            self.is_sampled_with_prob(xs, token, prob, next),
        ensures
            token < xs.len(),
            exists|ps: Seq<T>|
                prob == #[trigger] ps[token as int] && if v(self.spec_config().temperature)
                    <= 0 as real || self.spec_config().top_k == 1 {
                    &&& is_tempered(v, e, 1 as real, xs, ps)
                    &&& forall|j: int| 0 <= j < xs.len() ==> v(#[trigger] xs[j]) <= v(
                        xs[token as int],
                    )
                } else {
                    &&& is_tempered(v, e, v(self.spec_config().temperature), xs, ps)
                    &&& is_fair_draw(v, self.spec_config(), ps, next.spec_state(), token)
                },
    {
        let config = self.spec_config();
        let (greedy, ps) = choose|greedy: bool, ps: Seq<T>|
            {
                &&& #[trigger] is_greedy_choice(config, greedy)
                &&& prob == #[trigger] ps[token as int]
                &&& if greedy {
                    &&& is_argmax(xs, token as int)
                    &&& is_softmax(xs, ps)
                    &&& next.spec_state() == self.spec_state()
                } else {
                    &&& is_probabilities(xs, config.temperature, ps)
                    &&& next.spec_state() == xorshift(self.spec_state())
                    &&& is_drawn(config, ps, next.spec_state(), token)
                }
            };
        let (z, cold) = choose|z: T, cold: bool|
            is_zero(z) && #[trigger] is_at_most(config.temperature, z, cold) && greedy == (cold
                || config.top_k == 1);
        if greedy {
            lemma_argmax(v, xs, token as int);
            softmax_is_a_distribution(v, e, xs, ps);
            assert forall|i: int, j: int|
                0 <= i < ps.len() && 0 <= j < ps.len() && v(xs[i]) <= v(xs[j]) implies v(
                #[trigger] ps[i],
            ) <= v(#[trigger] ps[j]) by {
                lemma_odds(v(ps[i]), v(ps[j]), e(v(xs[i])), e(v(xs[j])));
            }
            assert(is_tempered(v, e, 1 as real, xs, ps));
        } else {
            probabilities_are_tempered(v, e, config.temperature, xs, ps);
            draws_are_fair(v, config, ps, next.spec_state(), token);
            let (order, n, i) = choose|order: Seq<usize>, n: int, i: int|
                {
                    &&& ranks(v, ps, order)
                    &&& #[trigger] are_candidates(v, config, ps, order, n)
                    &&& #[trigger] falls_to(v, ps, order, n, next.spec_state(), i)
                    &&& token == order[i]
                };
        }
    }
}

} // verus!
