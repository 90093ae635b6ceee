//! The same seed gives the same text: over a number type whose operations are
//! functions, sampling and generation have one result.

use crate::layers::determinism::softmax_is_unique;
use crate::layers::generate::{ends_properly, finished, step_input};
use crate::layers::kv_cache::KvCache;
use crate::layers::model::TransformerModel;
use crate::layers::sampler::{
    Sampler, SamplerConfig, is_argmax, is_cut, is_divided, is_drawn, is_fraction, is_greedy_choice,
    is_keys, is_last_largest, is_lowered, is_lowered_at, is_lowered_for, is_nucleus, is_order,
    is_penalized, is_pick, is_probabilities, is_renormalizer, is_running, is_scaled, kept_by_count,
    ranked,
};
use crate::layers::softmax::is_softmax;
use crate::numeric::{
    Real, is_at_most, is_functional, is_i32, is_less, is_one, is_order_key, is_over, is_plus,
    is_sum, is_times, is_zero, sums_are_unique,
};
use crate::rows::row_of;
use crate::sort::{is_ranking, rankings_are_unique};
use vstd::prelude::*;

verus! {

proof fn lemma_lowered<T: Real>(x: T, penalty: T, y1: T, y2: T)
    requires
        is_functional::<T>(),
        is_lowered(x, penalty, y1),
        is_lowered(x, penalty, y2),
    ensures
        y1 == y2,
{
    let (z1, p1) = choose|z: T, positive: bool|
        is_zero(z) && #[trigger] is_less(z, x, positive) && if positive {
            is_over(x, penalty, y1)
        } else {
            is_times(x, penalty, y1)
        };
    let (z2, p2) = choose|z: T, positive: bool|
        is_zero(z) && #[trigger] is_less(z, x, positive) && if positive {
            is_over(x, penalty, y2)
        } else {
            is_times(x, penalty, y2)
        };
    assert(z1 == z2);
    assert(p1 == p2);
}

proof fn lemma_lowered_for<T: Real>(
    xs: Seq<T>,
    recent: Seq<u32>,
    penalty: T,
    ys1: Seq<T>,
    ys2: Seq<T>,
)
    requires
        is_functional::<T>(),
        is_lowered_for(xs, recent, penalty, ys1),
        is_lowered_for(xs, recent, penalty, ys2),
    ensures
        ys1 == ys2,
    decreases recent.len(),
{
    if recent.len() > 0 {
        let m1 = choose|mid: Seq<T>|
            is_lowered_for(xs, recent.drop_last(), penalty, mid) && #[trigger] is_lowered_at(
                mid,
                recent.last(),
                penalty,
                ys1,
            );
        let m2 = choose|mid: Seq<T>|
            is_lowered_for(xs, recent.drop_last(), penalty, mid) && #[trigger] is_lowered_at(
                mid,
                recent.last(),
                penalty,
                ys2,
            );
        lemma_lowered_for(xs, recent.drop_last(), penalty, m1, m2);
        let token = recent.last();
        if token < m1.len() {
            let y1 = choose|y: T| #[trigger] is_lowered(m1[token as int], penalty, y) && ys1
                == m1.update(token as int, y);
            let y2 = choose|y: T| #[trigger] is_lowered(m1[token as int], penalty, y) && ys2
                == m1.update(token as int, y);
            lemma_lowered(m1[token as int], penalty, y1, y2);
        }
    }
}

proof fn lemma_penalized<T: Real>(
    config: SamplerConfig<T>,
    recent: Seq<u32>,
    xs: Seq<T>,
    ys1: Seq<T>,
    ys2: Seq<T>,
)
    requires
        is_functional::<T>(),
        is_penalized(config, recent, xs, ys1),
        is_penalized(config, recent, xs, ys2),
    ensures
        ys1 == ys2,
{
    let penalty = config.repetition_penalty;
    let (one1, a1) = choose|one: T, active: bool|
        is_one(one) && #[trigger] is_less(one, penalty, active) && if active {
            is_lowered_for(xs, recent, penalty, ys1)
        } else {
            ys1 == xs
        };
    let (one2, a2) = choose|one: T, active: bool|
        is_one(one) && #[trigger] is_less(one, penalty, active) && if active {
            is_lowered_for(xs, recent, penalty, ys2)
        } else {
            ys2 == xs
        };
    assert(one1 == one2);
    assert(a1 == a2);
    if a1 {
        lemma_lowered_for(xs, recent, penalty, ys1, ys2);
    }
}

proof fn lemma_greedy_choice<T: Real>(config: SamplerConfig<T>, g1: bool, g2: bool)
    requires
        is_functional::<T>(),
        is_greedy_choice(config, g1),
        is_greedy_choice(config, g2),
    ensures
        g1 == g2,
{
    let (z1, c1) = choose|z: T, cold: bool|
        is_zero(z) && #[trigger] is_at_most(config.temperature, z, cold) && g1 == (cold
            || config.top_k == 1);
    let (z2, c2) = choose|z: T, cold: bool|
        is_zero(z) && #[trigger] is_at_most(config.temperature, z, cold) && g2 == (cold
            || config.top_k == 1);
    assert(z1 == z2);
    assert(c1 == c2);
}

proof fn lemma_keys<T: Real>(xs: Seq<T>, k1: Seq<i64>, k2: Seq<i64>)
    requires
        is_functional::<T>(),
        is_keys(xs, k1),
        is_keys(xs, k2),
    ensures
        k1 == k2,
{
    assert forall|i: int| 0 <= i < k1.len() implies k1[i] == k2[i] by {
        assert(is_order_key(xs[i], k1[i]) && is_order_key(xs[i], k2[i]));
    }
    assert(k1 =~= k2);
}

proof fn lemma_argmax<T: Real>(xs: Seq<T>, i: int, j: int)
    requires
        is_functional::<T>(),
        is_argmax(xs, i),
        is_argmax(xs, j),
    ensures
        i == j,
{
    let k1 = choose|keys: Seq<i64>| #[trigger] is_keys(xs, keys) && is_last_largest(keys, i);
    let k2 = choose|keys: Seq<i64>| #[trigger] is_keys(xs, keys) && is_last_largest(keys, j);
    lemma_keys(xs, k1, k2);
    if i < j {
        assert(k1[j] < k1[i]);
        assert(k1[i] <= k1[j]);
    } else if j < i {
        assert(k1[i] < k1[j]);
        assert(k1[j] <= k1[i]);
    }
}

proof fn lemma_probabilities<T: Real>(xs: Seq<T>, temperature: T, ps1: Seq<T>, ps2: Seq<T>)
    requires
        is_functional::<T>(),
        is_probabilities(xs, temperature, ps1),
        is_probabilities(xs, temperature, ps2),
    ensures
        ps1 == ps2,
{
    let ys1 = choose|ys: Seq<T>| #[trigger] is_divided(xs, temperature, ys) && is_softmax(ys, ps1);
    let ys2 = choose|ys: Seq<T>| #[trigger] is_divided(xs, temperature, ys) && is_softmax(ys, ps2);
    assert forall|i: int| 0 <= i < ys1.len() implies ys1[i] == ys2[i] by {
        assert(is_over(xs[i], temperature, ys1[i]) && is_over(xs[i], temperature, ys2[i]));
    }
    assert(ys1 =~= ys2);
    softmax_is_unique(ys1, ps1, ps2);
}

proof fn lemma_order<T: Real>(ps: Seq<T>, a: Seq<usize>, b: Seq<usize>)
    requires
        is_functional::<T>(),
        is_order(ps, a),
        is_order(ps, b),
    ensures
        a == b,
{
    let k1 = choose|keys: Seq<i64>| #[trigger] is_keys(ps, keys) && is_ranking(keys, a);
    let k2 = choose|keys: Seq<i64>| #[trigger] is_keys(ps, keys) && is_ranking(keys, b);
    lemma_keys(ps, k1, k2);
    rankings_are_unique(k1, a, b);
}

/// Running sums agree as far as both reach.
proof fn lemma_running<T: Real>(xs: Seq<T>, ys: Seq<T>, z: T, cs: Seq<T>, ds: Seq<T>, i: int)
    requires
        is_functional::<T>(),
        is_running(xs, z, cs),
        is_running(ys, z, ds),
        0 <= i < cs.len(),
        i < ds.len(),
        forall|j: int| 0 <= j <= i ==> #[trigger] xs[j] == ys[j],
    ensures
        cs[i] == ds[i],
    decreases i,
{
    assert(xs[i] == ys[i]);
    if i > 0 {
        lemma_running(xs, ys, z, cs, ds, i - 1);
    }
    let before = if i == 0 {
        z
    } else {
        cs[i - 1]
    };
    assert(is_plus(before, xs[i], cs[i]));
    assert(is_plus(before, xs[i], ds[i]));
}

proof fn lemma_nucleus<T: Real>(xs: Seq<T>, p: T, n: int, m: int)
    requires
        is_functional::<T>(),
        is_nucleus(xs, p, n),
        is_nucleus(xs, p, m),
    ensures
        n == m,
{
    let (z1, cs, last1) = choose|z: T, cs: Seq<T>, last: bool|
        {
            &&& is_zero(z)
            &&& #[trigger] is_running(xs, z, cs)
            &&& 0 < n == cs.len()
            &&& forall|i: int| 0 <= i < n - 1 ==> is_at_most(p, #[trigger] cs[i], false)
            &&& #[trigger] is_at_most(p, cs[n - 1], last)
            &&& last || n == xs.len()
        };
    let (z2, ds, last2) = choose|z: T, cs: Seq<T>, last: bool|
        {
            &&& is_zero(z)
            &&& #[trigger] is_running(xs, z, cs)
            &&& 0 < m == cs.len()
            &&& forall|i: int| 0 <= i < m - 1 ==> is_at_most(p, #[trigger] cs[i], false)
            &&& #[trigger] is_at_most(p, cs[m - 1], last)
            &&& last || m == xs.len()
        };
    assert(z1 == z2);
    if n < m {
        lemma_running(xs, xs, z1, cs, ds, n - 1);
        assert(is_at_most(p, ds[n - 1], false));
    } else if m < n {
        lemma_running(xs, xs, z1, cs, ds, m - 1);
        assert(is_at_most(p, cs[m - 1], false));
    }
}

proof fn lemma_cut<T: Real>(
    config: SamplerConfig<T>,
    ps: Seq<T>,
    order: Seq<usize>,
    n: int,
    m: int,
)
    requires
        is_functional::<T>(),
        is_cut(config, ps, order, n),
        is_cut(config, ps, order, m),
    ensures
        n == m,
{
    let kept = kept_by_count(config.top_k, ps.len() as int);
    let xs = ranked(ps, order, kept);
    let (one1, a1) = choose|one: T, active: bool|
        is_one(one) && #[trigger] is_less(config.top_p, one, active) && if active {
            is_nucleus(xs, config.top_p, n)
        } else {
            n == kept
        };
    let (one2, a2) = choose|one: T, active: bool|
        is_one(one) && #[trigger] is_less(config.top_p, one, active) && if active {
            is_nucleus(xs, config.top_p, m)
        } else {
            m == kept
        };
    assert(one1 == one2);
    assert(a1 == a2);
    if a1 {
        lemma_nucleus(xs, config.top_p, n, m);
    }
}

proof fn lemma_renormalizer<T: Real>(xs: Seq<T>, inv1: T, inv2: T)
    requires
        is_functional::<T>(),
        is_renormalizer(xs, inv1),
        is_renormalizer(xs, inv2),
    ensures
        inv1 == inv2,
{
    let (t1, z1, p1, one1) = choose|total: T, z: T, positive: bool, one: T|
        {
            &&& #[trigger] is_sum(xs, total)
            &&& is_zero(z)
            &&& #[trigger] is_less(z, total, positive)
            &&& #[trigger] is_one(one)
            &&& if positive {
                is_over(one, total, inv1)
            } else {
                inv1 == one
            }
        };
    let (t2, z2, p2, one2) = choose|total: T, z: T, positive: bool, one: T|
        {
            &&& #[trigger] is_sum(xs, total)
            &&& is_zero(z)
            &&& #[trigger] is_less(z, total, positive)
            &&& #[trigger] is_one(one)
            &&& if positive {
                is_over(one, total, inv2)
            } else {
                inv2 == one
            }
        };
    sums_are_unique(xs, t1, t2);
    assert(z1 == z2);
    assert(one1 == one2);
    assert(p1 == p2);
}

proof fn lemma_fraction<T: Real>(u: u64, r: T, s: T)
    requires
        is_functional::<T>(),
        is_fraction(u, r),
        is_fraction(u, s),
    ensures
        r == s,
{
    let (a1, b1) = choose|a: T, b: T|
        is_i32((u >> 40) as i32, a) && is_i32(0x100_0000, b) && #[trigger] is_over(a, b, r);
    let (a2, b2) = choose|a: T, b: T|
        is_i32((u >> 40) as i32, a) && is_i32(0x100_0000, b) && #[trigger] is_over(a, b, s);
    assert(a1 == a2);
    assert(b1 == b2);
}

proof fn lemma_pick<T: Real>(xs: Seq<T>, inv: T, r: T, i: int, j: int)
    requires
        is_functional::<T>(),
        is_pick(xs, inv, r, i),
        is_pick(xs, inv, r, j),
    ensures
        i == j,
{
    let (ys1, z1, cs, last1) = choose|ys: Seq<T>, z: T, cs: Seq<T>, last: bool|
        {
            &&& #[trigger] is_scaled(xs, inv, ys)
            &&& is_zero(z)
            &&& #[trigger] is_running(ys, z, cs)
            &&& 0 <= i < xs.len()
            &&& ys.len() == i + 1 == cs.len()
            &&& forall|j: int| 0 <= j < i ==> is_less(r, #[trigger] cs[j], false)
            &&& #[trigger] is_less(r, cs[i], last)
            &&& last || i == xs.len() - 1
        };
    let (ys2, z2, ds, last2) = choose|ys: Seq<T>, z: T, cs: Seq<T>, last: bool|
        {
            &&& #[trigger] is_scaled(xs, inv, ys)
            &&& is_zero(z)
            &&& #[trigger] is_running(ys, z, cs)
            &&& 0 <= j < xs.len()
            &&& ys.len() == j + 1 == cs.len()
            &&& forall|i: int| 0 <= i < j ==> is_less(r, #[trigger] cs[i], false)
            &&& #[trigger] is_less(r, cs[j], last)
            &&& last || j == xs.len() - 1
        };
    assert(z1 == z2);
    let m = if i < j {
        i
    } else {
        j
    };
    assert forall|k: int| 0 <= k <= m implies #[trigger] ys1[k] == ys2[k] by {
        assert(is_times(xs[k], inv, ys1[k]) && is_times(xs[k], inv, ys2[k]));
    }
    lemma_running(ys1, ys2, z1, cs, ds, m);
    if i < j {
        assert(is_less(r, ds[i], false));
    } else if j < i {
        assert(is_less(r, cs[j], false));
    }
}

proof fn lemma_drawn<T: Real>(config: SamplerConfig<T>, ps: Seq<T>, u: u64, t1: u32, t2: u32)
    requires
        is_functional::<T>(),
        is_drawn(config, ps, u, t1),
        is_drawn(config, ps, u, t2),
    ensures
        t1 == t2,
{
    let (o1, n1, inv1, r1, i1) = choose|order: Seq<usize>, n: int, inv: T, r: T, i: int|
        {
            &&& #[trigger] is_order(ps, order)
            &&& #[trigger] is_cut(config, ps, order, n)
            &&& #[trigger] is_renormalizer(ranked(ps, order, n), inv)
            &&& is_fraction(u, r)
            &&& #[trigger] is_pick(ranked(ps, order, n), inv, r, i)
            &&& t1 == order[i]
        };
    let (o2, n2, inv2, r2, i2) = choose|order: Seq<usize>, n: int, inv: T, r: T, i: int|
        {
            &&& #[trigger] is_order(ps, order)
            &&& #[trigger] is_cut(config, ps, order, n)
            &&& #[trigger] is_renormalizer(ranked(ps, order, n), inv)
            &&& is_fraction(u, r)
            &&& #[trigger] is_pick(ranked(ps, order, n), inv, r, i)
            &&& t2 == order[i]
        };
    lemma_order(ps, o1, o2);
    lemma_cut(config, ps, o1, n1, n2);
    lemma_renormalizer(ranked(ps, o1, n1), inv1, inv2);
    lemma_fraction(u, r1, r2);
    lemma_pick(ranked(ps, o1, n1), inv1, r1, i1, i2);
}

/// Two samplers are in the same state.
pub open spec fn same_sampler<T: Real>(a: Sampler<T>, b: Sampler<T>) -> bool {
    &&& a.spec_config() == b.spec_config()
    &&& a.spec_state() == b.spec_state()
    &&& a.spec_recent() == b.spec_recent()
}

/// Samplers in the same state choose the same token from the same scores, and
/// go on to the same state.
pub proof fn sampling_is_reproducible<T: Real>(
    a: Sampler<T>,
    b: Sampler<T>,
    xs: Seq<T>,
    token1: u32,
    next1: Sampler<T>,
    token2: u32,
    next2: Sampler<T>,
)
    requires
        is_functional::<T>(),
        same_sampler(a, b),
        a.is_sampled(xs, token1, &next1),
        b.is_sampled(xs, token2, &next2),
    ensures
        token1 == token2,
        same_sampler(next1, next2),
{
    let config = a.spec_config();
    let (ys1, g1) = choose|ys: Seq<T>, greedy: bool|
        {
            &&& #[trigger] is_penalized(config, a.spec_recent(), xs, ys)
            &&& #[trigger] is_greedy_choice(config, greedy)
            &&& if greedy {
                is_argmax(ys, token1 as int) && next1.spec_state() == a.spec_state()
            } else {
                a.is_drawn_from_scores(ys, token1, &next1)
            }
        };
    let (ys2, g2) = choose|ys: Seq<T>, greedy: bool|
        {
            &&& #[trigger] is_penalized(config, b.spec_recent(), xs, ys)
            &&& #[trigger] is_greedy_choice(config, greedy)
            &&& if greedy {
                is_argmax(ys, token2 as int) && next2.spec_state() == b.spec_state()
            } else {
                b.is_drawn_from_scores(ys, token2, &next2)
            }
        };
    lemma_penalized(config, a.spec_recent(), xs, ys1, ys2);
    lemma_greedy_choice(config, g1, g2);
    if g1 {
        lemma_argmax(ys1, token1 as int, token2 as int);
    } else {
        let ps1 = choose|ps: Seq<T>|
            {
                &&& #[trigger] is_probabilities(ys1, config.temperature, ps)
                &&& is_drawn(config, ps, next1.spec_state(), token1)
            };
        let ps2 = choose|ps: Seq<T>|
            {
                &&& #[trigger] is_probabilities(ys1, config.temperature, ps)
                &&& is_drawn(config, ps, next2.spec_state(), token2)
            };
        lemma_probabilities(ys1, config.temperature, ps1, ps2);
        lemma_drawn(config, ps1, next1.spec_state(), token1, token2);
    }
}

impl<T: Real> TransformerModel<T> {
    proof fn lemma_runs_agree(
        &self,
        prompt: Seq<u32>,
        caches1: Seq<Seq<KvCache<T>>>,
        samplers1: Seq<Sampler<T>>,
        tokens1: Seq<u32>,
        caches2: Seq<Seq<KvCache<T>>>,
        samplers2: Seq<Sampler<T>>,
        tokens2: Seq<u32>,
        i: int,
    )
        requires
            is_functional::<T>(),
            self.wf(),
            self.is_run(prompt, caches1, samplers1, tokens1),
            self.is_run(prompt, caches2, samplers2, tokens2),
            self.same_caches(caches1[0], caches2[0]),
            same_sampler(samplers1[0], samplers2[0]),
            0 <= i <= tokens1.len(),
            i <= tokens2.len(),
        ensures
            self.same_caches(caches1[i], caches2[i]),
            same_sampler(samplers1[i], samplers2[i]),
            forall|j: int| 0 <= j < i ==> #[trigger] tokens1[j] == tokens2[j],
        decreases i,
    {
        if i > 0 {
            let k = i - 1;
            self.lemma_runs_agree(
                prompt,
                caches1,
                samplers1,
                tokens1,
                caches2,
                samplers2,
                tokens2,
                k,
            );
            assert(step_input(prompt, tokens2, k) =~= step_input(prompt, tokens1, k));
            assert(self.is_run_step(prompt, caches1, samplers1, tokens1, k));
            assert(self.is_run_step(prompt, caches2, samplers2, tokens2, k));
            self.lemma_steps_agree(
                step_input(prompt, tokens1, k),
                caches1[k],
                samplers1[k],
                tokens1[k],
                caches1[i],
                samplers1[i],
                caches2[k],
                samplers2[k],
                tokens2[k],
                caches2[i],
                samplers2[i],
            );
        }
    }

    proof fn lemma_steps_agree(
        &self,
        input: Seq<u32>,
        cache1: Seq<KvCache<T>>,
        sampler1: Sampler<T>,
        token1: u32,
        next_cache1: Seq<KvCache<T>>,
        next_sampler1: Sampler<T>,
        cache2: Seq<KvCache<T>>,
        sampler2: Sampler<T>,
        token2: u32,
        next_cache2: Seq<KvCache<T>>,
        next_sampler2: Sampler<T>,
    )
        requires
            is_functional::<T>(),
            self.wf(),
            self.same_caches(cache1, cache2),
            same_sampler(sampler1, sampler2),
            self.is_generation_step(input, cache1, sampler1, token1, next_cache1, next_sampler1),
            self.is_generation_step(input, cache2, sampler2, token2, next_cache2, next_sampler2),
        ensures
            token1 == token2,
            self.same_caches(next_cache1, next_cache2),
            same_sampler(next_sampler1, next_sampler2),
    {
        reveal(TransformerModel::is_generation_step);
        let last = input.len() - 1;
        let vocab = self.spec_vocab_size() as int;
        let ls1 = choose|ls: Seq<T>|
            {
                &&& #[trigger] self.is_cached_forward(cache1, input, next_cache1, ls)
                &&& sampler1.is_sampled(row_of(ls, vocab, last), token1, &next_sampler1)
            };
        let ls2 = choose|ls: Seq<T>|
            {
                &&& #[trigger] self.is_cached_forward(cache2, input, next_cache2, ls)
                &&& sampler2.is_sampled(row_of(ls, vocab, last), token2, &next_sampler2)
            };
        self.cached_forward_is_unique(input, cache1, next_cache1, ls1, cache2, next_cache2, ls2);
        sampling_is_reproducible(
            sampler1,
            sampler2,
            row_of(ls1, vocab, last),
            token1,
            next_sampler1,
            token2,
            next_sampler2,
        );
    }

    /// The same prompt, configuration and seed give the same text.
    pub proof fn generation_is_reproducible(
        &self,
        prompt: Seq<u32>,
        max_tokens: usize,
        config: SamplerConfig<T>,
        seed: u64,
        stop: Option<u32>,
        sequence1: Seq<u32>,
        sequence2: Seq<u32>,
    )
        requires
            is_functional::<T>(),
            self.wf(),
            self.is_generation(prompt, max_tokens, config, seed, stop, sequence1),
            self.is_generation(prompt, max_tokens, config, seed, stop, sequence2),
        ensures
            sequence1 == sequence2,
    {
        let len = prompt.len() + max_tokens;
        let (caches1, samplers1, tokens1) = choose|
            caches: Seq<Seq<KvCache<T>>>,
            samplers: Seq<Sampler<T>>,
            tokens: Seq<u32>,
        |
            {
                &&& #[trigger] self.is_run(prompt, caches, samplers, tokens)
                &&& self.is_start(len, config, seed, caches[0], samplers[0])
                &&& ends_properly(tokens, max_tokens, stop)
                &&& sequence1 == finished(prompt, tokens, stop)
            };
        let (caches2, samplers2, tokens2) = choose|
            caches: Seq<Seq<KvCache<T>>>,
            samplers: Seq<Sampler<T>>,
            tokens: Seq<u32>,
        |
            {
                &&& #[trigger] self.is_run(prompt, caches, samplers, tokens)
                &&& self.is_start(len, config, seed, caches[0], samplers[0])
                &&& ends_properly(tokens, max_tokens, stop)
                &&& sequence2 == finished(prompt, tokens, stop)
            };
        assert forall|i: int| 0 <= i < self.spec_blocks().len() implies
            crate::layers::determinism::same_contents(#[trigger] caches1[0][i], caches2[0][i]) by {
            let a = caches1[0][i];
            let b = caches2[0][i];
            a.cache_facts();
            b.cache_facts();
            assert(0 * a.spec_kv_dim() == 0 && 0 * b.spec_kv_dim() == 0) by (nonlinear_arith);
            assert(a.spec_keys() =~= b.spec_keys());
            assert(a.spec_values() =~= b.spec_values());
        }
        let n = if tokens1.len() <= tokens2.len() {
            tokens1.len() as int
        } else {
            tokens2.len() as int
        };
        self.lemma_runs_agree(
            prompt,
            caches1,
            samplers1,
            tokens1,
            caches2,
            samplers2,
            tokens2,
            n,
        );
        if tokens1.len() < tokens2.len() {
            assert(tokens1[n - 1] == tokens2[n - 1]);
            assert(stop != Some(tokens2[n - 1]));
        } else if tokens2.len() < tokens1.len() {
            assert(tokens1[n - 1] == tokens2[n - 1]);
            assert(stop != Some(tokens1[n - 1]));
        }
        assert(tokens1 =~= tokens2);
    }
}

} // verus!
