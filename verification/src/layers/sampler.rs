//! Choosing the next token from scores.
//!
//! Greedy sampling takes the highest score. Otherwise scores are divided by a
//! temperature and turned into probabilities; the candidates are the `top_k`
//! most probable tokens, cut further to those that together reach the
//! probability `top_p`; and one of them is drawn.

use crate::layers::softmax::{is_softmax, softmax_inplace};
use crate::numeric::{
    Real, is_at_most, is_i32, is_less, is_one, is_order_key, is_over, is_plus, is_sum, is_times,
    is_zero, sum,
};
use crate::sort::{is_ranking, lemma_ranking, rank};
use vstd::prelude::*;

verus! {

/// How to sample.
#[derive(Debug, Clone, Copy)]
pub struct SamplerConfig<T: Real> {
    /// Divides the scores; zero or less means greedy.
    pub temperature: T,
    /// How many candidates to keep at most; 0 keeps all, 1 means greedy.
    pub top_k: usize,
    /// The probability that the candidates are to reach; one or more keeps all.
    pub top_p: T,
    /// What scores of recent tokens are lowered by; one or less changes none.
    pub repetition_penalty: T,
    /// How many recent tokens to remember; 0 remembers none.
    pub repetition_window: usize,
}

impl<T: Real> Default for SamplerConfig<T> {
    fn default() -> (c: Self)
        ensures
            is_one(c.temperature),
            c.top_k == 0,
            is_one(c.top_p),
            is_one(c.repetition_penalty),
            c.repetition_window == 0,
    {
        SamplerConfig {
            temperature: T::one(),
            top_k: 0,
            top_p: T::one(),
            repetition_penalty: T::one(),
            repetition_window: 0,
        }
    }
}

impl<T: Real> SamplerConfig<T> {
    /// Take the highest score.
    pub fn greedy() -> (c: Self)
        ensures
            is_zero(c.temperature),
            c.top_k == 1,
            is_one(c.top_p),
            is_one(c.repetition_penalty),
            c.repetition_window == 0,
    {
        SamplerConfig {
            temperature: T::zero(),
            top_k: 1,
            top_p: T::one(),
            repetition_penalty: T::one(),
            repetition_window: 0,
        }
    }

    /// Draw from the `k` most probable tokens.
    pub fn top_k(k: usize, temperature: T) -> (c: Self)
        ensures
            c.temperature == temperature,
            c.top_k == k,
            is_one(c.top_p),
            is_one(c.repetition_penalty),
            c.repetition_window == 0,
    {
        SamplerConfig {
            temperature,
            top_k: k,
            top_p: T::one(),
            repetition_penalty: T::one(),
            repetition_window: 0,
        }
    }

    /// Draw from the most probable tokens that reach the probability `p`.
    pub fn top_p(p: T, temperature: T) -> (c: Self)
        ensures
            c.temperature == temperature,
            c.top_k == 0,
            c.top_p == p,
            is_one(c.repetition_penalty),
            c.repetition_window == 0,
    {
        SamplerConfig {
            temperature,
            top_k: 0,
            top_p: p,
            repetition_penalty: T::one(),
            repetition_window: 0,
        }
    }
}

/// One step of the xorshift generator.
pub open spec fn xorshift(x: u64) -> u64 {
    let a = x ^ (x << 13);
    let b = a ^ (a >> 7);
    b ^ (b << 17)
}

/// The generator never reaches zero, where it would stay.
pub proof fn xorshift_never_sticks(x: u64)
    requires
        x != 0,
    ensures
        xorshift(x) != 0,
{
    let a = x ^ (x << 13);
    let b = a ^ (a >> 7);
    assert(x != 0 ==> (x ^ (x << 13)) != 0) by (bit_vector);
    assert(a != 0 ==> (a ^ (a >> 7)) != 0) by (bit_vector);
    assert(b != 0 ==> (b ^ (b << 17)) != 0) by (bit_vector);
}

/// `r` is the fraction that the top 24 bits of `u` stand for.
pub open spec fn is_fraction<T: Real>(u: u64, r: T) -> bool {
    exists|a: T, b: T|
        is_i32((u >> 40) as i32, a) && is_i32(0x100_0000, b) && #[trigger] is_over(a, b, r)
}

/// The fraction lies in the unit interval, one excluded: its numerator is
/// below its denominator.
pub proof fn fractions_are_below_one(u: u64)
    ensures
        u >> 40 < 0x100_0000,
        ((u >> 40) as i32) == u >> 40,
{
    assert((u >> 40) < 0x100_0000) by (bit_vector);
}

/// The remembered tokens after one more was produced.
pub open spec fn remembered(recent: Seq<u32>, window: usize, token: u32) -> Seq<u32> {
    if window == 0 {
        recent
    } else if recent.len() + 1 > window {
        recent.push(token).skip(1)
    } else {
        recent.push(token)
    }
}

/// `y` is the score `x` of a recent token, lowered: divided by the penalty if
/// positive, multiplied by it if not.
pub open spec fn is_lowered<T: Real>(x: T, penalty: T, y: T) -> bool {
    exists|z: T, positive: bool|
        is_zero(z) && #[trigger] is_less(z, x, positive) && if positive {
            is_over(x, penalty, y)
        } else {
            is_times(x, penalty, y)
        }
}

/// `ys` is `xs` with the score of one token lowered, if it has a score.
pub open spec fn is_lowered_at<T: Real>(xs: Seq<T>, token: u32, penalty: T, ys: Seq<T>) -> bool {
    if token < xs.len() {
        exists|y: T| #[trigger] is_lowered(xs[token as int], penalty, y) && ys == xs.update(token as int, y)
    } else {
        ys == xs
    }
}

/// `ys` is `xs` with the scores of the recent tokens lowered, once for each
/// time that a token occurs.
pub open spec fn is_lowered_for<T: Real>(
    xs: Seq<T>,
    recent: Seq<u32>,
    penalty: T,
    ys: Seq<T>,
) -> bool
    decreases recent.len(),
{
    if recent.len() == 0 {
        ys == xs
    } else {
        exists|mid: Seq<T>|
            is_lowered_for(xs, recent.drop_last(), penalty, mid) && #[trigger] is_lowered_at(
                mid,
                recent.last(),
                penalty,
                ys,
            )
    }
}

/// `ys` is what repetition leaves of the scores `xs`.
pub open spec fn is_penalized<T: Real>(
    config: SamplerConfig<T>,
    recent: Seq<u32>,
    xs: Seq<T>,
    ys: Seq<T>,
) -> bool {
    exists|one: T, active: bool|
        is_one(one) && #[trigger] is_less(one, config.repetition_penalty, active) && if active {
            is_lowered_for(xs, recent, config.repetition_penalty, ys)
        } else {
            ys == xs
        }
}

/// Whether sampling is greedy.
pub open spec fn is_greedy_choice<T: Real>(config: SamplerConfig<T>, greedy: bool) -> bool {
    exists|z: T, cold: bool|
        is_zero(z) && #[trigger] is_at_most(config.temperature, z, cold) && greedy == (cold
            || config.top_k == 1)
}

/// `keys` orders as `xs` does.
pub open spec fn is_keys<T: Real>(xs: Seq<T>, keys: Seq<i64>) -> bool {
    &&& keys.len() == xs.len()
    &&& forall|i: int| 0 <= i < xs.len() ==> is_order_key(xs[i], #[trigger] keys[i])
}

/// `i` is the last position of the largest key.
pub open spec fn is_last_largest(keys: Seq<i64>, i: int) -> bool {
    &&& 0 <= i < keys.len()
    &&& forall|j: int| 0 <= j < keys.len() ==> (#[trigger] keys[j]) <= keys[i]
    &&& forall|j: int| i < j < keys.len() ==> (#[trigger] keys[j]) < keys[i]
}

/// `i` is the last position of the largest of `xs`.
pub open spec fn is_argmax<T: Real>(xs: Seq<T>, i: int) -> bool {
    exists|keys: Seq<i64>| #[trigger] is_keys(xs, keys) && is_last_largest(keys, i)
}

/// `ys` holds the elements of `xs` divided by `d`.
pub open spec fn is_divided<T: Real>(xs: Seq<T>, d: T, ys: Seq<T>) -> bool {
    &&& ys.len() == xs.len()
    &&& forall|i: int| 0 <= i < xs.len() ==> is_over(xs[i], d, #[trigger] ys[i])
}

/// `ps` holds the probabilities that scores have at a temperature.
pub open spec fn is_probabilities<T: Real>(xs: Seq<T>, temperature: T, ps: Seq<T>) -> bool {
    exists|ys: Seq<T>| #[trigger] is_divided(xs, temperature, ys) && is_softmax(ys, ps)
}

/// `order` ranks the positions of `ps`, the most probable first.
pub open spec fn is_order<T: Real>(ps: Seq<T>, order: Seq<usize>) -> bool {
    exists|keys: Seq<i64>| #[trigger] is_keys(ps, keys) && is_ranking(keys, order)
}

/// How many candidates `top_k` leaves out of `n`.
pub open spec fn kept_by_count(top_k: usize, n: int) -> int {
    if 0 < top_k < n {
        top_k as int
    } else {
        n
    }
}

/// The probabilities of ranked candidates.
pub open spec fn ranked<T: Real>(ps: Seq<T>, order: Seq<usize>, n: int) -> Seq<T> {
    Seq::new(n as nat, |i: int| ps[order[i] as int])
}

/// `cs` holds the running sums of `xs` from zero.
pub open spec fn is_running<T: Real>(xs: Seq<T>, z: T, cs: Seq<T>) -> bool {
    &&& cs.len() <= xs.len()
    &&& forall|i: int|
        0 <= i < cs.len() ==> is_plus(
            if i == 0 {
                z
            } else {
                cs[i - 1]
            },
            xs[i],
            #[trigger] cs[i],
        )
}

/// `n` is the number of leading elements of `xs` whose sum first reaches `p`,
/// or all of them.
pub open spec fn is_nucleus<T: Real>(xs: Seq<T>, p: T, n: int) -> bool {
    exists|z: T, cs: Seq<T>, last: bool|
        {
            &&& is_zero(z)
            &&& #[trigger] is_running(xs, z, cs)
            &&& 0 < n == cs.len()
            &&& forall|i: int| 0 <= i < n - 1 ==> is_at_most(p, #[trigger] cs[i], false)
            &&& #[trigger] is_at_most(p, cs[n - 1], last)
            &&& last || n == xs.len()
        }
}

/// `n` is the number of candidates among ranked probabilities.
pub open spec fn is_cut<T: Real>(
    config: SamplerConfig<T>,
    ps: Seq<T>,
    order: Seq<usize>,
    n: int,
) -> bool {
    let kept = kept_by_count(config.top_k, ps.len() as int);
    exists|one: T, active: bool|
        is_one(one) && #[trigger] is_less(config.top_p, one, active) && if active {
            is_nucleus(ranked(ps, order, kept), config.top_p, n)
        } else {
            n == kept
        }
}

/// `inv` is the factor that makes the candidates' probabilities sum to one.
pub open spec fn is_renormalizer<T: Real>(xs: Seq<T>, inv: T) -> bool {
    exists|total: T, z: T, positive: bool, one: T|
        {
            &&& #[trigger] is_sum(xs, total)
            &&& is_zero(z)
            &&& #[trigger] is_less(z, total, positive)
            &&& #[trigger] is_one(one)
            &&& if positive {
                is_over(one, total, inv)
            } else {
                inv == one
            }
        }
}

/// `ys` holds the first elements of `xs` times `inv`.
pub open spec fn is_scaled<T: Real>(xs: Seq<T>, inv: T, ys: Seq<T>) -> bool {
    &&& ys.len() <= xs.len()
    &&& forall|i: int| 0 <= i < ys.len() ==> is_times(xs[i], inv, #[trigger] ys[i])
}

/// `i` is the first of the candidates at which the running sum of `xs` times
/// `inv` exceeds `r`, or the last candidate.
pub open spec fn is_pick<T: Real>(xs: Seq<T>, inv: T, r: T, i: int) -> bool {
    exists|ys: Seq<T>, z: T, cs: Seq<T>, last: bool|
        {
            &&& #[trigger] is_scaled(xs, inv, ys)
            &&& is_zero(z)
            &&& #[trigger] is_running(ys, z, cs)
            &&& 0 <= i < xs.len()
            &&& ys.len() == i + 1 == cs.len()
            &&& forall|j: int| 0 <= j < i ==> is_less(r, #[trigger] cs[j], false)
            &&& #[trigger] is_less(r, cs[i], last)
            &&& last || i == xs.len() - 1
        }
}

/// `token` is drawn from probabilities with the random bits `u`.
pub open spec fn is_drawn<T: Real>(
    config: SamplerConfig<T>,
    ps: Seq<T>,
    u: u64,
    token: u32,
) -> bool {
    exists|order: Seq<usize>, n: int, inv: T, r: T, i: int|
        {
            &&& #[trigger] is_order(ps, order)
            &&& #[trigger] is_cut(config, ps, order, n)
            &&& #[trigger] is_renormalizer(ranked(ps, order, n), inv)
            &&& is_fraction(u, r)
            &&& #[trigger] is_pick(ranked(ps, order, n), inv, r, i)
            &&& token == order[i]
        }
}

/// Keys that order as numbers do.
fn order_keys<T: Real>(values: &[T]) -> (keys: Vec<i64>)
    ensures
        is_keys(values@, keys@),
{
    let mut keys: Vec<i64> = Vec::new();
    let mut i: usize = 0;
    while i < values.len()
        invariant
            i <= values@.len(),
            keys@.len() == i,
            forall|j: int| 0 <= j < i ==> is_order_key(values@[j], #[trigger] keys@[j]),
        decreases values@.len() - i,
    {
        keys.push(values[i].order_key());
        i += 1;
    }
    keys
}

/// The last position of the largest key.
pub fn last_largest(keys: &[i64]) -> (best: usize)
    requires
        keys@.len() > 0,
    ensures
        is_last_largest(keys@, best as int),
{
    let mut best: usize = 0;
    let mut i: usize = 1;
    while i < keys.len()
        invariant
            1 <= i <= keys@.len(),
            best < i,
            forall|j: int| 0 <= j < i ==> (#[trigger] keys@[j]) <= keys@[best as int],
            forall|j: int| best < j < i ==> (#[trigger] keys@[j]) < keys@[best as int],
        decreases keys@.len() - i,
    {
        if keys[i] >= keys[best] {
            best = i;
        }
        i += 1;
    }
    best
}

/// The last position of the largest number; zero for none.
pub fn argmax<T: Real>(values: &[T]) -> (i: usize)
    ensures
        values@.len() > 0 ==> is_argmax(values@, i as int),
        values@.len() == 0 ==> i == 0,
{
    if values.len() == 0 {
        return 0;
    }
    let keys: Vec<i64> = order_keys(values);
    last_largest(keys.as_slice())
}

/// Chooses tokens.
#[derive(Debug)]
pub struct Sampler<T: Real> {
    config: SamplerConfig<T>,
    rng_state: u64,
    recent_tokens: Vec<u32>,
}

impl<T: Real> Sampler<T> {
    pub closed spec fn spec_config(&self) -> SamplerConfig<T> {
        self.config
    }

    pub closed spec fn spec_state(&self) -> u64 {
        self.rng_state
    }

    pub closed spec fn spec_recent(&self) -> Seq<u32> {
        self.recent_tokens@
    }

    /// The generator is not stuck, and no more tokens are remembered than the
    /// window allows.
    pub open spec fn wf(&self) -> bool {
        &&& self.spec_state() != 0
        &&& self.spec_recent().len() <= self.spec_config().repetition_window
    }

    /// A sampler that has not chosen anything yet.
    pub open spec fn is_fresh(&self, config: SamplerConfig<T>, seed: u64) -> bool {
        &&& self.spec_config() == config
        &&& self.spec_state() == if seed == 0 {
            1
        } else {
            seed
        }
        &&& self.spec_recent() == Seq::<u32>::empty()
    }

    /// What sampling gives for scores `xs`: a token, and the sampler's next
    /// state.
    pub open spec fn is_sampled(&self, xs: Seq<T>, token: u32, next: &Sampler<T>) -> bool {
        &&& next.spec_config() == self.spec_config()
        &&& next.spec_recent() == remembered(
            self.spec_recent(),
            self.spec_config().repetition_window,
            token,
        )
        &&& exists|ys: Seq<T>, greedy: bool|
            {
                &&& #[trigger] is_penalized(self.spec_config(), self.spec_recent(), xs, ys)
                &&& #[trigger] is_greedy_choice(self.spec_config(), greedy)
                &&& if greedy {
                    is_argmax(ys, token as int) && next.spec_state() == self.spec_state()
                } else {
                    self.is_drawn_from_scores(ys, token, next)
                }
            }
    }

    /// What drawing gives for scores `ys`.
    pub open spec fn is_drawn_from_scores(&self, ys: Seq<T>, token: u32, next: &Sampler<T>) -> bool {
        &&& next.spec_state() == xorshift(self.spec_state())
        &&& exists|ps: Seq<T>|
            {
                &&& #[trigger] is_probabilities(ys, self.spec_config().temperature, ps)
                &&& is_drawn(self.spec_config(), ps, next.spec_state(), token)
            }
    }

    /// A sampler with a seed; the seed zero counts as one.
    pub fn new(config: SamplerConfig<T>, seed: u64) -> (s: Self)
        ensures
            s.wf(),
            s.is_fresh(config, seed),
    {
        Sampler {
            config,
            rng_state: if seed == 0 {
                1
            } else {
                seed
            },
            recent_tokens: Vec::new(),
        }
    }

    /// A greedy sampler.
    pub fn greedy() -> (s: Self)
        ensures
            s.wf(),
            is_zero(s.spec_config().temperature),
            s.spec_config().top_k == 1,
            is_one(s.spec_config().top_p),
            is_one(s.spec_config().repetition_penalty),
            s.spec_config().repetition_window == 0,
            s.spec_state() == 1,
            s.spec_recent() == Seq::<u32>::empty(),
    {
        Sampler::new(SamplerConfig::greedy(), 1)
    }

    /// The scores that repetition leaves.
    fn penalize(&self, logits: &[T]) -> (ys: Vec<T>)
        ensures
            is_penalized(self.spec_config(), self.spec_recent(), logits@, ys@),
            ys@.len() == logits@.len(),
    {
        let mut ys: Vec<T> = vstd::slice::slice_to_vec(logits);
        let penalty = self.config.repetition_penalty;
        let one = T::one();
        let active: bool = one.less(penalty);
        assert(is_less(one, penalty, active));
        if active {
            let ghost recent = self.recent_tokens@;
            let mut i: usize = 0;
            assert(recent.take(0) =~= Seq::<u32>::empty());
            while i < self.recent_tokens.len()
                invariant
                    recent == self.recent_tokens@,
                    i <= recent.len(),
                    ys@.len() == logits@.len(),
                    is_lowered_for(logits@, recent.take(i as int), penalty, ys@),
                decreases recent.len() - i,
            {
                let token: u32 = self.recent_tokens[i];
                let ghost before = ys@;
                if (token as usize) < ys.len() {
                    let x = ys[token as usize];
                    let y = if T::zero().less(x) {
                        x.over(penalty)
                    } else {
                        x.times(penalty)
                    };
                    assert(is_lowered(x, penalty, y));
                    ys[token as usize] = y;
                }
                proof {
                    assert(is_lowered_at(before, token, penalty, ys@));
                    assert(recent.take(i + 1).drop_last() =~= recent.take(i as int));
                    assert(recent.take(i + 1).last() == token);
                }
                i += 1;
            }
            assert(recent.take(recent.len() as int) =~= recent);
        }
        ys
    }

    /// Whether sampling is greedy.
    fn is_greedy(&self) -> (greedy: bool)
        ensures
            is_greedy_choice(self.spec_config(), greedy),
    {
        let cold: bool = self.config.temperature.at_most(T::zero());
        cold || self.config.top_k == 1
    }

    /// The probabilities of scores.
    fn probabilities(&self, ys: &[T]) -> (ps: Vec<T>)
        ensures
            is_probabilities(ys@, self.spec_config().temperature, ps@),
            ps@.len() == ys@.len(),
    {
        let mut scaled: Vec<T> = Vec::new();
        let mut i: usize = 0;
        while i < ys.len()
            invariant
                i <= ys@.len(),
                scaled@.len() == i,
                forall|j: int|
                    0 <= j < i ==> is_over(ys@[j], self.config.temperature, #[trigger] scaled@[j]),
            decreases ys@.len() - i,
        {
            scaled.push(ys[i].over(self.config.temperature));
            i += 1;
        }
        assert(is_divided(ys@, self.config.temperature, scaled@));
        softmax_inplace(&mut scaled);
        scaled
    }

    /// The number of candidates among ranked probabilities.
    fn cut(&self, probs: &[T], order: &[usize]) -> (n: usize)
        requires
            probs@.len() > 0,
            order@.len() == probs@.len(),
            forall|i: int| 0 <= i < order@.len() ==> (#[trigger] order@[i]) < probs@.len(),
        ensures
            is_cut(self.spec_config(), probs@, order@, n as int),
            0 < n <= order@.len(),
    {
        let total: usize = probs.len();
        let kept: usize = if 0 < self.config.top_k && self.config.top_k < total {
            self.config.top_k
        } else {
            total
        };
        let top_p = self.config.top_p;
        let one = T::one();
        let active: bool = top_p.less(one);
        assert(is_less(top_p, one, active));
        if !active {
            return kept;
        }
        let ghost xs = ranked(probs@, order@, kept as int);
        let z = T::zero();
        let mut cumulative = z;
        let ghost mut cs: Seq<T> = Seq::empty();
        let mut i: usize = 0;
        while i < kept
            invariant
                kept <= order@.len() == probs@.len(),
                forall|i: int| 0 <= i < order@.len() ==> (#[trigger] order@[i]) < probs@.len(),
                xs == ranked(probs@, order@, kept as int),
                self.spec_config().top_p == top_p,
                kept == kept_by_count(self.spec_config().top_k, probs@.len() as int),
                is_one(one),
                is_less(top_p, one, true),
                is_zero(z),
                i <= kept,
                cs.len() == i,
                is_running(xs, z, cs),
                cumulative == if i == 0 {
                    z
                } else {
                    cs[i - 1]
                },
                forall|j: int| 0 <= j < i ==> is_at_most(top_p, #[trigger] cs[j], false),
            decreases kept - i,
        {
            let ghost before = cs;
            cumulative = cumulative.plus(probs[order[i]]);
            proof {
                cs = cs.push(cumulative);
                assert forall|j: int| 0 <= j < cs.len() implies is_plus(
                    if j == 0 {
                        z
                    } else {
                        cs[j - 1]
                    },
                    xs[j],
                    #[trigger] cs[j],
                ) by {
                    if j < i {
                        assert(cs[j] == before[j]);
                    }
                }
                assert(is_running(xs, z, cs));
            }
            let reached: bool = top_p.at_most(cumulative);
            if reached {
                assert(is_at_most(top_p, cs[i + 1 - 1], true));
                assert(is_nucleus(xs, top_p, i + 1));
                return i + 1;
            }
            i += 1;
        }
        assert(is_at_most(top_p, cs[kept - 1], false));
        assert(is_nucleus(xs, top_p, kept as int));
        kept
    }

    /// The factor that makes the candidates' probabilities sum to one.
    fn renormalizer(&self, xs: &[T]) -> (inv: T)
        ensures
            is_renormalizer(xs@, inv),
    {
        let total = sum(xs);
        let positive: bool = T::zero().less(total);
        let one = T::one();
        if positive {
            one.over(total)
        } else {
            one
        }
    }

    /// Walk along the candidates until the running sum exceeds `r`.
    fn pick(&self, xs: &[T], inv: T, r: T) -> (i: usize)
        requires
            xs@.len() > 0,
        ensures
            is_pick(xs@, inv, r, i as int),
            i < xs@.len(),
    {
        let z = T::zero();
        let mut cumulative = z;
        let ghost mut ys: Seq<T> = Seq::empty();
        let ghost mut cs: Seq<T> = Seq::empty();
        let mut i: usize = 0;
        loop
            invariant
                i < xs@.len(),
                is_zero(z),
                ys.len() == i == cs.len(),
                is_scaled(xs@, inv, ys),
                is_running(ys, z, cs),
                cumulative == if i == 0 {
                    z
                } else {
                    cs[i - 1]
                },
                forall|j: int| 0 <= j < i ==> is_less(r, #[trigger] cs[j], false),
            decreases xs@.len() - i,
        {
            let y = xs[i].times(inv);
            cumulative = cumulative.plus(y);
            let ghost ys0 = ys;
            let ghost cs0 = cs;
            proof {
                ys = ys.push(y);
                cs = cs.push(cumulative);
                assert forall|j: int| 0 <= j < ys.len() implies is_times(xs@[j], inv, #[trigger] ys[j]) by {
                    if j < i {
                        assert(ys[j] == ys0[j]);
                    }
                }
                assert forall|j: int| 0 <= j < cs.len() implies is_plus(
                    if j == 0 {
                        z
                    } else {
                        cs[j - 1]
                    },
                    ys[j],
                    #[trigger] cs[j],
                ) by {
                    if j < i {
                        assert(cs[j] == cs0[j]);
                        assert(ys[j] == ys0[j]);
                    }
                }
                assert(is_scaled(xs@, inv, ys));
                assert(is_running(ys, z, cs));
            }
            let exceeded: bool = r.less(cumulative);
            assert(is_less(r, cs[i as int], exceeded));
            if exceeded || i == xs.len() - 1 {
                return i;
            }
            i += 1;
        }
    }

    /// The next fraction of the generator.
    fn next_fraction(&mut self) -> (r: T)
        ensures
            final(self).spec_config() == old(self).spec_config(),
            final(self).spec_recent() == old(self).spec_recent(),
            final(self).spec_state() == xorshift(old(self).spec_state()),
            is_fraction(final(self).spec_state(), r),
    {
        let u: u64 = self.next_u64();
        proof {
            fractions_are_below_one(u);
        }
        let a = T::from_i32((u >> 40) as i32);
        let b = T::from_i32(0x100_0000);
        a.over(b)
    }

    /// The next bits of the generator.
    pub fn next_u64(&mut self) -> (u: u64)
        ensures
            final(self).spec_config() == old(self).spec_config(),
            final(self).spec_recent() == old(self).spec_recent(),
            final(self).spec_state() == xorshift(old(self).spec_state()),
            u == final(self).spec_state(),
    {
        let mut x: u64 = self.rng_state;
        x = x ^ (x << 13);
        x = x ^ (x >> 7);
        x = x ^ (x << 17);
        self.rng_state = x;
        x
    }

    /// Draw a token from probabilities.
    pub fn sample_from_probs(&mut self, probs: &[T]) -> (token: u32)
        requires
            0 < probs@.len() <= u32::MAX,
        ensures
            final(self).spec_config() == old(self).spec_config(),
            final(self).spec_recent() == old(self).spec_recent(),
            final(self).spec_state() == xorshift(old(self).spec_state()),
            is_drawn(old(self).spec_config(), probs@, final(self).spec_state(), token),
            token < probs@.len(),
    {
        let keys: Vec<i64> = order_keys(probs);
        let order: Vec<usize> = rank(keys.as_slice());
        proof {
            lemma_ranking(keys@, order@);
        }
        assert(is_order(probs@, order@));
        let n: usize = self.cut(probs, order.as_slice());
        let mut xs: Vec<T> = Vec::new();
        let mut k: usize = 0;
        while k < n
            invariant
                n <= order@.len() == probs@.len(),
                forall|i: int| 0 <= i < order@.len() ==> (#[trigger] order@[i]) < probs@.len(),
                k <= n,
                xs@.len() == k,
                forall|j: int| 0 <= j < k ==> #[trigger] xs@[j] == probs@[order@[j] as int],
            decreases n - k,
        {
            xs.push(probs[order[k]]);
            k += 1;
        }
        assert(xs@ =~= ranked(probs@, order@, n as int));
        let inv = self.renormalizer(xs.as_slice());
        let r = self.next_fraction();
        let i: usize = self.pick(xs.as_slice(), inv, r);
        order[i] as u32
    }

    /// Remember a token.
    pub fn record_token(&mut self, token: u32)
        requires
            old(self).wf(),
        ensures
            final(self).wf(),
            final(self).spec_config() == old(self).spec_config(),
            final(self).spec_state() == old(self).spec_state(),
            final(self).spec_recent() == remembered(
                old(self).spec_recent(),
                old(self).spec_config().repetition_window,
                token,
            ),
    {
        if self.config.repetition_window > 0 {
            self.recent_tokens.push(token);
            if self.recent_tokens.len() > self.config.repetition_window {
                let ghost all = self.recent_tokens@;
                let _ = self.recent_tokens.remove(0);
                assert(self.recent_tokens@ =~= all.skip(1));
            }
        }
    }

    /// Choose a token from scores, and remember it.
    pub fn sample(&mut self, logits: &[T]) -> (token: u32)
        requires
            old(self).wf(),
            0 < logits@.len() <= u32::MAX,
        ensures
            final(self).wf(),
            old(self).is_sampled(logits@, token, final(self)),
            token < logits@.len(),
    {
        let ghost before = *self;
        let ys: Vec<T> = self.penalize(logits);
        let greedy: bool = self.is_greedy();
        if greedy {
            let token: u32 = argmax(ys.as_slice()) as u32;
            self.record_token(token);
            return token;
        }
        let probs: Vec<T> = self.probabilities(ys.as_slice());
        proof {
            xorshift_never_sticks(self.spec_state());
        }
        let token: u32 = self.sample_from_probs(probs.as_slice());
        self.record_token(token);
        assert(before.is_drawn_from_scores(ys@, token, self));
        token
    }

    /// Choose a token from scores and say how probable it was. Repetition is
    /// not looked at, and the token is not remembered.
    pub fn sample_with_prob(&mut self, logits: &[T]) -> (r: (u32, T))
        requires
            old(self).wf(),
            0 < logits@.len() <= u32::MAX,
        ensures
            final(self).wf(),
            final(self).spec_config() == old(self).spec_config(),
            final(self).spec_recent() == old(self).spec_recent(),
            r.0 < logits@.len(),
            old(self).is_sampled_with_prob(logits@, r.0, r.1, final(self)),
    {
        let greedy: bool = self.is_greedy();
        if greedy {
            let idx: usize = argmax(logits);
            let mut probs: Vec<T> = vstd::slice::slice_to_vec(logits);
            softmax_inplace(&mut probs);
            assert(is_softmax(logits@, probs@));
            return (idx as u32, probs[idx]);
        }
        let probs: Vec<T> = self.probabilities(logits);
        proof {
            xorshift_never_sticks(self.spec_state());
        }
        let token: u32 = self.sample_from_probs(probs.as_slice());
        (token, probs[token as usize])
    }

    /// What sampling with a probability gives for scores `xs`.
    pub open spec fn is_sampled_with_prob(
        &self,
        xs: Seq<T>,
        token: u32,
        prob: T,
        next: &Sampler<T>,
    ) -> bool {
        exists|greedy: bool, ps: Seq<T>|
            {
                &&& #[trigger] is_greedy_choice(self.spec_config(), greedy)
                &&& prob == #[trigger] ps[token as int]
                &&& if greedy {
                    &&& is_argmax(xs, token as int)
                    &&& is_softmax(xs, ps)
                    &&& next.spec_state() == self.spec_state()
                } else {
                    &&& is_probabilities(xs, self.spec_config().temperature, ps)
                    &&& next.spec_state() == xorshift(self.spec_state())
                    &&& is_drawn(self.spec_config(), ps, next.spec_state(), token)
                }
            }
    }
}

pub proof fn lemma_lowering_keeps_length<T: Real>(
    xs: Seq<T>,
    recent: Seq<u32>,
    penalty: T,
    ys: Seq<T>,
)
    requires
        is_lowered_for(xs, recent, penalty, ys),
    ensures
        ys.len() == xs.len(),
    decreases recent.len(),
{
    if recent.len() > 0 {
        let mid = choose|mid: Seq<T>|
            is_lowered_for(xs, recent.drop_last(), penalty, mid) && #[trigger] is_lowered_at(
                mid,
                recent.last(),
                penalty,
                ys,
            );
        lemma_lowering_keeps_length(xs, recent.drop_last(), penalty, mid);
    }
}

/// A token that is drawn is one of the candidates: it has a place among the
/// most probable ones, as many of them as `top_k` keeps.
pub proof fn drawn_tokens_are_candidates<T: Real>(
    config: SamplerConfig<T>,
    ps: Seq<T>,
    u: u64,
    token: u32,
)
    requires
        ps.len() <= usize::MAX,
        is_drawn(config, ps, u, token),
    ensures
        token < ps.len(),
        exists|order: Seq<usize>, i: int|
            {
                &&& #[trigger] is_order(ps, order)
                &&& 0 <= i < kept_by_count(config.top_k, ps.len() as int)
                &&& token == #[trigger] order[i]
            },
{
    let (order, n, inv, r, i) = choose|order: Seq<usize>, n: int, inv: T, r: T, i: int|
        {
            &&& #[trigger] is_order(ps, order)
            &&& #[trigger] is_cut(config, ps, order, n)
            &&& #[trigger] is_renormalizer(ranked(ps, order, n), inv)
            &&& is_fraction(u, r)
            &&& #[trigger] is_pick(ranked(ps, order, n), inv, r, i)
            &&& token == order[i]
        };
    let keys = choose|keys: Seq<i64>| #[trigger] is_keys(ps, keys) && is_ranking(keys, order);
    lemma_ranking(keys, order);
    assert(n <= kept_by_count(config.top_k, ps.len() as int));
    assert(0 <= i < kept_by_count(config.top_k, ps.len() as int) && token == order[i]);
}

impl<T: Real> Sampler<T> {
    /// Sampling chooses one of the tokens that have a score.
    pub proof fn sampled_tokens_have_scores(&self, xs: Seq<T>, token: u32, next: &Sampler<T>)
        requires
            xs.len() <= usize::MAX,
            self.is_sampled(xs, token, next),
        ensures
            token < xs.len(),
    {
        let (ys, greedy) = choose|ys: Seq<T>, greedy: bool|
            {
                &&& #[trigger] is_penalized(self.spec_config(), self.spec_recent(), xs, ys)
                &&& #[trigger] is_greedy_choice(self.spec_config(), greedy)
                &&& if greedy {
                    is_argmax(ys, token as int) && next.spec_state() == self.spec_state()
                } else {
                    self.is_drawn_from_scores(ys, token, next)
                }
            };
        let penalty = self.spec_config().repetition_penalty;
        if is_lowered_for(xs, self.spec_recent(), penalty, ys) {
            lemma_lowering_keeps_length(xs, self.spec_recent(), penalty, ys);
        }
        assert(ys.len() == xs.len());
        if !greedy {
            let ps = choose|ps: Seq<T>|
                {
                    &&& #[trigger] is_probabilities(ys, self.spec_config().temperature, ps)
                    &&& is_drawn(self.spec_config(), ps, next.spec_state(), token)
                };
            drawn_tokens_are_candidates(self.spec_config(), ps, next.spec_state(), token);
        }
    }
}

/// Sampling with a configuration is greedy whatever the number type answers.
pub open spec fn is_always_greedy<T: Real>(config: SamplerConfig<T>) -> bool {
    forall|greedy: bool| #[trigger] is_greedy_choice(config, greedy) ==> greedy
}

/// With a single candidate, sampling is greedy.
pub proof fn one_candidate_is_greedy<T: Real>(config: SamplerConfig<T>)
    requires
        config.top_k == 1,
    ensures
        is_always_greedy(config),
{
}

impl<T: Real> Sampler<T> {
    /// The same sampler with another state of its generator.
    pub closed spec fn reseeded(&self, state: u64) -> Sampler<T> {
        Sampler { config: self.config, rng_state: state, recent_tokens: self.recent_tokens }
    }

    pub proof fn lemma_reseeded(&self, state: u64)
        ensures
            self.reseeded(state).spec_config() == self.spec_config(),
            self.reseeded(state).spec_recent() == self.spec_recent(),
            self.reseeded(state).spec_state() == state,
    {
    }

    /// Greedy sampling does not depend on the generator.
    pub proof fn greedy_ignores_the_generator(
        &self,
        xs: Seq<T>,
        token: u32,
        next: &Sampler<T>,
        state: u64,
    )
        requires
            is_always_greedy(self.spec_config()),
            self.is_sampled(xs, token, next),
        ensures
            self.reseeded(state).is_sampled(xs, token, &next.reseeded(state)),
    {
        let (ys, greedy) = choose|ys: Seq<T>, greedy: bool|
            {
                &&& #[trigger] is_penalized(self.spec_config(), self.spec_recent(), xs, ys)
                &&& #[trigger] is_greedy_choice(self.spec_config(), greedy)
                &&& if greedy {
                    is_argmax(ys, token as int) && next.spec_state() == self.spec_state()
                } else {
                    self.is_drawn_from_scores(ys, token, next)
                }
            };
        let other = self.reseeded(state);
        self.lemma_reseeded(state);
        next.lemma_reseeded(state);
        assert(is_penalized(other.spec_config(), other.spec_recent(), xs, ys));
        assert(is_greedy_choice(other.spec_config(), greedy));
    }
}

} // verus!
