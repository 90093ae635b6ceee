//! Generating text token by token.

use crate::layers::kv_cache::{KvCache, ModelKvCache};
use crate::layers::model::TransformerModel;
use crate::layers::sampler::{Sampler, SamplerConfig, is_always_greedy};
use crate::numeric::Real;
use crate::rows::{lemma_row_bounds, row_of, row_slice};
use vstd::prelude::*;

verus! {

/// What is fed to the model in step `i`: the prompt, then the token before.
pub open spec fn step_input(prompt: Seq<u32>, tokens: Seq<u32>, i: int) -> Seq<u32> {
    if i == 0 {
        prompt
    } else {
        seq![tokens[i - 1]]
    }
}

/// The sequence that sampled tokens leave: those before a stop token, after
/// the prompt.
pub open spec fn finished(prompt: Seq<u32>, tokens: Seq<u32>, stop: Option<u32>) -> Seq<u32> {
    if tokens.len() > 0 && stop == Some(tokens.last()) {
        prompt + tokens.drop_last()
    } else {
        prompt + tokens
    }
}

/// Sampling ends at a stop token or after `max_tokens` tokens, and not before.
pub open spec fn ends_properly(tokens: Seq<u32>, max_tokens: usize, stop: Option<u32>) -> bool {
    &&& tokens.len() <= max_tokens
    &&& forall|i: int| 0 <= i < tokens.len() - 1 ==> stop != Some(#[trigger] tokens[i])
    &&& tokens.len() < max_tokens ==> tokens.len() > 0 && stop == Some(tokens.last())
}

proof fn lemma_finished(prompt: Seq<u32>, tokens: Seq<u32>, max_tokens: usize, stop: Option<u32>)
    requires
        ends_properly(tokens, max_tokens, stop),
    ensures
        ({
            let sequence = finished(prompt, tokens, stop);
            &&& prompt.len() <= sequence.len() <= prompt.len() + max_tokens
            &&& sequence.take(prompt.len() as int) == prompt
            &&& sequence.len() < prompt.len() + max_tokens ==> stop is Some
            &&& forall|i: int|
                prompt.len() <= i < sequence.len() ==> stop != Some(#[trigger] sequence[i])
        }),
{
    let sequence = finished(prompt, tokens, stop);
    assert(sequence.take(prompt.len() as int) =~= prompt);
    assert forall|i: int| prompt.len() <= i < sequence.len() implies stop != Some(
        #[trigger] sequence[i],
    ) by {
        assert(sequence[i] == tokens[i - prompt.len()]);
    }
}

impl<T: Real> TransformerModel<T> {
    /// One step of generation: the model scores its input, and a token is
    /// sampled from the scores of the last position.
    #[verifier::opaque]
    pub open spec fn is_generation_step(
        &self,
        input: Seq<u32>,
        cache: Seq<KvCache<T>>,
        sampler: Sampler<T>,
        token: u32,
        next_cache: Seq<KvCache<T>>,
        next_sampler: Sampler<T>,
    ) -> bool {
        exists|ls: Seq<T>|
            {
                &&& #[trigger] self.is_cached_forward(cache, input, next_cache, ls)
                &&& sampler.is_sampled(
                    row_of(ls, self.spec_vocab_size() as int, input.len() - 1),
                    token,
                    &next_sampler,
                )
            }
    }

    /// Step `i` of a run.
    pub open spec fn is_run_step(
        &self,
        prompt: Seq<u32>,
        caches: Seq<Seq<KvCache<T>>>,
        samplers: Seq<Sampler<T>>,
        tokens: Seq<u32>,
        i: int,
    ) -> bool {
        self.is_generation_step(
            step_input(prompt, tokens, i),
            caches[i],
            samplers[i],
            tokens[i],
            caches[i + 1],
            samplers[i + 1],
        )
    }

    /// A run of generation steps.
    pub open spec fn is_run(
        &self,
        prompt: Seq<u32>,
        caches: Seq<Seq<KvCache<T>>>,
        samplers: Seq<Sampler<T>>,
        tokens: Seq<u32>,
    ) -> bool {
        &&& caches.len() == tokens.len() + 1
        &&& samplers.len() == tokens.len() + 1
        &&& forall|i: int|
            0 <= i < tokens.len() ==> #[trigger] self.is_run_step(
                prompt,
                caches,
                samplers,
                tokens,
                i,
            )
    }

    /// A run starts with empty caches for `max_seq_len` positions, shaped after
    /// the first block, and a fresh sampler.
    pub open spec fn is_start(
        &self,
        max_seq_len: int,
        config: SamplerConfig<T>,
        seed: u64,
        cache: Seq<KvCache<T>>,
        sampler: Sampler<T>,
    ) -> bool {
        &&& cache.len() == self.spec_blocks().len()
        &&& forall|i: int|
            0 <= i < cache.len() ==> {
                let attention = self.spec_blocks()[0].spec_attention();
                &&& (#[trigger] cache[i]).wf()
                &&& cache[i].spec_n_kv_heads() == attention.spec_n_kv_heads()
                &&& cache[i].spec_head_dim() == attention.spec_head_dim()
                &&& cache[i].spec_max_seq_len() == max_seq_len
                &&& cache[i].spec_len() == 0
            }
        &&& sampler.is_fresh(config, seed)
    }

    /// `sequence` is a continuation of a prompt.
    pub open spec fn is_generation(
        &self,
        prompt: Seq<u32>,
        max_tokens: usize,
        config: SamplerConfig<T>,
        seed: u64,
        stop: Option<u32>,
        sequence: Seq<u32>,
    ) -> bool {
        exists|caches: Seq<Seq<KvCache<T>>>, samplers: Seq<Sampler<T>>, tokens: Seq<u32>|
            {
                &&& #[trigger] self.is_run(prompt, caches, samplers, tokens)
                &&& self.is_start(
                    prompt.len() + max_tokens,
                    config,
                    seed,
                    caches[0],
                    samplers[0],
                )
                &&& ends_properly(tokens, max_tokens, stop)
                &&& sequence == finished(prompt, tokens, stop)
            }
    }

    /// The caches after `len` positions of a run of at most `max_seq_len`.
    spec fn caches_at(&self, caches: Seq<KvCache<T>>, len: int, max_seq_len: int) -> bool {
        &&& caches.len() == self.spec_blocks().len()
        &&& forall|i: int|
            0 <= i < caches.len() ==> {
                let attention = self.spec_blocks()[0].spec_attention();
                &&& (#[trigger] caches[i]).wf()
                &&& caches[i].spec_n_kv_heads() == attention.spec_n_kv_heads()
                &&& caches[i].spec_head_dim() == attention.spec_head_dim()
                &&& caches[i].spec_max_seq_len() == max_seq_len
                &&& caches[i].spec_len() == len
            }
    }

    /// One step of generation.
    fn step(
        &self,
        input: &[u32],
        cache: &mut ModelKvCache<T>,
        sampler: &mut Sampler<T>,
        Ghost(len): Ghost<int>,
        Ghost(max_seq_len): Ghost<int>,
    ) -> (token: u32)
        requires
            self.wf(),
            self.has_uniform_heads(),
            self.spec_vocab_size() <= u32::MAX,
            input@.len() > 0,
            self.knows(input@),
            old(sampler).wf(),
            self.caches_at(old(cache)@, len, max_seq_len),
            len + input@.len() <= max_seq_len,
        ensures
            token < self.spec_vocab_size(),
            final(sampler).wf(),
            self.caches_at(final(cache)@, len + input@.len(), max_seq_len),
            self.is_generation_step(
                input@,
                old(cache)@,
                *old(sampler),
                token,
                final(cache)@,
                *final(sampler),
            ),
    {
        let n: usize = input.len();
        assert forall|i: int| 0 <= i < self.spec_blocks().len() implies (
        #[trigger] self.spec_blocks()[i]).spec_attention().fits_cache(&cache@[i], n as int) by {
            assert(cache@[i].wf());
        }
        let ls: Vec<T> = self.forward_cached(input, cache);
        proof {
            lemma_row_bounds(n - 1, n as int, self.spec_vocab_size() as int);
            assert(input@[0] < self.spec_vocab_size());
        }
        let last: &[T] = row_slice(ls.as_slice(), self.vocab_size(), n - 1);
        let token: u32 = sampler.sample(last);
        proof {
            reveal(TransformerModel::is_generation_step);
        }
        token
    }

    /// Continue a prompt by at most `max_tokens` tokens. Generation ends at
    /// the stop token, which is not part of the result.
    pub fn generate(
        &self,
        prompt: &[u32],
        max_tokens: usize,
        sampler_config: SamplerConfig<T>,
        seed: u64,
        stop_token: Option<u32>,
    ) -> (sequence: Vec<u32>)
        requires
            self.wf(),
            self.has_uniform_heads(),
            self.spec_vocab_size() <= u32::MAX,
            prompt@.len() > 0,
            self.knows(prompt@),
            prompt@.len() + max_tokens <= usize::MAX,
            self.cache_fits(prompt@.len() + max_tokens),
        ensures
            self.is_generation(
                prompt@,
                max_tokens,
                sampler_config,
                seed,
                stop_token,
                sequence@,
            ),
    {
        let max_seq_len: usize = prompt.len() + max_tokens;
        let mut cache: ModelKvCache<T> = self.create_kv_cache(max_seq_len);
        let mut sampler: Sampler<T> = Sampler::new(sampler_config, seed);
        let mut sequence: Vec<u32> = vstd::slice::slice_to_vec(prompt);
        let ghost mut caches: Seq<Seq<KvCache<T>>> = seq![cache@];
        let ghost mut samplers: Seq<Sampler<T>> = seq![sampler];
        let ghost mut tokens: Seq<u32> = Seq::empty();
        assert(sequence@ =~= prompt@ + tokens);
        let mut produced: usize = 0;
        let mut input: Vec<u32> = vstd::slice::slice_to_vec(prompt);
        while produced < max_tokens
            invariant
                self.wf(),
                self.has_uniform_heads(),
                self.spec_vocab_size() <= u32::MAX,
                prompt@.len() > 0,
                max_seq_len == prompt@.len() + max_tokens,
                produced <= max_tokens,
                tokens.len() == produced,
                input@ == step_input(prompt@, tokens, produced as int),
                self.knows(input@),
                sampler.wf(),
                self.caches_at(
                    cache@,
                    if produced == 0 {
                        0
                    } else {
                        prompt@.len() + produced - 1
                    },
                    max_seq_len as int,
                ),
                caches.len() == produced + 1,
                samplers.len() == produced + 1,
                caches[produced as int] == cache@,
                samplers[produced as int] == sampler,
                self.is_start(
                    max_seq_len as int,
                    sampler_config,
                    seed,
                    caches[0],
                    samplers[0],
                ),
                self.is_run(prompt@, caches, samplers, tokens),
                forall|i: int| 0 <= i < tokens.len() ==> stop_token != Some(#[trigger] tokens[i]),
                sequence@ == prompt@ + tokens,
            decreases max_tokens - produced,
        {
            let ghost len: int = if produced == 0 {
                0
            } else {
                prompt@.len() + produced - 1
            };
            let ghost tokens0 = tokens;
            let ghost caches0 = caches;
            let ghost samplers0 = samplers;
            let token: u32 = self.step(
                input.as_slice(),
                &mut cache,
                &mut sampler,
                Ghost(len),
                Ghost(max_seq_len as int),
            );
            proof {
                tokens = tokens.push(token);
                caches = caches.push(cache@);
                samplers = samplers.push(sampler);
                assert forall|i: int| 0 <= i < tokens.len() implies #[trigger] self.is_run_step(
                    prompt@,
                    caches,
                    samplers,
                    tokens,
                    i,
                ) by {
                    assert(step_input(prompt@, tokens, i) == step_input(prompt@, tokens0, i));
                    if i < produced {
                        assert(self.is_run_step(prompt@, caches0, samplers0, tokens0, i));
                        assert(tokens[i] == tokens0[i]);
                        assert(caches[i] == caches0[i] && caches[i + 1] == caches0[i + 1]);
                        assert(samplers[i] == samplers0[i] && samplers[i + 1] == samplers0[i + 1]);
                    }
                }
            }
            let stopped: bool = match stop_token {
                Some(stop) => stop == token,
                None => false,
            };
            if stopped {
                proof {
                    assert(tokens.drop_last() =~= tokens0);
                    assert(self.is_run(prompt@, caches, samplers, tokens));
                    assert(ends_properly(tokens, max_tokens, stop_token));
                    assert(sequence@ == finished(prompt@, tokens, stop_token));
                }
                return sequence;
            }
            sequence.push(token);
            assert(sequence@ =~= prompt@ + tokens);
            input = Vec::new();
            input.push(token);
            assert(input@ =~= seq![token]);
            produced += 1;
        }
        assert(ends_properly(tokens, max_tokens, stop_token));
        assert(sequence@ == finished(prompt@, tokens, stop_token));
        sequence
    }

    /// A continuation begins with the prompt, adds at most `max_tokens`
    /// tokens, fewer only where there is a stop token, and does not contain the
    /// stop token after the prompt.
    pub proof fn generation_is_bounded(
        &self,
        prompt: Seq<u32>,
        max_tokens: usize,
        config: SamplerConfig<T>,
        seed: u64,
        stop: Option<u32>,
        sequence: Seq<u32>,
    )
        requires
            self.is_generation(prompt, max_tokens, config, seed, stop, sequence),
        ensures
            prompt.len() <= sequence.len() <= prompt.len() + max_tokens,
            sequence.take(prompt.len() as int) == prompt,
            sequence.len() < prompt.len() + max_tokens ==> stop is Some,
            forall|i: int|
                prompt.len() <= i < sequence.len() ==> stop != Some(#[trigger] sequence[i]),
    {
        let (caches, samplers, tokens) = choose|
            caches: Seq<Seq<KvCache<T>>>,
            samplers: Seq<Sampler<T>>,
            tokens: Seq<u32>,
        |
            {
                &&& #[trigger] self.is_run(prompt, caches, samplers, tokens)
                &&& self.is_start(
                    prompt.len() + max_tokens,
                    config,
                    seed,
                    caches[0],
                    samplers[0],
                )
                &&& ends_properly(tokens, max_tokens, stop)
                &&& sequence == finished(prompt, tokens, stop)
            };
        lemma_finished(prompt, tokens, max_tokens, stop);
    }

    /// A continuation of known tokens holds known tokens only.
    pub proof fn generated_tokens_are_known(
        &self,
        prompt: Seq<u32>,
        max_tokens: usize,
        config: SamplerConfig<T>,
        seed: u64,
        stop: Option<u32>,
        sequence: Seq<u32>,
    )
        requires
            prompt.len() > 0,
            self.knows(prompt),
            self.is_generation(prompt, max_tokens, config, seed, stop, sequence),
        ensures
            self.knows(sequence),
    {
        let (caches, samplers, tokens) = choose|
            caches: Seq<Seq<KvCache<T>>>,
            samplers: Seq<Sampler<T>>,
            tokens: Seq<u32>,
        |
            {
                &&& #[trigger] self.is_run(prompt, caches, samplers, tokens)
                &&& self.is_start(
                    prompt.len() + max_tokens,
                    config,
                    seed,
                    caches[0],
                    samplers[0],
                )
                &&& ends_properly(tokens, max_tokens, stop)
                &&& sequence == finished(prompt, tokens, stop)
            };
        assert forall|i: int| 0 <= i < sequence.len() implies (#[trigger] sequence[i])
            < self.spec_vocab_size() by {
            if i < prompt.len() {
                assert(sequence[i] == prompt[i]);
            } else {
                let k = i - prompt.len();
                assert(sequence[i] == tokens[k]);
                assert(self.is_run_step(prompt, caches, samplers, tokens, k));
                self.lemma_step_gives_known_token(
                    step_input(prompt, tokens, k),
                    caches[k],
                    samplers[k],
                    tokens[k],
                    caches[k + 1],
                    samplers[k + 1],
                );
            }
        }
    }

    proof fn lemma_step_gives_known_token(
        &self,
        input: Seq<u32>,
        cache: Seq<KvCache<T>>,
        sampler: Sampler<T>,
        token: u32,
        next_cache: Seq<KvCache<T>>,
        next_sampler: Sampler<T>,
    )
        requires
            input.len() > 0,
            self.is_generation_step(input, cache, sampler, token, next_cache, next_sampler),
        ensures
            token < self.spec_vocab_size(),
    {
        reveal(TransformerModel::is_generation_step);
        let vocab = self.spec_vocab_size() as int;
        let ls = choose|ls: Seq<T>|
            {
                &&& #[trigger] self.is_cached_forward(cache, input, next_cache, ls)
                &&& sampler.is_sampled(row_of(ls, vocab, input.len() - 1), token, &next_sampler)
            };
        assert(ls.len() == input.len() * vocab);
        lemma_row_bounds(input.len() - 1, input.len() as int, vocab);
        sampler.sampled_tokens_have_scores(
            row_of(ls, vocab, input.len() - 1),
            token,
            &next_sampler,
        );
    }

    /// Greedy generation does not depend on the seed.
    pub proof fn greedy_generation_ignores_the_seed(
        &self,
        prompt: Seq<u32>,
        max_tokens: usize,
        config: SamplerConfig<T>,
        seed: u64,
        other_seed: u64,
        stop: Option<u32>,
        sequence: Seq<u32>,
    )
        requires
            is_always_greedy(config),
            self.is_generation(prompt, max_tokens, config, seed, stop, sequence),
        ensures
            self.is_generation(prompt, max_tokens, config, other_seed, stop, sequence),
    {
        let (caches, samplers, tokens) = choose|
            caches: Seq<Seq<KvCache<T>>>,
            samplers: Seq<Sampler<T>>,
            tokens: Seq<u32>,
        |
            {
                &&& #[trigger] self.is_run(prompt, caches, samplers, tokens)
                &&& self.is_start(
                    prompt.len() + max_tokens,
                    config,
                    seed,
                    caches[0],
                    samplers[0],
                )
                &&& ends_properly(tokens, max_tokens, stop)
                &&& sequence == finished(prompt, tokens, stop)
            };
        let state: u64 = if other_seed == 0 {
            1
        } else {
            other_seed
        };
        let others = Seq::new(samplers.len(), |i: int| samplers[i].reseeded(state));
        assert forall|i: int| 0 <= i < tokens.len() implies #[trigger] self.is_run_step(
            prompt,
            caches,
            others,
            tokens,
            i,
        ) by {
            reveal(TransformerModel::is_generation_step);
            self.lemma_config_is_kept(prompt, caches, samplers, tokens, i);
            let input = step_input(prompt, tokens, i);
            assert(self.is_run_step(prompt, caches, samplers, tokens, i));
            let ls = choose|ls: Seq<T>|
                {
                    &&& #[trigger] self.is_cached_forward(caches[i], input, caches[i + 1], ls)
                    &&& samplers[i].is_sampled(
                        row_of(ls, self.spec_vocab_size() as int, input.len() - 1),
                        tokens[i],
                        &samplers[i + 1],
                    )
                };
            samplers[i].greedy_ignores_the_generator(
                row_of(ls, self.spec_vocab_size() as int, input.len() - 1),
                tokens[i],
                &samplers[i + 1],
                state,
            );
            assert(others[i] == samplers[i].reseeded(state));
            assert(others[i + 1] == samplers[i + 1].reseeded(state));
        }
        samplers[0].lemma_reseeded(state);
        assert(others[0] == samplers[0].reseeded(state));
        assert(self.is_run(prompt, caches, others, tokens));
    }

    proof fn lemma_config_is_kept(
        &self,
        prompt: Seq<u32>,
        caches: Seq<Seq<KvCache<T>>>,
        samplers: Seq<Sampler<T>>,
        tokens: Seq<u32>,
        i: int,
    )
        requires
            self.is_run(prompt, caches, samplers, tokens),
            0 <= i <= tokens.len(),
        ensures
            samplers[i].spec_config() == samplers[0].spec_config(),
        decreases i,
    {
        if i > 0 {
            self.lemma_config_is_kept(prompt, caches, samplers, tokens, i - 1);
            assert(self.is_run_step(prompt, caches, samplers, tokens, i - 1));
            self.lemma_step_keeps_config(
                step_input(prompt, tokens, i - 1),
                caches[i - 1],
                samplers[i - 1],
                tokens[i - 1],
                caches[i],
                samplers[i],
            );
        }
    }

    proof fn lemma_step_keeps_config(
        &self,
        input: Seq<u32>,
        cache: Seq<KvCache<T>>,
        sampler: Sampler<T>,
        token: u32,
        next_cache: Seq<KvCache<T>>,
        next_sampler: Sampler<T>,
    )
        requires
            self.is_generation_step(input, cache, sampler, token, next_cache, next_sampler),
        ensures
            next_sampler.spec_config() == sampler.spec_config(),
    {
        reveal(TransformerModel::is_generation_step);
    }
}

} // verus!
