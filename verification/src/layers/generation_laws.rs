//! What caches have to do with generation: nothing but speed.

use crate::layers::generate::{ends_properly, finished, step_input};
use crate::layers::kv_cache::KvCache;
use crate::layers::model::TransformerModel;
use crate::layers::sampler::{Sampler, SamplerConfig};
use crate::numeric::Real;
use crate::rows::{lemma_add_rows, row_of};
use vstd::prelude::*;

verus! {

impl<T: Real> TransformerModel<T> {
    /// One step of generation without caches: the model scores everything so
    /// far, and a token is sampled from the scores of the last position.
    pub open spec fn is_plain_step(
        &self,
        sequence: Seq<u32>,
        sampler: Sampler<T>,
        token: u32,
        next_sampler: Sampler<T>,
    ) -> bool {
        exists|ls: Seq<T>|
            {
                &&& #[trigger] self.is_forward(sequence, 0, ls)
                &&& sampler.is_sampled(
                    row_of(ls, self.spec_vocab_size() as int, sequence.len() - 1),
                    token,
                    &next_sampler,
                )
            }
    }

    /// A run of generation steps without caches.
    pub open spec fn is_plain_run(
        &self,
        prompt: Seq<u32>,
        samplers: Seq<Sampler<T>>,
        tokens: Seq<u32>,
    ) -> bool {
        &&& samplers.len() == tokens.len() + 1
        &&& forall|i: int|
            0 <= i < tokens.len() ==> self.is_plain_step(
                prompt + tokens.take(i),
                samplers[i],
                #[trigger] tokens[i],
                samplers[i + 1],
            )
    }

    /// `sequence` is a continuation of a prompt, made without caches.
    pub open spec fn is_plain_generation(
        &self,
        prompt: Seq<u32>,
        max_tokens: usize,
        config: SamplerConfig<T>,
        seed: u64,
        stop: Option<u32>,
        sequence: Seq<u32>,
    ) -> bool {
        exists|samplers: Seq<Sampler<T>>, tokens: Seq<u32>|
            {
                &&& #[trigger] self.is_plain_run(prompt, samplers, tokens)
                &&& samplers[0].is_fresh(config, seed)
                &&& ends_properly(tokens, max_tokens, stop)
                &&& sequence == finished(prompt, tokens, stop)
            }
    }

    /// Step `i` of a run, seen as one cached pass from the start.
    #[verifier::opaque]
    spec fn is_long_step(
        &self,
        prompt: Seq<u32>,
        caches: Seq<Seq<KvCache<T>>>,
        samplers: Seq<Sampler<T>>,
        tokens: Seq<u32>,
        i: int,
        ls: Seq<T>,
    ) -> bool {
        &&& self.is_cached_forward(caches[0], prompt + tokens.take(i), caches[i + 1], ls)
        &&& samplers[i].is_sampled(
            row_of(ls, self.spec_vocab_size() as int, prompt.len() + i - 1),
            tokens[i],
            &samplers[i + 1],
        )
    }

    proof fn lemma_step_scores(
        &self,
        input: Seq<u32>,
        cache: Seq<KvCache<T>>,
        sampler: Sampler<T>,
        token: u32,
        next_cache: Seq<KvCache<T>>,
        next_sampler: Sampler<T>,
    ) -> (ls: Seq<T>)
        requires
            self.is_generation_step(input, cache, sampler, token, next_cache, next_sampler),
        ensures
            self.is_cached_forward(cache, input, next_cache, ls),
            sampler.is_sampled(
                row_of(ls, self.spec_vocab_size() as int, input.len() - 1),
                token,
                &next_sampler,
            ),
    {
        reveal(TransformerModel::is_generation_step);
        choose|ls: Seq<T>|
            {
                &&& #[trigger] self.is_cached_forward(cache, input, next_cache, ls)
                &&& sampler.is_sampled(
                    row_of(ls, self.spec_vocab_size() as int, input.len() - 1),
                    token,
                    &next_sampler,
                )
            }
    }

    /// The scores of a cached pass that follows another one are the last rows
    /// of the scores of both.
    proof fn lemma_pass_after_pass(
        &self,
        before: Seq<KvCache<T>>,
        done: Seq<u32>,
        between: Seq<KvCache<T>>,
        ls1: Seq<T>,
        token: u32,
        after: Seq<KvCache<T>>,
        ls2: Seq<T>,
    )
        requires
            self.wf(),
            self.scales_are_fixed(),
            self.fits_caches(before, done.len() as int),
            self.is_cached_forward(before, done, between, ls1),
            self.is_cached_forward(between, seq![token], after, ls2),
        ensures
            self.is_cached_forward(before, done.push(token), after, ls1 + ls2),
            row_of(ls1 + ls2, self.spec_vocab_size() as int, done.len() as int) == row_of(
                ls2,
                self.spec_vocab_size() as int,
                0,
            ),
    {
        self.passes_join(before, done, between, ls1, seq![token], after, ls2);
        assert(done + seq![token] =~= done.push(token));
        assert(seq![token].len() == 1);
        let n = done.len() as int;
        lemma_add_rows(ls1, ls2, self.spec_vocab_size() as int, n, 1, n);
    }

    proof fn lemma_first_step(
        &self,
        prompt: Seq<u32>,
        caches: Seq<Seq<KvCache<T>>>,
        samplers: Seq<Sampler<T>>,
        tokens: Seq<u32>,
    ) -> (ls: Seq<T>)
        requires
            self.is_run_step(prompt, caches, samplers, tokens, 0),
        ensures
            self.is_long_step(prompt, caches, samplers, tokens, 0, ls),
    {
        reveal(TransformerModel::is_long_step);
        assert(prompt + tokens.take(0) =~= prompt);
        self.lemma_step_scores(
            prompt,
            caches[0],
            samplers[0],
            tokens[0],
            caches[1],
            samplers[1],
        )
    }

    proof fn lemma_next_step(
        &self,
        prompt: Seq<u32>,
        caches: Seq<Seq<KvCache<T>>>,
        samplers: Seq<Sampler<T>>,
        tokens: Seq<u32>,
        i: int,
        before: Seq<T>,
    ) -> (ls: Seq<T>)
        requires
            self.wf(),
            self.scales_are_fixed(),
            0 < i < tokens.len(),
            self.fits_caches(caches[0], prompt.len() + i - 1),
            self.is_long_step(prompt, caches, samplers, tokens, i - 1, before),
            self.is_run_step(prompt, caches, samplers, tokens, i),
        ensures
            self.is_long_step(prompt, caches, samplers, tokens, i, ls),
    {
        reveal(TransformerModel::is_long_step);
        let done = prompt + tokens.take(i - 1);
        let last = self.lemma_step_scores(
            seq![tokens[i - 1]],
            caches[i],
            samplers[i],
            tokens[i],
            caches[i + 1],
            samplers[i + 1],
        );
        self.lemma_pass_after_pass(
            caches[0],
            done,
            caches[i],
            before,
            tokens[i - 1],
            caches[i + 1],
            last,
        );
        assert(done.push(tokens[i - 1]) =~= prompt + tokens.take(i));
        before + last
    }

    proof fn lemma_step_from_the_start(
        &self,
        prompt: Seq<u32>,
        caches: Seq<Seq<KvCache<T>>>,
        samplers: Seq<Sampler<T>>,
        tokens: Seq<u32>,
        i: int,
    ) -> (ls: Seq<T>)
        requires
            self.wf(),
            self.scales_are_fixed(),
            self.is_run(prompt, caches, samplers, tokens),
            self.fits_caches(caches[0], (prompt.len() + tokens.len()) as int),
            0 <= i < tokens.len(),
        ensures
            self.is_long_step(prompt, caches, samplers, tokens, i, ls),
        decreases i,
    {
        assert(self.is_run_step(prompt, caches, samplers, tokens, i));
        if i == 0 {
            self.lemma_first_step(prompt, caches, samplers, tokens)
        } else {
            let before = self.lemma_step_from_the_start(prompt, caches, samplers, tokens, i - 1);
            self.lemma_less_room_fits(
                caches[0],
                prompt.len() + i - 1,
                (prompt.len() + tokens.len()) as int,
            );
            self.lemma_next_step(prompt, caches, samplers, tokens, i, before)
        }
    }

    proof fn lemma_less_room_fits(&self, caches: Seq<KvCache<T>>, n: int, m: int)
        requires
            self.fits_caches(caches, m),
            n <= m,
        ensures
            self.fits_caches(caches, n),
    {
        assert forall|j: int| 0 <= j < self.spec_blocks().len() implies (
        #[trigger] self.spec_blocks()[j]).spec_attention().fits_cache(&caches[j], n) by {
            assert(self.spec_blocks()[j].spec_attention().fits_cache(&caches[j], m));
        }
    }

    /// Generation with caches gives what generation without them gives: every
    /// token is sampled from the scores of a plain pass over all tokens before
    /// it.
    pub proof fn generation_is_plain_generation(
        &self,
        prompt: Seq<u32>,
        max_tokens: usize,
        config: SamplerConfig<T>,
        seed: u64,
        stop: Option<u32>,
        sequence: Seq<u32>,
    )
        requires
            self.wf(),
            self.has_uniform_heads(),
            self.scales_are_fixed(),
            prompt.len() > 0,
            self.is_generation(prompt, max_tokens, config, seed, stop, sequence),
        ensures
            self.is_plain_generation(prompt, max_tokens, config, seed, stop, sequence),
    {
        let (caches, samplers, tokens) = choose|
            caches: Seq<Seq<KvCache<T>>>,
            samplers: Seq<Sampler<T>>,
            tokens: Seq<u32>,
        |
            {
                &&& #[trigger] self.is_run(prompt, caches, samplers, tokens)
                &&& self.is_start(
                    prompt.len() + max_tokens,
                    config,
                    seed,
                    caches[0],
                    samplers[0],
                )
                &&& ends_properly(tokens, max_tokens, stop)
                &&& sequence == finished(prompt, tokens, stop)
            };
        let n = (prompt.len() + tokens.len()) as int;
        assert forall|j: int| 0 <= j < self.spec_blocks().len() implies (
        #[trigger] self.spec_blocks()[j]).spec_attention().fits_cache(&caches[0][j], n) by {
            assert(caches[0][j].wf());
        }
        assert forall|i: int| 0 <= i < tokens.len() implies self.is_plain_step(
            prompt + tokens.take(i),
            samplers[i],
            #[trigger] tokens[i],
            samplers[i + 1],
        ) by {
            let ls = self.lemma_step_from_the_start(prompt, caches, samplers, tokens, i);
            reveal(TransformerModel::is_long_step);
            assert forall|j: int| 0 <= j < self.spec_blocks().len() implies (
            #[trigger] caches[0][j]).wf() && caches[0][j].spec_len() == 0 by {}
            self.prefill_is_forward(caches[0], prompt + tokens.take(i), caches[i + 1], ls);
        }
        assert(self.is_plain_run(prompt, samplers, tokens));
    }
}

} // verus!
