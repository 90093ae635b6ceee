# ternary-rs

An inference engine for transformers with ternary (1.58-bit) weights, verified
with Verus.

Weights are -1, 0 or +1, packed four to a byte; activations are 8-bit integers;
the matrix products between them are exact integer sums. Everything else is
written against the `Real` trait in `src/numeric.rs`, and the contracts say which
operations a result is made of, in which order and on which elements.

## Layout

| Place | What it holds |
|---|---|
| `src/tensor.rs`, `src/ops/` | packed weights, quantization, the two product kernels |
| `src/compute/` | backends, the choice between them, what is sent to a GPU, the boot banner |
| `src/layers/` | the layers, the model, the sampler and generation, each with its laws |
| `src/tokenizer/` | byte-pair encoding in two variants, and what encoding and decoding promise |
| `src/loader.rs`, `src/metadata.rs`, `src/i2s.rs` | from tensors and metadata to a model |
| `src/chat.rs`, `src/diagnostics.rs` | what the programs decide and compute |
| `app/` | files, the terminal, the GPU and single-precision numbers |
| `tests/` | tests of the library |

## What is proved

- Every kernel and backend computes the same integer products, for any shape.
- A pass with caches computes what a pass without them computes, however the
  tokens are cut into steps.
- What an attention layer makes of a token, and its scores, do not depend on the
  tokens after it.
- Decoding gives back every text whose characters have tokens, or tokens for
  their bytes, as long as these tokens decode to what they stand for and the text
  does not hold the mark that a vocabulary writes for a space.
- Where the operations on numbers are functions, the same prompt, configuration
  and seed always give the same text; greedy generation ignores the seed.
- No verified function overflows, indexes out of bounds or panics on the inputs
  that its contract admits.

What is believed without proof is marked `external_body` or
`assume_specification`: a few functions of the standard library on characters and
strings, the sharing of a backend handle, and rayon's parallel iteration over the
pieces of an output vector.
