use std::sync::Arc;
use ternary_rs::compute::avx2::Avx2Backend;
use ternary_rs::compute::gpu::{finish_linear, prepare_linear};
use ternary_rs::compute::scalar::ScalarBackend;
use ternary_rs::compute::ComputeBackend;
use ternary_rs::float_bits::{order_key, single_from_half, to_double};
use ternary_rs::layers::attention::MultiHeadAttention;
use ternary_rs::layers::bitlinear::BitLinear;
use ternary_rs::layers::kv_cache::KvCache;
use ternary_rs::layers::model::{float_output_projection, OutputProjection, TransformerModel};
use ternary_rs::layers::rmsnorm::RmsNorm;
use ternary_rs::layers::sampler::{Sampler, SamplerConfig};
use ternary_rs::layers::swiglu::SwiGLU;
use ternary_rs::layers::transformer::TransformerBlock;
use ternary_rs::metadata::{ArrayField, GgufError, TokenizerMetadata};
use ternary_rs::numeric::{positive, Real};
use ternary_rs::ops::lut::lut_matvec;
use ternary_rs::ops::matmul::ternary_matvec;
use ternary_rs::ops::quantize::quantize_absmax;
use ternary_rs::tensor::{FloatTensor, Ternary, TernaryTensor};
use ternary_rs::tokenizer::bytes::{byte_token_text, gpt2_byte_to_char, parse_byte_token};
use ternary_rs::tokenizer::split::{gpt2_pre_tokenize, llama3_pre_tokenize, PreTokenizerType};
use ternary_rs::tokenizer::stream::TokenStream;
use ternary_rs::tokenizer::{BpeMode, TokenType, Tokenizer};

#[derive(Clone, Copy, Debug, PartialEq)]
struct F(f32);

impl Real for F {
    fn zero() -> Self {
        F(0.0)
    }

    fn one() -> Self {
        F(1.0)
    }

    fn lowest() -> Self {
        F(f32::NEG_INFINITY)
    }

    fn from_i32(n: i32) -> Self {
        F(n as f32)
    }

    fn from_usize(n: usize) -> Self {
        F(n as f32)
    }

    fn from_half(bits: u16) -> Self {
        F(f32::from_bits(single_from_half(bits)))
    }

    fn plus(self, other: Self) -> Self {
        F(self.0 + other.0)
    }

    fn minus(self, other: Self) -> Self {
        F(self.0 - other.0)
    }

    fn times(self, other: Self) -> Self {
        F(self.0 * other.0)
    }

    fn over(self, other: Self) -> Self {
        F(self.0 / other.0)
    }

    fn negate(self) -> Self {
        F(-self.0)
    }

    fn abs(self) -> Self {
        F(self.0.abs())
    }

    fn max(self, other: Self) -> Self {
        F(self.0.max(other.0))
    }

    fn sqrt(self) -> Self {
        F(self.0.sqrt())
    }

    fn exp(self) -> Self {
        F(self.0.exp())
    }

    fn sin(self) -> Self {
        F(self.0.sin())
    }

    fn cos(self) -> Self {
        F(self.0.cos())
    }

    fn power(self, exponent: Self) -> Self {
        F(self.0.powf(exponent.0))
    }

    fn round_to_i32(self) -> i32 {
        self.0.round() as i32
    }

    fn less(self, other: Self) -> bool {
        self.0 < other.0
    }

    fn at_most(self, other: Self) -> bool {
        self.0 <= other.0
    }

    fn order_key(self) -> i64 {
        order_key(self.0.to_bits()).unwrap()
    }
}

fn reals(xs: &[f32]) -> Vec<F> {
    xs.iter().map(|&x| F(x)).collect()
}

fn floats(xs: &[F]) -> Vec<f32> {
    xs.iter().map(|x| x.0).collect()
}

fn weights_from_i8(values: &[i8], rows: usize, cols: usize) -> TernaryTensor {
    let ternary: Vec<Ternary> = values
        .iter()
        .map(|&v| match v {
            -1 => Ternary::Neg,
            0 => Ternary::Zero,
            1 => Ternary::Pos,
            _ => panic!("not ternary"),
        })
        .collect();
    TernaryTensor::pack(&ternary, rows, cols)
}

fn pattern(rows: usize, cols: usize, step: usize) -> BitLinear<F> {
    let values: Vec<i8> = (0..rows * cols).map(|i| (i * step % 3) as i8 - 1).collect();
    BitLinear::new(weights_from_i8(&values, rows, cols), F(0.25))
}

fn model(n_layers: usize) -> TransformerModel<F> {
    let (vocab, embed) = (10, 8);
    let data: Vec<f32> = (0..vocab * embed).map(|i| ((i * 7 % 11) as f32 - 5.0) * 0.1).collect();
    let blocks = (0..n_layers)
        .map(|i| {
            let attention = MultiHeadAttention::new(
                pattern(8, embed, 5 + i),
                pattern(4, embed, 7),
                pattern(4, embed, 4),
                pattern(embed, 8, 8),
                2,
                1,
                4,
                F(10000.0),
            );
            let ffn = SwiGLU::new(pattern(16, embed, 2), pattern(16, embed, 5), pattern(embed, 16, 7));
            TransformerBlock::new(
                RmsNorm::new(reals(&[1.0; 8]), F(1e-5)),
                attention,
                RmsNorm::new(reals(&[0.5; 8]), F(1e-5)),
                ffn,
            )
        })
        .collect();
    TransformerModel::new(
        FloatTensor::new(reals(&data), vec![vocab, embed]),
        blocks,
        RmsNorm::new(reals(&[1.0; 8]), F(1e-5)),
        OutputProjection::TiedEmbedding,
    )
}

#[test]
fn decoding_with_caches_gives_the_scores_of_a_plain_pass() {
    let model = model(3);
    let tokens = [3u32, 1, 4, 1, 5, 9, 2, 6];
    let plain = model.forward(&tokens, 0);
    for split in 1..tokens.len() {
        let mut cache = model.create_kv_cache(16);
        let mut scores = model.forward_cached(&tokens[..split], &mut cache);
        for t in &tokens[split..] {
            scores.extend(model.forward_cached(&[*t], &mut cache));
        }
        assert_eq!(scores, plain, "prompt of {split}");
        assert_eq!(cache.seq_len(), tokens.len());
    }
}

#[test]
fn later_tokens_do_not_change_earlier_scores() {
    let model = model(2);
    let long = model.forward(&[2, 7, 1, 8], 0);
    let short = model.forward(&[2, 7], 0);
    assert_eq!(&long[..short.len()], &short[..]);
}

fn attention() -> MultiHeadAttention<F> {
    MultiHeadAttention::new(
        pattern(8, 8, 5),
        pattern(4, 8, 7),
        pattern(4, 8, 4),
        pattern(8, 8, 8),
        2,
        1,
        4,
        F(10000.0),
    )
}

#[test]
fn attention_does_not_look_ahead() {
    let attention = attention();
    let x: Vec<f32> = (0..4 * 8).map(|i| ((i * 13 % 17) as f32 - 8.0) * 0.1).collect();
    let mut other = x.clone();
    other[3 * 8] = 5.0;
    let all = attention.forward(&reals(&x), 4, 0);
    let changed = attention.forward(&reals(&other), 4, 0);
    assert_eq!(all[..3 * 8], changed[..3 * 8]);
    assert_ne!(all, changed);
    assert_eq!(attention.forward(&reals(&x[..2 * 8]), 2, 0), all[..2 * 8]);
}

#[test]
fn cached_attention_is_plain_attention() {
    let attention = attention();
    let x: Vec<f32> = (0..5 * 8).map(|i| ((i * 11 % 19) as f32 - 9.0) * 0.1).collect();
    let plain = attention.forward(&reals(&x), 5, 0);
    let mut cache = KvCache::<F>::new(1, 4, 8);
    let mut stepwise = attention.forward_cached(&reals(&x[..2 * 8]), 2, &mut cache);
    stepwise.extend(attention.forward_cached(&reals(&x[2 * 8..]), 3, &mut cache));
    assert_eq!(stepwise, plain);
    assert_eq!(cache.len(), 5);
}

#[test]
fn last_scores_are_the_last_row_of_all_scores() {
    let model = model(2);
    let tokens = [2u32, 7, 1];
    let all = model.forward(&tokens, 0);
    assert_eq!(model.forward_last(&tokens, 0), all[2 * model.vocab_size()..]);
}

#[test]
fn caches_must_be_addressable() {
    let model = model(1);
    assert!(model.can_cache(0) && model.can_cache(2048));
    assert!(model.create_kv_cache(2048).is_addressable());
    // One key head of dimension four: 32 bytes a position.
    assert!(model.can_cache(usize::MAX / 32));
    assert!(!model.can_cache(usize::MAX / 32 + 1));
}

#[test]
fn seeds_matter_only_where_sampling_is_random() {
    let model = model(2);
    let greedy = |seed| model.generate(&[1, 2], 12, SamplerConfig::greedy(), seed, None);
    assert_eq!(greedy(1), greedy(99));
    let config = SamplerConfig { temperature: F(5.0), ..SamplerConfig::default() };
    let random = |seed| model.generate(&[1, 2], 12, config, seed, None);
    assert_eq!(random(7), random(7));
    assert_ne!(random(7), random(8));
    // The seed zero counts as one.
    assert_eq!(random(0), random(1));
}

#[test]
fn generation_keeps_its_bounds() {
    let model = model(1);
    assert_eq!(model.generate(&[4, 2], 0, SamplerConfig::greedy(), 1, None), [4, 2]);
    let free = model.generate(&[4, 2], 6, SamplerConfig::greedy(), 1, None);
    assert_eq!(free.len(), 8);
    let stop = free[3];
    let stopped = model.generate(&[4, 2], 6, SamplerConfig::greedy(), 1, Some(stop));
    let first = free[2..].iter().position(|&t| t == stop).unwrap();
    assert_eq!(stopped, free[..2 + first]);
}

#[test]
fn backends_and_kernels_agree() {
    for (rows, cols) in [(3, 7), (5, 32), (4, 33), (2, 100), (3, 65)] {
        let values: Vec<i8> = (0..rows * cols).map(|i| (i * 11 % 7 % 3) as i8 - 1).collect();
        let w = weights_from_i8(&values, rows, cols);
        let x: Vec<i8> = (0..cols).map(|i| (i * 37 % 256) as u8 as i8).collect();
        let expected: Vec<i32> = (0..rows)
            .map(|r| (0..cols).map(|c| values[r * cols + c] as i32 * x[c] as i32).sum())
            .collect();
        assert_eq!(ternary_matvec(&w, &x), expected);
        assert_eq!(lut_matvec(&w, &x), expected);
        assert_eq!(ScalarBackend.ternary_matvec(&w, &x), expected);
        assert_eq!(Avx2Backend.ternary_matvec(&w, &x), expected);
    }
}

#[test]
fn unused_codes_count_as_zero() {
    // The unused code stands first; its partner has weight -1.
    let w = TernaryTensor::from_packed(vec![0b01_01_00_11], 1, 4);
    assert_eq!(ternary_matvec(&w, &[5, 7, 1, 1]), [-7]);
    assert_eq!(lut_matvec(&w, &[5, 7, 1, 1]), [-7]);
    // The partner of the unused code has weight +1.
    let w = TernaryTensor::from_packed(vec![0x0B], 1, 2);
    assert_eq!(ternary_matvec(&w, &[5, 7]), [7]);
    assert_eq!(lut_matvec(&w, &[5, 7]), [7]);
    // Any code stands for the same weight in both kernels.
    for byte in 0..=255u8 {
        let w = TernaryTensor::from_packed(vec![byte], 1, 4);
        let x = [3, -50, 11, 127];
        assert_eq!(lut_matvec(&w, &x), ternary_matvec(&w, &x), "byte {byte}");
    }
}

#[test]
fn a_layer_does_not_depend_on_its_backend() {
    let x = reals(&[0.5, -1.0, 0.25, 0.75, -0.125, 0.0, 1.5, -0.5]);
    let plain = pattern(6, 8, 5);
    let mut other = pattern(6, 8, 5);
    other.set_backend(Arc::new(Avx2Backend));
    assert_eq!(plain.forward(&x), other.forward(&x));
}

#[test]
fn gpu_layer_does_what_the_layer_does() {
    let layer = pattern(6, 8, 5);
    let x = reals(&[0.5, -1.0, 0.25, 0.75, -0.125, 0.0, 1.5, -0.5]);
    let job = prepare_linear(6, 8, &x);
    assert_eq!((job.rows, job.cols, job.output_size), (6, 8, 24));
    let acts: Vec<i8> = job.act_bytes.iter().map(|&b| b as i8).collect();
    let accs = ternary_matvec(layer.weights(), &acts);
    let bytes: Vec<u8> = accs.iter().flat_map(|a| a.to_le_bytes()).collect();
    assert_eq!(finish_linear(&bytes, job.act_scale, layer.weight_scale()), layer.forward(&x));
}

#[test]
fn setting_a_weight_changes_no_other() {
    let values: Vec<i8> = (0..15).map(|i| (i % 3) as i8 - 1).collect();
    let mut t = weights_from_i8(&values, 3, 5);
    t.set(1, 2, Ternary::Pos);
    for r in 0..3 {
        for c in 0..5 {
            let expected = if (r, c) == (1, 2) { 1 } else { values[r * 5 + c] };
            assert_eq!(t.get(r, c).value(), expected);
        }
    }
    assert_eq!(t.describe(), "TernaryTensor(3×5, 4 bytes packed)");
}

#[test]
fn quantized_values_stay_within_127() {
    let (q, _) = quantize_absmax(&reals(&[1000.0, -1000.0, 0.3, -999.9]));
    assert_eq!(q, [127, -127, 0, -127]);
    // However small the values are, the largest takes the whole range.
    let (q, scale) = quantize_absmax(&reals(&[1.0e-8, -1.0e-8, 0.0]));
    assert_eq!((q, scale), (vec![127, -127, 0], F(1.0e-8 / 127.0)));
    // Only where all are zero is the scale one.
    assert_eq!(quantize_absmax(&reals(&[0.0, -0.0])), (vec![0, 0], F(1.0)));
}

#[test]
fn appended_positions_read_back() {
    let mut cache = KvCache::<F>::new(2, 3, 4);
    let keys: Vec<f32> = (0..12).map(|i| i as f32).collect();
    let values: Vec<f32> = (0..12).map(|i| -(i as f32)).collect();
    cache.append(&reals(&keys), &reals(&values));
    assert_eq!(floats(cache.key_at(1, 1)), [9.0, 10.0, 11.0]);
    assert_eq!(floats(cache.value_at(0, 1)), [-3.0, -4.0, -5.0]);
}

#[test]
fn parallel_projection_scores_every_entry() {
    // More entries than one piece of parallel work has.
    let (vocab, embed) = (10_000, 6);
    let weights: Vec<f32> = (0..vocab * embed).map(|i| (i % 13) as f32 - 6.0).collect();
    let normed: Vec<f32> = (0..2 * embed).map(|i| i as f32 * 0.5).collect();
    let scores = float_output_projection(&reals(&normed), &reals(&weights), 2, vocab, embed);
    assert_eq!(scores.len(), 2 * vocab);
    for t in 0..2 {
        for v in [0, 1, 4095, 4096, 8191, 8192, 9999] {
            let expected: f32 =
                (0..embed).map(|d| normed[t * embed + d] * weights[v * embed + d]).sum();
            assert_eq!(scores[t * vocab + v], F(expected), "token {t}, entry {v}");
        }
    }
}

#[test]
fn repetition_is_penalized() {
    let config = SamplerConfig {
        temperature: F(0.0),
        repetition_penalty: F(2.0),
        repetition_window: 2,
        ..SamplerConfig::default()
    };
    let mut sampler = Sampler::new(config, 1);
    let logits = reals(&[4.0, 3.0, -1.0]);
    assert_eq!(sampler.sample(&logits), 0);
    // Four is halved to two, below three.
    assert_eq!(sampler.sample(&logits), 1);
    // Both are penalized: two against one and a half.
    assert_eq!(sampler.sample(&logits), 0);
    // The window holds the last two tokens, one and zero.
    assert_eq!(sampler.sample(&logits), 0);
    // Zero was seen twice now, and four becomes one.
    assert_eq!(sampler.sample(&logits), 1);
}

fn gpt2(merges: &[&str], rule: PreTokenizerType) -> Tokenizer {
    let mut vocab = vec!["<|endoftext|>".to_string()];
    vocab.extend((0..=255u8).map(|b| gpt2_byte_to_char(b).to_string()));
    let mut types = vec![TokenType::Normal; vocab.len()];
    types[0] = TokenType::Control;
    for merge in merges {
        vocab.push(merge.replace(' ', ""));
        types.push(TokenType::Normal);
    }
    let merges: Vec<String> = merges.iter().map(|m| m.to_string()).collect();
    let scores = vec![0; vocab.len()];
    Tokenizer::from_parts_with_mode(vocab, scores, types, 0, 0, BpeMode::Gpt2, rule, &merges).unwrap()
}

#[test]
fn any_text_comes_back_from_its_tokens() {
    let texts = [
        "plain",
        " two  spaces ",
        "tabs\tand\nlines\r\n",
        "I'M don't 'quoted'",
        "12345 6",
        "na\u{ef}ve \u{6f22}\u{5b57} \u{1f980}!",
        "\0\u{7f}",
    ];
    for rule in [PreTokenizerType::Gpt2, PreTokenizerType::Llama3] {
        let tok = gpt2(&["h e", "l l", "t a"], rule);
        for text in texts {
            let tokens = tok.encode(text, true);
            assert_eq!(tokens[0], 0);
            assert!(tokens.iter().all(|&t| (t as usize) < tok.vocab_size()));
            assert_eq!(tok.decode(&tokens), text);
        }
    }
}

#[test]
fn pre_tokenizers_lose_nothing() {
    for text in ["Don't stop 1234567!", "a  b\n\n c", "\u{3000}x\u{1f980}9"] {
        assert_eq!(gpt2_pre_tokenize(text).concat(), text);
        assert_eq!(llama3_pre_tokenize(text).concat(), text);
    }
    assert!(llama3_pre_tokenize("1234567").iter().all(|w| w.len() <= 3));
    // Contractions of the first rule are in lower case.
    assert_eq!(gpt2_pre_tokenize("I'M"), ["I", "'", "M"]);
    assert_eq!(llama3_pre_tokenize("I'M"), ["I", "'M"]);
}

#[test]
fn white_space_before_a_word_keeps_its_last_character_apart() {
    assert_eq!(gpt2_pre_tokenize("a  b"), ["a", " ", " b"]);
    assert_eq!(gpt2_pre_tokenize("a   1"), ["a", "  ", " 1"]);
    assert_eq!(gpt2_pre_tokenize("a \n b"), ["a", " \n", " b"]);
    assert_eq!(gpt2_pre_tokenize("a\n\nb"), ["a", "\n", "\n", "b"]);
    // Nothing follows.
    assert_eq!(gpt2_pre_tokenize("a   "), ["a", "   "]);
    assert_eq!(gpt2_pre_tokenize("a\tb"), ["a", "\t", "b"]);
    // Before letters it stands apart as a whole under the second rule.
    assert_eq!(llama3_pre_tokenize("a  b"), ["a", "  ", "b"]);
    assert_eq!(llama3_pre_tokenize("a \tb"), ["a", " \t", "b"]);
    assert_eq!(llama3_pre_tokenize("a   12345"), ["a", "  ", " ", "123", "45"]);
    assert_eq!(llama3_pre_tokenize("a   "), ["a", "   "]);
}

#[test]
fn a_space_joins_the_punctuation_after_it() {
    assert_eq!(llama3_pre_tokenize("a !"), ["a", " !"]);
    assert_eq!(llama3_pre_tokenize("a  !?\n\nb"), ["a", " ", " !?\n\n", "b"]);
    assert_eq!(llama3_pre_tokenize("a !b"), ["a", " !", "b"]);
    assert_eq!(llama3_pre_tokenize("a!b"), ["a", "!b"]);
    assert_eq!(gpt2_pre_tokenize("a !b"), ["a", " !", "b"]);
}

#[test]
fn line_ends_stand_with_the_white_space_before_them() {
    assert_eq!(llama3_pre_tokenize("a\n \nb"), ["a", "\n \n", "b"]);
    assert_eq!(llama3_pre_tokenize("a \n b"), ["a", " \n", " ", "b"]);
    assert_eq!(llama3_pre_tokenize("\r\n\r\nb"), ["\r\n\r\n", "b"]);
}

#[test]
fn numbers_of_any_script_are_numbers() {
    assert_eq!(gpt2_pre_tokenize("!\u{b2}"), ["!", "\u{b2}"]);
    assert_eq!(gpt2_pre_tokenize("x \u{b2}\u{b3}y"), ["x", " \u{b2}\u{b3}", "y"]);
    assert_eq!(llama3_pre_tokenize("!\u{b2}"), ["!", "\u{b2}"]);
    assert_eq!(llama3_pre_tokenize("x \u{b2}"), ["x", " ", "\u{b2}"]);
    // Roman numerals are alphabetic, and numbers.
    assert_eq!(gpt2_pre_tokenize("a\u{2167}b"), ["a", "\u{2167}", "b"]);
    assert_eq!(llama3_pre_tokenize("\u{2167}\u{2167}\u{2167}\u{2167}"), ["\u{2167}\u{2167}\u{2167}", "\u{2167}"]);
}

#[test]
fn only_the_apostrophe_starts_a_contraction() {
    assert_eq!(llama3_pre_tokenize("\u{2019}more"), ["\u{2019}more"]);
    assert_eq!(llama3_pre_tokenize("'More"), ["'M", "ore"]);
    assert_eq!(gpt2_pre_tokenize("\u{2019}s"), ["\u{2019}", "s"]);
}

#[test]
fn positive_numbers_are_greater_than_zero() {
    assert!(positive(F(1e-30)) && positive(F(f32::INFINITY)));
    assert!(!positive(F(0.0)) && !positive(F(-1.0)) && !positive(F(f32::NAN)));
}

#[test]
fn integers_round_to_doubles() {
    let edge = 1u64 << 53;
    for n in [0, 1, edge - 1, edge, edge + 1, edge + 2, edge + 3, 3 * edge + 5, u64::MAX, u64::MAX - 1024] {
        assert_eq!(to_double(n), n as f64 as u128, "{n}");
    }
    for n in (0..62).flat_map(|k| [(1u64 << k) + 1, (1u64 << k) * 3 / 2 + 7]) {
        assert_eq!(to_double(n), n as f64 as u128, "{n}");
    }
}

#[test]
fn byte_tokens_spell_their_bytes() {
    for b in 0..=255u8 {
        assert_eq!(parse_byte_token(&byte_token_text(b)), Some(b));
    }
    assert_eq!(byte_token_text(0xA7), "<0xA7>");
}

#[test]
fn broken_utf8_is_replaced() {
    let tok = gpt2(&[], PreTokenizerType::Gpt2);
    // A lone continuation byte.
    let bytes = tok.token_bytes(&[1 + 0x80, 1 + b'a' as u32]);
    assert_eq!(bytes, [0x80, b'a']);
    assert_eq!(tok.decode(&[1 + 0x80, 1 + b'a' as u32]), "\u{fffd}a");
}

fn byte_fallback() -> Tokenizer {
    let texts = ["<unk>", "<s>", "</s>", "<0xC3>", "<0xA9>", "\u{2581}"];
    let types = vec![
        TokenType::Unknown,
        TokenType::Control,
        TokenType::Control,
        TokenType::Byte,
        TokenType::Byte,
        TokenType::Normal,
    ];
    let vocab = texts.iter().map(|t| t.to_string()).collect();
    Tokenizer::from_parts(vocab, vec![0; 6], types, 1, 2).unwrap()
}

#[test]
fn byte_tokens_are_joined_before_they_are_read() {
    let tok = byte_fallback();
    assert_eq!(tok.encode("\u{e9}", false), [5, 3, 4]);
    assert_eq!(tok.token_bytes(&[5, 3, 4]), [0xE2, 0x96, 0x81, 0xC3, 0xA9]);
    assert_eq!(tok.decode(&[5, 3, 4]), "\u{e9}");
    let tokens = tok.encode(" \u{e9} \u{e9}\u{e9}", true);
    assert_eq!(tok.decode(&tokens), " \u{e9} \u{e9}\u{e9}");
    // Half a character is no character.
    assert_eq!(tok.decode(&[5, 3]), "\u{fffd}");
}

#[test]
fn streams_hold_unfinished_characters_back() {
    let tok = byte_fallback();
    let mut stream = TokenStream::new();
    assert_eq!(stream.push(&tok, 3), "");
    assert_eq!(stream.push(&tok, 4), "\u{e9}");
    assert_eq!(stream.finish(&tok), "");
    assert_eq!(stream.push(&tok, 3), "");
    assert_eq!(stream.finish(&tok), "\u{fffd}");
    // A continuation byte on its own starts nothing.
    assert_eq!(stream.push(&tok, 4), "\u{fffd}");
}

#[test]
fn streams_give_the_decoded_text() {
    let tok = gpt2(&["h e"], PreTokenizerType::Gpt2);
    for text in ["he said: \u{fc}ber \u{6f22}\u{5b57} \u{1f980}\u{1f980}!", "\u{7ff}\u{800}\u{ffff}"] {
        let tokens = tok.encode(text, true);
        let mut stream = TokenStream::new();
        let pieces: Vec<String> = tokens.iter().map(|&t| stream.push(&tok, t)).collect();
        assert!(pieces.iter().any(|p| p.is_empty()));
        assert_eq!(pieces.concat(), text);
        assert_eq!(stream.finish(&tok), "");
    }
}

#[test]
fn white_space_is_what_unicode_calls_it() {
    let spaces = [
        0x09, 0x0A, 0x0B, 0x0C, 0x0D, 0x20, 0x85, 0xA0, 0x1680, 0x2000, 0x200A, 0x2028, 0x2029, 0x202F,
        0x205F, 0x3000,
    ];
    for code in spaces {
        let c = char::from_u32(code).unwrap();
        assert_eq!(gpt2_pre_tokenize(&format!("{c}")), [c.to_string()]);
        assert_eq!(llama3_pre_tokenize(&format!("a{c}{c}b")).concat(), format!("a{c}{c}b"));
    }
    for code in 0..0x11_0000u32 {
        if let Some(c) = char::from_u32(code) {
            let listed = spaces.contains(&code) || (0x2000..=0x200A).contains(&code);
            assert_eq!(c.is_whitespace(), listed, "U+{code:04X}");
            if code < 128 {
                assert_eq!(c.is_alphabetic(), c.is_ascii_alphabetic());
                assert_eq!(c.is_numeric(), c.is_ascii_digit());
            }
        }
    }
}

fn metadata(tokens: ArrayField<String>) -> TokenizerMetadata {
    TokenizerMetadata {
        model: Some("gpt2".to_string()),
        pre: Some("llama-bpe".to_string()),
        tokens,
        scores: ArrayField::Missing,
        token_types: ArrayField::Items(vec![Some(3), None]),
        merges: ArrayField::Items(vec![Some("a b".to_string())]),
        bos_token_id: None,
        eos_token_id: Some(0),
    }
}

#[test]
fn tokenizer_is_built_from_metadata() {
    let texts = ["<s>", "a", "b", "ab"];
    let items = texts.iter().map(|t| Some(t.to_string())).collect();
    let tok = Tokenizer::from_gguf(metadata(ArrayField::Items(items))).unwrap();
    assert_eq!(tok.vocab_size(), 4);
    assert_eq!((tok.bos_token_id(), tok.eos_token_id()), (1, 0));
    assert_eq!(tok.token_type(0), TokenType::Control);
    assert_eq!(tok.encode("ab", false), [3]);
    assert_eq!(tok.describe(), "Tokenizer(vocab=4, bos=1, eos=0, mode=Gpt2)");
}

#[test]
fn tokenizer_needs_its_tokens() {
    match Tokenizer::from_gguf(metadata(ArrayField::Missing)) {
        Err(GgufError::MissingMetadata(key)) => assert_eq!(key, "tokenizer.ggml.tokens"),
        _ => panic!("tokens were missing"),
    }
    match Tokenizer::from_gguf(metadata(ArrayField::NotArray)) {
        Err(GgufError::MetadataTypeMismatch { key, expected }) => {
            assert_eq!((key.as_str(), expected.as_str()), ("tokenizer.ggml.tokens", "array"));
        }
        _ => panic!("tokens were no array"),
    }
}

#[test]
fn missing_scores_matter_only_where_they_are_read() {
    let texts = ["<unk>", "<s>", "</s>", "\u{2581}", "a", "b", "ab"];
    let vocab: Vec<String> = texts.iter().map(|t| t.to_string()).collect();
    let types = vec![TokenType::Normal; vocab.len()];
    let full = vec![0; vocab.len()];
    let tok = Tokenizer::from_parts(vocab.clone(), full, types.clone(), 1, 2).unwrap();
    assert!(tok.is_scored());
    assert_eq!(tok.encode("ab", false), [3, 6]);
    // The last token has no score, but nothing merges into it here.
    let tok = Tokenizer::from_parts(vocab, vec![0; 6], types, 1, 2).unwrap();
    assert!(!tok.is_scored());
    assert!(tok.has_scores_for("ba") && tok.has_scores_for(""));
    assert!(!tok.has_scores_for("ab") && !tok.has_scores_for("bab"));
    assert_eq!(tok.encode("ba", false), [3, 5, 4]);
    assert_eq!(tok.encode("", true), [1]);
}

#[test]
fn decodable_tokens_have_a_type() {
    let texts = ["<s>", "a", "b", "ab"];
    let items = texts.iter().map(|t| Some(t.to_string())).collect();
    let tok = Tokenizer::from_gguf(metadata(ArrayField::Items(items))).unwrap();
    // Types are given to the first two tokens only; the sequence marks are 1
    // and 0.
    assert!(tok.can_decode(0) && tok.can_decode(1));
    assert!(!tok.can_decode(2) && !tok.can_decode(9));
    assert_eq!(tok.decode(&[0, 1]), "");
}

#[test]
fn drawn_tokens_are_among_the_candidates() {
    let logits = reals(&[0.5, 3.0, -1.0, 2.5, 1.0]);
    let mut sampler = Sampler::new(SamplerConfig::top_k(2, F(2.0)), 7);
    let seen: Vec<u32> = (0..50).map(|_| sampler.sample(&logits)).collect();
    assert!(seen.iter().all(|&t| t == 1 || t == 3));
    assert!(seen.contains(&1) && seen.contains(&3));
}

#[test]
fn generated_tokens_are_in_the_vocabulary() {
    let m = model(2);
    for seed in 1..5 {
        let out = m.generate(&[0, 3], 6, SamplerConfig::top_k(0, F(1.5)), seed, None);
        assert_eq!(out.len(), 8);
        assert!(out.iter().all(|&t| (t as usize) < m.vocab_size()));
    }
}

#[test]
fn generation_without_caches_gives_the_same_text() {
    let m = model(2);
    for (config, seed) in [
        (SamplerConfig::greedy(), 3),
        (SamplerConfig { temperature: F(3.0), ..SamplerConfig::default() }, 11),
    ] {
        let mut sampler = Sampler::new(config, seed);
        let mut plain = vec![1u32, 6];
        for _ in 0..7 {
            let scores = m.forward_last(&plain, 0);
            plain.push(sampler.sample(&scores));
        }
        assert_eq!(m.generate(&[1, 6], 7, config, seed, None), plain);
    }
}
