use ternary_rs::tokenizer::bytes::{gpt2_byte_to_char, gpt2_char_to_byte, parse_byte_token};
use ternary_rs::tokenizer::split::{gpt2_pre_tokenize, llama3_pre_tokenize};
use ternary_rs::tokenizer::{TokenType, Tokenizer};

// SentencePiece

fn make_test_tokenizer() -> Tokenizer {
    let mut vocab = Vec::new();
    let mut scores = Vec::new();
    let mut token_types = Vec::new();

    // 0: unknown
    vocab.push("<unk>".to_string());
    scores.push(0.0f32.to_bits());
    token_types.push(TokenType::Unknown);

    // 1: BOS
    vocab.push("<s>".to_string());
    scores.push(0.0f32.to_bits());
    token_types.push(TokenType::Control);

    // 2: EOS
    vocab.push("</s>".to_string());
    scores.push(0.0f32.to_bits());
    token_types.push(TokenType::Control);

    // 3..258: byte tokens
    for b in 0..=255u8 {
        vocab.push(format!("<0x{:02X}>", b));
        scores.push(0.0f32.to_bits());
        token_types.push(TokenType::Byte);
    }

    let extra_tokens: Vec<(&str, f32)> = vec![
        ("\u{2581}", 0.0),  // 259
        ("h", 0.0),         // 260
        ("e", 0.0),         // 261
        ("l", 0.0),         // 262
        ("o", 0.0),         // 263
        ("w", 0.0),         // 264
        ("r", 0.0),         // 265
        ("d", 0.0),         // 266
        ("he", 1.0),        // 267
        ("ll", 2.0),        // 268
        ("lo", 3.0),        // 269
        ("hel", 4.0),       // 270
        ("hell", 5.0),      // 271
        ("hello", 6.0),     // 272
        ("\u{2581}he", 7.0), // 273
        ("wo", 8.0),        // 274
        ("wor", 9.0),       // 275
        ("worl", 10.0),     // 276
        ("world", 11.0),    // 277
        ("\u{2581}world", 12.0), // 278
    ];

    for (text, score) in extra_tokens {
        vocab.push(text.to_string());
        scores.push(score.to_bits());
        token_types.push(TokenType::Normal);
    }

    Tokenizer::from_parts(vocab, scores, token_types, 1, 2).unwrap()
}

#[test]
fn tokenizer_construction() {
    let tok = make_test_tokenizer();
    assert_eq!(tok.vocab_size(), 279);
    assert_eq!(tok.bos_token_id(), 1);
    assert_eq!(tok.eos_token_id(), 2);
}

#[test]
fn token_lookup() {
    let tok = make_test_tokenizer();
    assert_eq!(tok.token(0), "<unk>");
    assert_eq!(tok.token(1), "<s>");
    assert_eq!(tok.token(272), "hello");
}

#[test]
fn token_id_lookup() {
    let tok = make_test_tokenizer();
    assert_eq!(tok.token_id("hello"), Some(272));
    assert_eq!(tok.token_id("<s>"), Some(1));
    assert_eq!(tok.token_id("nonexistent"), None);
}

#[test]
fn token_types() {
    let tok = make_test_tokenizer();
    assert_eq!(tok.token_type(0), TokenType::Unknown);
    assert_eq!(tok.token_type(1), TokenType::Control);
    assert_eq!(tok.token_type(3), TokenType::Byte);
    assert_eq!(tok.token_type(272), TokenType::Normal);
}

#[test]
fn byte_fallback_table() {
    let tok = make_test_tokenizer();
    assert_eq!(tok.byte_to_token(0x41), 68);
    assert_eq!(tok.byte_to_token(0x00), 3);
    assert_eq!(tok.byte_to_token(0xFF), 258);
}

#[test]
fn encode_hello() {
    let tok = make_test_tokenizer();
    let tokens = tok.encode("hello", false);
    assert_eq!(tokens, vec![259, 272]);
}

#[test]
fn encode_with_bos() {
    let tok = make_test_tokenizer();
    let tokens = tok.encode("hello", true);
    assert_eq!(tokens[0], 1);
    assert_eq!(tokens.len(), 3);
}

#[test]
fn encode_empty() {
    let tok = make_test_tokenizer();
    assert_eq!(tok.encode("", false), Vec::<u32>::new());
    assert_eq!(tok.encode("", true), vec![1]);
}

#[test]
fn encode_hello_world() {
    let tok = make_test_tokenizer();
    let tokens = tok.encode("hello world", false);
    assert_eq!(tokens, vec![259, 272, 278]);
}

#[test]
fn decode_hello() {
    let tok = make_test_tokenizer();
    let text = tok.decode(&[259, 272]);
    assert_eq!(text, "hello");
}

#[test]
fn decode_skips_bos_eos() {
    let tok = make_test_tokenizer();
    let text = tok.decode(&[1, 259, 272, 2]);
    assert_eq!(text, "hello");
}

#[test]
fn decode_byte_fallback() {
    let tok = make_test_tokenizer();
    let text = tok.decode(&[68]);
    assert_eq!(text, "A");
}

#[test]
fn roundtrip_hello() {
    let tok = make_test_tokenizer();
    let tokens = tok.encode("hello", false);
    let decoded = tok.decode(&tokens);
    assert_eq!(decoded, "hello");
}

#[test]
fn roundtrip_hello_world() {
    let tok = make_test_tokenizer();
    let tokens = tok.encode("hello world", false);
    let decoded = tok.decode(&tokens);
    assert_eq!(decoded, "hello world");
}

#[test]
fn parse_byte_token_valid() {
    assert_eq!(parse_byte_token("<0x00>"), Some(0x00));
    assert_eq!(parse_byte_token("<0x41>"), Some(0x41));
    assert_eq!(parse_byte_token("<0xFF>"), Some(0xFF));
}

#[test]
fn parse_byte_token_invalid() {
    assert_eq!(parse_byte_token("hello"), None);
    assert_eq!(parse_byte_token("<0xGG>"), None);
    assert_eq!(parse_byte_token("<0x0>"), None);
}

#[test]
fn tokenizer_debug_format() {
    let tok = make_test_tokenizer();
    let debug = tok.describe();
    assert!(debug.contains("Tokenizer"));
    assert!(debug.contains("vocab=279"));
}

// GPT-2 byte mapping tests

#[test]
fn gpt2_byte_char_roundtrip() {
    for b in 0..=255u8 {
        let ch = gpt2_byte_to_char(b);
        let back = gpt2_char_to_byte(ch);
        assert_eq!(b, back, "roundtrip failed for byte {b}: char={ch}");
    }
}

#[test]
fn gpt2_printable_ascii_identity() {
    // Printable ASCII (33-126) maps to itself
    for b in 33..=126u8 {
        let ch = gpt2_byte_to_char(b);
        assert_eq!(ch as u32, b as u32, "byte {b} should map to itself");
    }
}

#[test]
fn gpt2_space_maps_to_unicode() {
    // Space (32) is NOT in the direct range, should map to U+0100+
    let ch = gpt2_byte_to_char(b' ');
    assert!(ch as u32 >= 256, "space should map above U+00FF, got U+{:04X}", ch as u32);
}

#[test]
fn gpt2_all_chars_unique() {
    let mut seen = std::collections::HashSet::new();
    for b in 0..=255u8 {
        let ch = gpt2_byte_to_char(b);
        assert!(seen.insert(ch), "duplicate char for byte {b}");
    }
}

// GPT-2 pre-tokenization tests

#[test]
fn gpt2_pretokenize_simple() {
    let words = gpt2_pre_tokenize("hello world");
    assert_eq!(words, vec!["hello", " world"]);
}

#[test]
fn gpt2_pretokenize_contractions() {
    let words = gpt2_pre_tokenize("I'm don't");
    // "I" "'m" " don" "'t"
    assert_eq!(words.len(), 4);
    assert_eq!(words[1], "'m");
    assert_eq!(words[3], "'t");
}

#[test]
fn gpt2_pretokenize_numbers() {
    let words = gpt2_pre_tokenize("test 123 abc");
    assert!(words.contains(&" 123".to_string()));
}

#[test]
fn gpt2_pretokenize_punctuation() {
    let words = gpt2_pre_tokenize("hello, world!");
    // "hello" "," " world" "!"
    assert!(words.contains(&",".to_string()));
    assert!(words.contains(&"!".to_string()));
}

// GPT-2 BPE tests

/// Build a minimal GPT-2 tokenizer for testing.
fn make_gpt2_tokenizer() -> Tokenizer {
    let mut vocab = Vec::new();
    let mut token_types = Vec::new();

    // Token 0: BOS (control)
    vocab.push("<|endoftext|>".to_string());
    token_types.push(TokenType::Control);

    // Tokens 1-256: single-byte tokens (GPT-2 Unicode mapping)
    for b in 0..=255u8 {
        let ch = gpt2_byte_to_char(b);
        vocab.push(ch.to_string());
        token_types.push(TokenType::Normal);
    }

    // Token 257: "he" (merge of "h" + "e")
    vocab.push("he".to_string());
    token_types.push(TokenType::Normal);

    // Token 258: "ll" (merge of "l" + "l")
    vocab.push("ll".to_string());
    token_types.push(TokenType::Normal);

    // Token 259: "lo" (merge of "l" + "o")
    vocab.push("lo".to_string());
    token_types.push(TokenType::Normal);

    // Token 260: "hel" (merge of "he" + "l")
    vocab.push("hel".to_string());
    token_types.push(TokenType::Normal);

    // Token 261: "hell" (merge of "hel" + "l")
    vocab.push("hell".to_string());
    token_types.push(TokenType::Normal);

    // Token 262: "hello" (merge of "hell" + "o")
    vocab.push("hello".to_string());
    token_types.push(TokenType::Normal);

    // Merge list (order = priority)
    let merges = vec![
        "h e".to_string(),     // rank 0: h+e → he
        "l l".to_string(),     // rank 1: l+l → ll
        "l o".to_string(),     // rank 2: l+o → lo
        "he l".to_string(),    // rank 3: he+l → hel
        "hel l".to_string(),   // rank 4: hel+l → hell
        "hell o".to_string(),  // rank 5: hell+o → hello
    ];

    // BOS=0, EOS=0 (simplified)
    Tokenizer::from_parts_gpt2(vocab, token_types, 0, 0, &merges).unwrap()
}

#[test]
fn gpt2_encode_hello() {
    let tok = make_gpt2_tokenizer();
    let tokens = tok.encode("hello", false);
    // h+e and l+l merge first; "he" and "ll" have no merge of their own.
    let o_token = 1 + 111; // = 112
    assert_eq!(tokens, vec![257, 258, o_token]);
}

#[test]
fn gpt2_encode_with_space() {
    let tok = make_gpt2_tokenizer();
    let tokens = tok.encode("hi there", false);
    // Pre-tokenize: ["hi", " there"]
    // Both words get byte-encoded, and since we have limited merges, most stay as bytes
    assert!(!tokens.is_empty());
    // Decode should roundtrip
    let decoded = tok.decode(&tokens);
    assert_eq!(decoded, "hi there");
}

#[test]
fn gpt2_roundtrip_ascii() {
    let tok = make_gpt2_tokenizer();
    for text in &["hello", "test", "a b c", "123"] {
        let tokens = tok.encode(text, false);
        let decoded = tok.decode(&tokens);
        assert_eq!(&decoded, text, "roundtrip failed for {:?}", text);
    }
}

#[test]
fn gpt2_merge_priority() {
    let tok = make_gpt2_tokenizer();
    // "hell" should merge: h+e→he, l+l→ll. Then he+ll doesn't match any merge.
    // So result should be ["he", "ll"]
    let tokens = tok.encode("hell", false);
    assert_eq!(tokens, vec![257, 258]); // he=257, ll=258
}

#[test]
fn gpt2_debug_format() {
    let tok = make_gpt2_tokenizer();
    let debug = tok.describe();
    assert!(debug.contains("Gpt2"));
}

// LLaMA3 pre-tokenization tests

#[test]
fn llama3_pretokenize_simple() {
    let words = llama3_pre_tokenize("hello world");
    assert_eq!(words, vec!["hello", " ", "world"]);
}

#[test]
fn llama3_pretokenize_contractions_case_insensitive() {
    let words = llama3_pre_tokenize("I'M DON'T");
    // Should split: "I" "'M" " " "DON" "'T"
    assert!(words.contains(&"'M".to_string()), "got: {:?}", words);
    assert!(words.contains(&"'T".to_string()), "got: {:?}", words);
}

#[test]
fn llama3_pretokenize_numbers_grouped() {
    let words = llama3_pre_tokenize("test 123456 abc");
    // Numbers split into groups of 1-3: "123", "456"
    assert!(words.contains(&"123".to_string()), "got: {:?}", words);
    assert!(words.contains(&"456".to_string()), "got: {:?}", words);
}

#[test]
fn llama3_pretokenize_punctuation() {
    let words = llama3_pre_tokenize("hello, world!");
    assert!(words.contains(&",".to_string()), "got: {:?}", words);
    assert!(words.contains(&"!".to_string()), "got: {:?}", words);
}

#[test]
fn llama3_pretokenize_newlines() {
    let words = llama3_pre_tokenize("hello\nworld");
    // Newline should be its own token
    assert!(words.contains(&"\n".to_string()), "got: {:?}", words);
}

#[test]
fn llama3_pretokenize_whitespace_separate() {
    // Unlike GPT-2, LLaMA3 does NOT attach leading space to words
    let words = llama3_pre_tokenize("hello world");
    assert_eq!(words[0], "hello");
    // Space should be separate from "world"
    assert!(words.iter().any(|w| w == "world"), "got: {:?}", words);
}
