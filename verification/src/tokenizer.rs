//! Byte-pair-encoding tokenizer.
//!
//! Two variants exist. SentencePiece vocabularies merge the pair whose result
//! has the lowest score, write spaces as `▁` and fall back to `<0xHH>` tokens.
//! GPT-2 vocabularies merge by rank in a merge list, after splitting the text
//! into words and spelling every byte as one visible character.

pub mod bytes;
pub mod decode;
pub mod encode;
pub mod laws;
pub mod split;
pub mod stream;

use crate::float_bits::{INFINITY_BITS, key_of_bits};
use crate::metadata::{ArrayField, GgufError, TokenizerMetadata};
use crate::text::{
    concatenated, decimal, read_utf8, same_text, string_of_char, views, with_number,
};
use crate::tokenizer::bytes::{
    byte_of_char, byte_token, byte_token_text, char_of_byte, gpt2_byte_to_char, spelled_byte,
};
use crate::tokenizer::split::{PreTokenizerType, words_of};
use vstd::hash_map::StringHashMap;
use vstd::prelude::*;
use vstd::string::*;
use vstd::utf8::*;

verus! {

/// What kind of token a vocabulary entry is.
#[derive(Debug, Clone, Copy, PartialEq, Eq, Structural)]
pub enum TokenType {
    Normal,
    Unknown,
    Control,
    UserDefined,
    Unused,
    Byte,
}

impl TokenType {
    /// The type with a given number; unknown numbers are normal tokens.
    pub open spec fn of_number(v: int) -> TokenType {
        if v == 2 {
            TokenType::Unknown
        } else if v == 3 {
            TokenType::Control
        } else if v == 4 {
            TokenType::UserDefined
        } else if v == 5 {
            TokenType::Unused
        } else if v == 6 {
            TokenType::Byte
        } else {
            TokenType::Normal
        }
    }

    /// The type with a given number.
    pub fn from_i32(v: i32) -> (t: Self)
        ensures
            t == TokenType::of_number(v as int),
    {
        match v {
            1 => TokenType::Normal,
            2 => TokenType::Unknown,
            3 => TokenType::Control,
            4 => TokenType::UserDefined,
            5 => TokenType::Unused,
            6 => TokenType::Byte,
            _ => TokenType::Normal,
        }
    }
}

/// Which variant of byte-pair encoding a tokenizer uses.
#[derive(Debug, Clone, Copy, PartialEq, Eq, Structural)]
pub enum BpeMode {
    /// Merges by score, `▁` for spaces.
    SentencePiece,
    /// Merges by rank, bytes spelled as characters.
    Gpt2,
}

/// What marks that a byte has no token.
pub const NO_TOKEN: u32 = u32::MAX;

/// The character that SentencePiece vocabularies write for a space.
pub const SPACE_MARK: char = '\u{2581}';

/// How the vocabulary spells a byte.
pub open spec fn byte_spelling(mode: BpeMode, b: u8) -> Seq<char> {
    match mode {
        BpeMode::SentencePiece => byte_token(b),
        BpeMode::Gpt2 => seq![char_of_byte(b)],
    }
}

/// The rank of the merge of `left` and `right` in a merge list: the position
/// of the last entry that reads `left`, a space, `right`. The left part ends
/// at the first space of an entry, and positions are counted in 32 bits.
pub open spec fn rank_in(merges: Seq<Seq<char>>, left: Seq<char>, right: Seq<char>) -> Option<u32>
    decreases merges.len(),
{
    if left.contains(' ') || merges.len() == 0 {
        None
    } else if merges.last() == left + seq![' '] + right {
        Some(((merges.len() - 1) % 0x1_0000_0000) as u32)
    } else {
        rank_in(merges.drop_last(), left, right)
    }
}

/// The symbols after the pair at `i` was merged.
pub open spec fn merge_at<A>(symbols: Seq<Seq<A>>, i: int) -> Seq<Seq<A>> {
    symbols.update(i, symbols[i] + symbols[i + 1]).remove(i + 1)
}

/// A text with a space put in front and all spaces marked.
pub open spec fn marked(text: Seq<char>) -> Seq<char> {
    (seq![' '] + text).map_values(
        |c: char|
            if c == ' ' {
                SPACE_MARK
            } else {
                c
            },
    )
}

/// A text with marks turned back into spaces and one leading space dropped.
pub open spec fn unmarked(text: Seq<char>) -> Seq<char> {
    let spaced = text.map_values(
        |c: char|
            if c == SPACE_MARK {
                ' '
            } else {
                c
            },
    );
    if spaced.len() > 0 && spaced[0] == ' ' {
        spaced.skip(1)
    } else {
        spaced
    }
}

/// A byte-pair-encoding tokenizer.
pub struct Tokenizer {
    vocab: Vec<String>,
    scores: Vec<u32>,
    token_types: Vec<TokenType>,
    token_to_id: StringHashMap<u32>,
    byte_to_token: Vec<u32>,
    bos_token_id: u32,
    eos_token_id: u32,
    mode: BpeMode,
    pre_type: PreTokenizerType,
    merge_ranks: StringHashMap<u32>,
}

impl Tokenizer {
    /// The token texts, by ID.
    pub closed spec fn spec_vocab(&self) -> Seq<Seq<char>> {
        views(self.vocab@)
    }

    /// The bit patterns of the scores, by ID.
    pub closed spec fn spec_scores(&self) -> Seq<u32> {
        self.scores@
    }

    /// The token types, by ID.
    pub closed spec fn spec_types(&self) -> Seq<TokenType> {
        self.token_types@
    }

    /// The IDs, by token text.
    pub closed spec fn ids(&self) -> Map<Seq<char>, u32> {
        self.token_to_id@
    }

    /// The IDs of the tokens that spell single bytes.
    pub closed spec fn byte_ids(&self) -> Seq<u32> {
        self.byte_to_token@
    }

    pub closed spec fn spec_bos(&self) -> u32 {
        self.bos_token_id
    }

    pub closed spec fn spec_eos(&self) -> u32 {
        self.eos_token_id
    }

    pub closed spec fn spec_mode(&self) -> BpeMode {
        self.mode
    }

    pub closed spec fn spec_rule(&self) -> PreTokenizerType {
        self.pre_type
    }

    /// The rank at which two symbols merge, in a GPT-2 tokenizer; the largest
    /// one never does.
    pub closed spec fn rank(&self, left: Seq<char>, right: Seq<char>) -> Option<u32> {
        if !left.contains(' ') && self.merge_ranks@.contains_key(left + seq![' '] + right) {
            Some(self.merge_ranks@[left + seq![' '] + right])
        } else {
            None
        }
    }

    /// The lookup tables agree with the vocabulary: a text has the ID of its
    /// last occurrence, and a byte that of its spelling.
    pub open spec fn wf(&self) -> bool {
        &&& self.spec_vocab().len() <= NO_TOKEN
        &&& forall|s: Seq<char>| #[trigger]
            self.ids().contains_key(s) ==> {
                &&& self.ids()[s] < self.spec_vocab().len()
                &&& self.spec_vocab()[self.ids()[s] as int] == s
            }
        &&& forall|k: int|
            0 <= k < self.spec_vocab().len() ==> {
                &&& self.ids().contains_key(#[trigger] self.spec_vocab()[k])
                &&& k <= self.ids()[self.spec_vocab()[k]]
            }
        &&& self.byte_ids().len() == 256
        &&& forall|b: u8|
            #[trigger] self.byte_ids()[b as int] == self.id_or_none(byte_spelling(self.spec_mode(), b))
    }

    /// The ID of a text, or `NO_TOKEN`.
    pub open spec fn id_or_none(&self, s: Seq<char>) -> u32 {
        if self.ids().contains_key(s) {
            self.ids()[s]
        } else {
            NO_TOKEN
        }
    }

    /// Every token has a score, where scores decide about merges.
    pub open spec fn scored(&self) -> bool {
        self.spec_mode() == BpeMode::SentencePiece ==> self.spec_vocab().len()
            <= self.spec_scores().len()
    }

    /// The token that the pair at position `i` would merge into has a score,
    /// if there is such a token and scores decide.
    pub open spec fn pair_scored(&self, symbols: Seq<Seq<char>>, i: int) -> bool {
        self.spec_mode() == BpeMode::SentencePiece && self.ids().contains_key(
            symbols[i] + symbols[i + 1],
        ) ==> self.ids()[symbols[i] + symbols[i + 1]] < self.spec_scores().len()
    }

    /// How urgently two adjacent symbols merge, the smallest first; nothing if
    /// they do not.
    pub open spec fn priority(&self, left: Seq<char>, right: Seq<char>) -> Option<int> {
        match self.spec_mode() {
            BpeMode::SentencePiece => if self.ids().contains_key(left + right) {
                match key_of_bits(self.spec_scores()[self.ids()[left + right] as int]) {
                    Some(key) => if key < INFINITY_BITS {
                        Some(key)
                    } else {
                        None
                    },
                    None => None,
                }
            } else {
                None
            },
            BpeMode::Gpt2 => match self.rank(left, right) {
                Some(rank) => if rank < u32::MAX {
                    Some(rank as int)
                } else {
                    None
                },
                None => None,
            },
        }
    }

    /// The priority of the pair at position `i`.
    pub open spec fn priority_at(&self, symbols: Seq<Seq<char>>, i: int) -> Option<int> {
        self.priority(symbols[i], symbols[i + 1])
    }

    /// The pair at `i` merges next: no pair is more urgent, and none further
    /// left is as urgent.
    pub open spec fn merges_next(&self, symbols: Seq<Seq<char>>, i: int) -> bool {
        &&& 0 <= i < symbols.len() - 1
        &&& self.priority_at(symbols, i) is Some
        &&& forall|j: int|
            0 <= j < symbols.len() - 1 && (#[trigger] self.priority_at(symbols, j)) is Some ==> {
                ||| self.priority_at(symbols, i)->0 < self.priority_at(symbols, j)->0
                ||| self.priority_at(symbols, i)->0 == self.priority_at(symbols, j)->0 && i <= j
            }
    }

    /// The symbols once nothing merges any more.
    pub open spec fn merged(&self, symbols: Seq<Seq<char>>) -> Seq<Seq<char>>
        decreases symbols.len(),
    {
        if exists|i: int| self.merges_next(symbols, i) {
            let i = choose|i: int| self.merges_next(symbols, i);
            self.merged(merge_at(symbols, i))
        } else {
            symbols
        }
    }

    /// Every token that merging comes across has a score.
    pub open spec fn merges_scored(&self, symbols: Seq<Seq<char>>) -> bool
        decreases symbols.len(),
    {
        &&& forall|i: int| 0 <= i < symbols.len() - 1 ==> #[trigger] self.pair_scored(symbols, i)
        &&& if exists|i: int| self.merges_next(symbols, i) {
            self.merges_scored(merge_at(symbols, choose|i: int| self.merges_next(symbols, i)))
        } else {
            true
        }
    }

    /// No score is missing that encoding a text comes across.
    pub open spec fn can_encode(&self, text: Seq<char>) -> bool {
        ||| self.scored()
        ||| text.len() == 0
        ||| self.merges_scored(self.initial_symbols(marked(text)))
    }

    /// The tokens of bytes that have one.
    pub open spec fn tokens_of_bytes(&self, bytes: Seq<u8>) -> Seq<u32>
        decreases bytes.len(),
    {
        if bytes.len() == 0 {
            Seq::empty()
        } else {
            let rest = self.tokens_of_bytes(bytes.drop_last());
            let id = self.byte_ids()[bytes.last() as int];
            if id == NO_TOKEN {
                rest
            } else {
                rest.push(id)
            }
        }
    }

    /// The `<0xHH>` symbols of bytes that have one.
    pub open spec fn symbols_of_bytes(&self, bytes: Seq<u8>) -> Seq<Seq<char>>
        decreases bytes.len(),
    {
        if bytes.len() == 0 {
            Seq::empty()
        } else {
            let rest = self.symbols_of_bytes(bytes.drop_last());
            if self.byte_ids()[bytes.last() as int] == NO_TOKEN {
                rest
            } else {
                rest.push(byte_token(bytes.last()))
            }
        }
    }

    /// The symbols that a SentencePiece tokenizer starts from: characters, or
    /// the bytes of those that are no token.
    pub open spec fn initial_symbols(&self, text: Seq<char>) -> Seq<Seq<char>>
        decreases text.len(),
    {
        if text.len() == 0 {
            Seq::empty()
        } else {
            let rest = self.initial_symbols(text.drop_last());
            let symbol = seq![text.last()];
            if self.ids().contains_key(symbol) {
                rest.push(symbol)
            } else {
                rest + self.symbols_of_bytes(encode_utf8(symbol))
            }
        }
    }

    /// The IDs of symbols.
    pub open spec fn ids_of(&self, symbols: Seq<Seq<char>>) -> Seq<u32> {
        symbols.map_values(|s: Seq<char>| self.ids()[s])
    }

    /// The tokens of symbols: their IDs, or those of their bytes where a symbol
    /// is no token.
    pub open spec fn tokens_of_symbols(&self, symbols: Seq<Seq<char>>) -> Seq<u32>
        decreases symbols.len(),
    {
        if symbols.len() == 0 {
            Seq::empty()
        } else {
            let rest = self.tokens_of_symbols(symbols.drop_last());
            if self.ids().contains_key(symbols.last()) {
                rest.push(self.ids()[symbols.last()])
            } else {
                rest + self.tokens_of_bytes(encode_utf8(symbols.last()))
            }
        }
    }

    /// The tokens of words in a GPT-2 tokenizer.
    pub open spec fn tokens_of_words(&self, words: Seq<Seq<char>>) -> Seq<u32>
        decreases words.len(),
    {
        if words.len() == 0 {
            Seq::empty()
        } else {
            self.tokens_of_words(words.drop_last()) + self.tokens_of_symbols(
                self.merged(spelled(encode_utf8(words.last()))),
            )
        }
    }

    /// The tokens of a text.
    pub open spec fn encoded(&self, text: Seq<char>) -> Seq<u32> {
        if text.len() == 0 {
            Seq::empty()
        } else {
            match self.spec_mode() {
                BpeMode::SentencePiece => self.ids_of(self.merged(self.initial_symbols(marked(text)))),
                BpeMode::Gpt2 => self.tokens_of_words(words_of(self.spec_rule(), text)),
            }
        }
    }

    /// Whether a token leaves no text behind: the sequence marks and control
    /// tokens.
    pub open spec fn is_silent(&self, id: u32) -> bool {
        ||| id == self.spec_bos()
        ||| id == self.spec_eos()
        ||| self.spec_types()[id as int] == TokenType::Control
    }

    /// A token that can be decoded: a sequence mark, or one with a text and a
    /// type. A control token of a GPT-2 vocabulary needs no text.
    pub open spec fn is_decodable(&self, id: u32) -> bool {
        ||| id == self.spec_bos()
        ||| id == self.spec_eos()
        ||| id < self.spec_vocab().len() && id < self.spec_types().len()
        ||| self.spec_mode() == BpeMode::Gpt2 && id < self.spec_types().len()
            && self.spec_types()[id as int] == TokenType::Control
    }

    /// The bytes that one token stands for, marks included. A byte token stands
    /// for its byte; other tokens of a SentencePiece vocabulary stand for their
    /// text, those of a GPT-2 vocabulary spell bytes as characters.
    pub open spec fn bytes_of_token(&self, id: u32) -> Seq<u8> {
        if self.is_silent(id) {
            Seq::empty()
        } else {
            let text = self.spec_vocab()[id as int];
            match self.spec_mode() {
                BpeMode::SentencePiece => if self.spec_types()[id as int] == TokenType::Byte {
                    match spelled_byte(text) {
                        Some(b) => seq![b],
                        None => Seq::empty(),
                    }
                } else {
                    encode_utf8(text)
                },
                BpeMode::Gpt2 => unspelled(text),
            }
        }
    }

    /// The bytes of tokens, one after the other.
    pub open spec fn bytes_of(&self, tokens: Seq<u32>) -> Seq<u8>
        decreases tokens.len(),
    {
        if tokens.len() == 0 {
            Seq::empty()
        } else {
            self.bytes_of(tokens.drop_last()) + self.bytes_of_token(tokens.last())
        }
    }

    /// The text of tokens.
    pub open spec fn decoded(&self, tokens: Seq<u32>) -> Seq<char> {
        match self.spec_mode() {
            BpeMode::SentencePiece => unmarked(read_utf8(self.bytes_of(tokens))),
            BpeMode::Gpt2 => read_utf8(self.bytes_of(tokens)),
        }
    }
}

/// Bytes spelled as GPT-2 symbols, one per byte.
pub open spec fn spelled(bytes: Seq<u8>) -> Seq<Seq<char>> {
    bytes.map_values(|b: u8| seq![char_of_byte(b)])
}

/// The bytes that GPT-2 characters stand for.
pub open spec fn unspelled(text: Seq<char>) -> Seq<u8> {
    text.map_values(|c: char| byte_of_char(c))
}

/// The texts of a metadata array; an element of another type reads as the
/// empty text.
pub open spec fn texts_in(items: Seq<Option<String>>) -> Seq<Seq<char>> {
    items.map_values(
        |item: Option<String>|
            match item {
                Some(s) => s@,
                None => Seq::<char>::empty(),
            },
    )
}

/// The scores that metadata gives to `n` tokens: zero where it gives none.
pub open spec fn scores_in(field: ArrayField<u32>, n: nat) -> Seq<u32> {
    match field {
        ArrayField::Items(items) => items@.map_values(
            |item: Option<u32>|
                match item {
                    Some(bits) => bits,
                    None => 0,
                },
        ),
        _ => Seq::new(n, |i: int| 0u32),
    }
}

/// The types that metadata gives to `n` tokens: normal where it gives none.
pub open spec fn types_in(field: ArrayField<i32>, n: nat) -> Seq<TokenType> {
    match field {
        ArrayField::Items(items) => items@.map_values(
            |item: Option<i32>|
                match item {
                    Some(v) => TokenType::of_number(v as int),
                    None => TokenType::Normal,
                },
        ),
        _ => Seq::new(n, |i: int| TokenType::Normal),
    }
}

/// The merge list in metadata: empty where it gives none.
pub open spec fn merges_in(field: ArrayField<String>) -> Seq<Seq<char>> {
    match field {
        ArrayField::Items(items) => texts_in(items@),
        _ => Seq::empty(),
    }
}

/// The variant that a model name selects.
pub open spec fn mode_of(model: Option<String>) -> BpeMode {
    match model {
        Some(name) => if name@ == "gpt2"@ {
            BpeMode::Gpt2
        } else {
            BpeMode::SentencePiece
        },
        None => BpeMode::SentencePiece,
    }
}

/// The splitting rule that a name selects.
pub open spec fn rule_of(pre: Option<String>) -> PreTokenizerType {
    match pre {
        Some(name) => if name@ == "llama3"@ || name@ == "falcon3"@ || name@ == "llama-v3"@ || name@
            == "llama-bpe"@ {
            PreTokenizerType::Llama3
        } else {
            PreTokenizerType::Gpt2
        },
        None => PreTokenizerType::Gpt2,
    }
}

fn id_table(vocab: &Vec<String>) -> (ids: StringHashMap<u32>)
    requires
        vocab@.len() <= NO_TOKEN,
    ensures
        forall|s: Seq<char>| #[trigger]
            ids@.contains_key(s) ==> ids@[s] < vocab@.len() && vocab@[ids@[s] as int]@ == s,
        forall|k: int|
            0 <= k < vocab@.len() ==> ids@.contains_key((#[trigger] vocab@[k])@) && k
                <= ids@[vocab@[k]@],
{
    let mut ids: StringHashMap<u32> = StringHashMap::with_capacity(vocab.len());
    let mut i: usize = 0;
    while i < vocab.len()
        invariant
            vocab@.len() <= NO_TOKEN,
            i <= vocab@.len(),
            forall|s: Seq<char>| #[trigger]
                ids@.contains_key(s) ==> ids@[s] < i && vocab@[ids@[s] as int]@ == s,
            forall|k: int|
                0 <= k < i ==> ids@.contains_key((#[trigger] vocab@[k])@) && k <= ids@[vocab@[k]@],
        decreases vocab@.len() - i,
    {
        ids.insert(vocab[i].clone(), i as u32);
        i += 1;
    }
    ids
}

fn byte_table(mode: BpeMode, ids: &StringHashMap<u32>) -> (table: Vec<u32>)
    ensures
        table@.len() == 256,
        forall|b: u8|
            #[trigger] table@[b as int] == if ids@.contains_key(byte_spelling(mode, b)) {
                ids@[byte_spelling(mode, b)]
            } else {
                NO_TOKEN
            },
{
    let mut table: Vec<u32> = Vec::new();
    let mut i: usize = 0;
    while i < 256
        invariant
            i <= 256,
            table@.len() == i,
            forall|b: u8|
                b < i ==> #[trigger] table@[b as int] == if ids@.contains_key(
                    byte_spelling(mode, b),
                ) {
                    ids@[byte_spelling(mode, b)]
                } else {
                    NO_TOKEN
                },
        decreases 256 - i,
    {
        let b: u8 = i as u8;
        let text: String = match mode {
            BpeMode::SentencePiece => byte_token_text(b),
            BpeMode::Gpt2 => string_of_char(gpt2_byte_to_char(b)),
        };
        let id: u32 = match ids.get(text.as_str()) {
            Some(id) => *id,
            None => NO_TOKEN,
        };
        table.push(id);
        i += 1;
    }
    table
}

fn rank_table(merges: &[String]) -> (ranks: StringHashMap<u32>)
    ensures
        forall|l: Seq<char>, r: Seq<char>|
            !l.contains(' ') ==> #[trigger] rank_in(views(merges@), l, r) == if ranks@.contains_key(
                l + seq![' '] + r,
            ) {
                Some(ranks@[l + seq![' '] + r])
            } else {
                None
            },
{
    let mut ranks: StringHashMap<u32> = StringHashMap::new();
    let mut i: usize = 0;
    let ghost all = views(merges@);
    assert(all.take(0) =~= Seq::<Seq<char>>::empty());
    while i < merges.len()
        invariant
            i <= merges@.len(),
            all == views(merges@),
            forall|l: Seq<char>, r: Seq<char>|
                !l.contains(' ') ==> #[trigger] rank_in(all.take(i as int), l, r)
                    == if ranks@.contains_key(l + seq![' '] + r) {
                    Some(ranks@[l + seq![' '] + r])
                } else {
                    None
                },
        decreases merges@.len() - i,
    {
        let ghost before = ranks@;
        ranks.insert(merges[i].clone(), (i as u64 % 0x1_0000_0000) as u32);
        proof {
            assert(all.take(i + 1).drop_last() =~= all.take(i as int));
            assert(all.take(i + 1).last() == merges@[i as int]@);
            assert forall|l: Seq<char>, r: Seq<char>| !l.contains(' ') implies #[trigger] rank_in(
                all.take(i + 1),
                l,
                r,
            ) == if ranks@.contains_key(l + seq![' '] + r) {
                Some(ranks@[l + seq![' '] + r])
            } else {
                None
            } by {
                let earlier = rank_in(all.take(i as int), l, r);
                if merges@[i as int]@ != l + seq![' '] + r {
                    assert(ranks@.contains_key(l + seq![' '] + r) == before.contains_key(
                        l + seq![' '] + r,
                    ));
                }
            }
        }
        i += 1;
    }
    assert(all.take(all.len() as int) =~= all);
    ranks
}

fn texts_of_items(items: Vec<Option<String>>) -> (texts: Vec<String>)
    ensures
        views(texts@) == texts_in(items@),
{
    let mut texts: Vec<String> = Vec::new();
    let mut i: usize = 0;
    while i < items.len()
        invariant
            i <= items@.len(),
            texts@.len() == i,
            forall|j: int| 0 <= j < i ==> (#[trigger] texts@[j])@ == texts_in(items@)[j],
        decreases items@.len() - i,
    {
        let text: String = match &items[i] {
            Some(s) => s.clone(),
            None => String::new(),
        };
        texts.push(text);
        i += 1;
    }
    assert(views(texts@) =~= texts_in(items@));
    texts
}

fn scores_of_field(field: ArrayField<u32>, n: usize) -> (scores: Vec<u32>)
    ensures
        scores@ == scores_in(field, n as nat),
{
    match field {
        ArrayField::Items(items) => {
            let mut scores: Vec<u32> = Vec::new();
            let mut i: usize = 0;
            while i < items.len()
                invariant
                    field == ArrayField::Items(items),
                    i <= items@.len(),
                    scores@.len() == i,
                    forall|j: int| 0 <= j < i ==> #[trigger] scores@[j] == scores_in(field, n as nat)[j],
                decreases items@.len() - i,
            {
                let bits: u32 = match items[i] {
                    Some(bits) => bits,
                    None => 0,
                };
                scores.push(bits);
                i += 1;
            }
            assert(scores@ =~= scores_in(field, n as nat));
            scores
        },
        _ => {
            let scores: Vec<u32> = vec![0u32; n];
            assert(scores@ =~= scores_in(field, n as nat));
            scores
        },
    }
}

fn types_of_field(field: ArrayField<i32>, n: usize) -> (types: Vec<TokenType>)
    ensures
        types@ == types_in(field, n as nat),
{
    match field {
        ArrayField::Items(items) => {
            let mut types: Vec<TokenType> = Vec::new();
            let mut i: usize = 0;
            while i < items.len()
                invariant
                    field == ArrayField::Items(items),
                    i <= items@.len(),
                    types@.len() == i,
                    forall|j: int| 0 <= j < i ==> #[trigger] types@[j] == types_in(field, n as nat)[j],
                decreases items@.len() - i,
            {
                let t: TokenType = match items[i] {
                    Some(v) => TokenType::from_i32(v),
                    None => TokenType::Normal,
                };
                types.push(t);
                i += 1;
            }
            assert(types@ =~= types_in(field, n as nat));
            types
        },
        _ => {
            let mut types: Vec<TokenType> = Vec::new();
            let mut i: usize = 0;
            while i < n
                invariant
                    i <= n,
                    types@.len() == i,
                    forall|j: int| 0 <= j < i ==> #[trigger] types@[j] == TokenType::Normal,
                decreases n - i,
            {
                types.push(TokenType::Normal);
                i += 1;
            }
            assert(types@ =~= types_in(field, n as nat));
            types
        },
    }
}

impl Tokenizer {
    /// Build a tokenizer from its parts.
    pub fn from_parts_with_mode(
        vocab: Vec<String>,
        scores: Vec<u32>,
        token_types: Vec<TokenType>,
        bos_token_id: u32,
        eos_token_id: u32,
        mode: BpeMode,
        pre_type: PreTokenizerType,
        merges: &[String],
    ) -> (r: Result<Self, GgufError>)
        requires
            vocab@.len() <= u32::MAX,
        ensures
            r matches Ok(t) && {
                &&& t.wf()
                &&& t.spec_vocab() == views(vocab@)
                &&& t.spec_scores() == scores@
                &&& t.spec_types() == token_types@
                &&& t.spec_bos() == bos_token_id
                &&& t.spec_eos() == eos_token_id
                &&& t.spec_mode() == mode
                &&& t.spec_rule() == pre_type
                &&& forall|left: Seq<char>, right: Seq<char>| #[trigger]
                    t.rank(left, right) == rank_in(views(merges@), left, right)
            },
    {
        let token_to_id: StringHashMap<u32> = id_table(&vocab);
        let byte_to_token: Vec<u32> = byte_table(mode, &token_to_id);
        let merge_ranks: StringHashMap<u32> = rank_table(merges);
        let t = Tokenizer {
            vocab,
            scores,
            token_types,
            token_to_id,
            byte_to_token,
            bos_token_id,
            eos_token_id,
            mode,
            pre_type,
            merge_ranks,
        };
        assert forall|k: int| 0 <= k < t.spec_vocab().len() implies {
            &&& t.ids().contains_key(#[trigger] t.spec_vocab()[k])
            &&& k <= t.ids()[t.spec_vocab()[k]]
        } by {
            assert(t.spec_vocab()[k] == t.vocab@[k]@);
        }
        assert forall|s: Seq<char>| #[trigger] t.ids().contains_key(s) implies t.ids()[s]
            < t.spec_vocab().len() && t.spec_vocab()[t.ids()[s] as int] == s by {
            assert(t.token_to_id@.contains_key(s));
        }
        Ok(t)
    }

    /// Build a SentencePiece tokenizer from its parts. Scores are bit patterns
    /// of single-precision numbers.
    pub fn from_parts(
        vocab: Vec<String>,
        scores: Vec<u32>,
        token_types: Vec<TokenType>,
        bos_token_id: u32,
        eos_token_id: u32,
    ) -> (r: Result<Self, GgufError>)
        requires
            vocab@.len() <= u32::MAX,
        ensures
            r matches Ok(t) && {
                &&& t.wf()
                &&& t.spec_vocab() == views(vocab@)
                &&& t.spec_scores() == scores@
                &&& t.spec_types() == token_types@
                &&& t.spec_bos() == bos_token_id
                &&& t.spec_eos() == eos_token_id
                &&& t.spec_mode() == BpeMode::SentencePiece
                &&& t.spec_rule() == PreTokenizerType::Gpt2
                &&& forall|left: Seq<char>, right: Seq<char>| #[trigger] t.rank(left, right) is None
            },
    {
        let merges: Vec<String> = Vec::new();
        proof {
            assert(views(merges@) =~= Seq::<Seq<char>>::empty());
        }
        Tokenizer::from_parts_with_mode(
            vocab,
            scores,
            token_types,
            bos_token_id,
            eos_token_id,
            BpeMode::SentencePiece,
            PreTokenizerType::Gpt2,
            merges.as_slice(),
        )
    }

    /// Build a GPT-2 tokenizer from its parts.
    pub fn from_parts_gpt2(
        vocab: Vec<String>,
        token_types: Vec<TokenType>,
        bos_token_id: u32,
        eos_token_id: u32,
        merges: &[String],
    ) -> (r: Result<Self, GgufError>)
        requires
            vocab@.len() <= u32::MAX,
        ensures
            r matches Ok(t) && {
                &&& t.wf()
                &&& t.spec_vocab() == views(vocab@)
                &&& t.spec_scores() == Seq::new(vocab@.len(), |i: int| 0u32)
                &&& t.spec_types() == token_types@
                &&& t.spec_bos() == bos_token_id
                &&& t.spec_eos() == eos_token_id
                &&& t.spec_mode() == BpeMode::Gpt2
                &&& t.spec_rule() == PreTokenizerType::Gpt2
                &&& forall|left: Seq<char>, right: Seq<char>| #[trigger]
                    t.rank(left, right) == rank_in(views(merges@), left, right)
            },
    {
        let scores: Vec<u32> = vec![0u32; vocab.len()];
        assert(scores@ =~= Seq::new(vocab@.len(), |i: int| 0u32));
        Tokenizer::from_parts_with_mode(
            vocab,
            scores,
            token_types,
            bos_token_id,
            eos_token_id,
            BpeMode::Gpt2,
            PreTokenizerType::Gpt2,
            merges,
        )
    }

    /// Build a tokenizer from the metadata of a model file.
    pub fn from_gguf(meta: TokenizerMetadata) -> (r: Result<Self, GgufError>)
        requires
            meta.tokens matches ArrayField::Items(items) ==> items@.len() <= u32::MAX,
        ensures
            match meta.tokens {
                ArrayField::Missing => r matches Err(GgufError::MissingMetadata(key)) && key@
                    == "tokenizer.ggml.tokens"@,
                ArrayField::NotArray => r matches Err(
                    GgufError::MetadataTypeMismatch { key, expected },
                ) && key@ == "tokenizer.ggml.tokens"@ && expected@ == "array"@,
                ArrayField::Items(items) => r matches Ok(t) && {
                    &&& t.wf()
                    &&& t.spec_vocab() == texts_in(items@)
                    &&& t.spec_scores() == scores_in(meta.scores, items@.len())
                    &&& t.spec_types() == types_in(meta.token_types, items@.len())
                    &&& t.spec_bos() == meta.bos_token_id.unwrap_or(1)
                    &&& t.spec_eos() == meta.eos_token_id.unwrap_or(2)
                    &&& t.spec_mode() == mode_of(meta.model)
                    &&& t.spec_rule() == rule_of(meta.pre)
                    &&& forall|left: Seq<char>, right: Seq<char>| #[trigger]
                        t.rank(left, right) == rank_in(
                            match mode_of(meta.model) {
                                BpeMode::Gpt2 => merges_in(meta.merges),
                                BpeMode::SentencePiece => Seq::empty(),
                            },
                            left,
                            right,
                        )
                },
            },
    {
        let mode: BpeMode = match &meta.model {
            Some(name) => if same_text(name.as_str(), "gpt2") {
                BpeMode::Gpt2
            } else {
                BpeMode::SentencePiece
            },
            None => BpeMode::SentencePiece,
        };
        let pre_type: PreTokenizerType = match &meta.pre {
            Some(name) => if same_text(name.as_str(), "llama3") || same_text(name.as_str(), "falcon3")
                || same_text(name.as_str(), "llama-v3") || same_text(name.as_str(), "llama-bpe") {
                PreTokenizerType::Llama3
            } else {
                PreTokenizerType::Gpt2
            },
            None => PreTokenizerType::Gpt2,
        };
        let vocab: Vec<String> = match meta.tokens {
            ArrayField::Missing => {
                return Err(GgufError::MissingMetadata(String::from_str("tokenizer.ggml.tokens")));
            },
            ArrayField::NotArray => {
                return Err(
                    GgufError::MetadataTypeMismatch {
                        key: String::from_str("tokenizer.ggml.tokens"),
                        expected: String::from_str("array"),
                    },
                );
            },
            ArrayField::Items(items) => texts_of_items(items),
        };
        let n: usize = vocab.len();
        assert(views(vocab@).len() == vocab@.len());
        let scores: Vec<u32> = scores_of_field(meta.scores, n);
        let token_types: Vec<TokenType> = types_of_field(meta.token_types, n);
        let merges: Vec<String> = match mode {
            BpeMode::Gpt2 => match meta.merges {
                ArrayField::Items(items) => texts_of_items(items),
                _ => Vec::new(),
            },
            BpeMode::SentencePiece => Vec::new(),
        };
        let bos_token_id: u32 = meta.bos_token_id.unwrap_or(1);
        let eos_token_id: u32 = meta.eos_token_id.unwrap_or(2);
        proof {
            assert(views(merges@) =~= match mode {
                BpeMode::Gpt2 => merges_in(meta.merges),
                BpeMode::SentencePiece => Seq::<Seq<char>>::empty(),
            });
            assert(views(merges@).len() == merges@.len());
        }
        Tokenizer::from_parts_with_mode(
            vocab,
            scores,
            token_types,
            bos_token_id,
            eos_token_id,
            mode,
            pre_type,
            merges.as_slice(),
        )
    }

    /// Vocabulary size.
    pub fn vocab_size(&self) -> (n: usize)
        ensures
            n == self.spec_vocab().len(),
    {
        self.vocab.len()
    }

    /// Beginning-of-sequence token ID.
    pub fn bos_token_id(&self) -> (id: u32)
        ensures
            id == self.spec_bos(),
    {
        self.bos_token_id
    }

    /// End-of-sequence token ID.
    pub fn eos_token_id(&self) -> (id: u32)
        ensures
            id == self.spec_eos(),
    {
        self.eos_token_id
    }

    /// The text of a token.
    pub fn token(&self, id: u32) -> (text: &str)
        requires
            id < self.spec_vocab().len(),
        ensures
            text@ == self.spec_vocab()[id as int],
    {
        self.vocab[id as usize].as_str()
    }

    /// The ID of a token.
    pub fn token_id(&self, token: &str) -> (id: Option<u32>)
        ensures
            id == if self.ids().contains_key(token@) {
                Some(self.ids()[token@])
            } else {
                None
            },
    {
        match self.token_to_id.get(token) {
            Some(id) => Some(*id),
            None => None,
        }
    }

    /// The type of a token.
    pub fn token_type(&self, id: u32) -> (t: TokenType)
        requires
            id < self.spec_types().len(),
        ensures
            t == self.spec_types()[id as int],
    {
        self.token_types[id as usize]
    }

    /// Whether every token has a score, where scores decide about merges.
    pub fn is_scored(&self) -> (r: bool)
        ensures
            r == self.scored(),
    {
        match self.mode {
            BpeMode::SentencePiece => self.vocab.len() <= self.scores.len(),
            BpeMode::Gpt2 => true,
        }
    }

    /// Whether a token can be decoded.
    pub fn can_decode(&self, id: u32) -> (r: bool)
        ensures
            r == self.is_decodable(id),
    {
        if id == self.bos_token_id || id == self.eos_token_id {
            return true;
        }
        if id as usize >= self.token_types.len() {
            return false;
        }
        (id as usize) < self.vocab.len() || (self.mode == BpeMode::Gpt2
            && self.token_types[id as usize] == TokenType::Control)
    }

    /// The token that spells a byte, or `NO_TOKEN`.
    pub fn byte_to_token(&self, b: u8) -> (id: u32)
        requires
            self.wf(),
        ensures
            id == self.byte_ids()[b as int],
    {
        self.byte_to_token[b as usize]
    }
}

impl Tokenizer {
    /// One line about a tokenizer.
    pub open spec fn description(&self) -> Seq<char> {
        "Tokenizer("@ + "vocab="@ + decimal(self.spec_vocab().len()) + ", bos="@ + decimal(
            self.spec_bos() as nat,
        ) + ", eos="@ + decimal(self.spec_eos() as nat) + (if self.spec_mode()
            == BpeMode::SentencePiece {
            ", mode=SentencePiece)"@
        } else {
            ", mode=Gpt2)"@
        })
    }

    /// One line about a tokenizer.
    pub fn describe(&self) -> (s: String)
        ensures
            s@ == self.description(),
    {
        let s: String = with_number(String::from_str("Tokenizer("), "vocab=", self.vocab.len());
        let s: String = with_number(s, ", bos=", self.bos_token_id as usize);
        let s: String = with_number(s, ", eos=", self.eos_token_id as usize);
        match self.mode {
            BpeMode::SentencePiece => concatenated(s.as_str(), ", mode=SentencePiece)"),
            BpeMode::Gpt2 => concatenated(s.as_str(), ", mode=Gpt2)"),
        }
    }
}

} // verus!
