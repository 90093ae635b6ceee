//! From text to tokens.

use crate::float_bits::{INFINITY_BITS, order_key};
use crate::text::{chars_of, concatenated, lemma_views_push, string_of_char, views};
use crate::tokenizer::{
    BpeMode, Tokenizer, NO_TOKEN, SPACE_MARK, byte_spelling, marked, merge_at, spelled,
};
use crate::tokenizer::bytes::{byte_token_text, char_of_byte, gpt2_byte_to_char};
use crate::tokenizer::split::pre_tokenize;
use vstd::prelude::*;
use vstd::string::*;
use vstd::utf8::*;

verus! {

/// A text with a space put in front and all spaces marked.
fn marked_chars(text: &str) -> (chars: Vec<char>)
    ensures
        chars@ == marked(text@),
{
    let source: Vec<char> = chars_of(text);
    let mut chars: Vec<char> = Vec::new();
    chars.push(SPACE_MARK);
    let mut i: usize = 0;
    while i < source.len()
        invariant
            source@ == text@,
            i <= source@.len(),
            chars@.len() == i + 1,
            forall|j: int| 0 <= j < chars@.len() ==> #[trigger] chars@[j] == marked(text@)[j],
        decreases source@.len() - i,
    {
        let c: char = source[i];
        chars.push(if c == ' ' { SPACE_MARK } else { c });
        i += 1;
    }
    assert(chars@ =~= marked(text@));
    chars
}

/// Merge the pair at a position.
fn merge_pair(symbols: &mut Vec<String>, i: usize)
    requires
        i + 1 < old(symbols)@.len(),
    ensures
        views(final(symbols)@) == merge_at(views(old(symbols)@), i as int),
        final(symbols)@.len() < old(symbols)@.len(),
{
    let ghost before = views(symbols@);
    assert(before.len() == symbols.len());
    let both: String = concatenated(symbols[i].as_str(), symbols[i + 1].as_str());
    symbols[i] = both;
    let _ = symbols.remove(i + 1);
    assert(views(symbols@) =~= merge_at(before, i as int));
}

impl Tokenizer {
    /// How urgently two adjacent symbols merge.
    fn find_priority(&self, left: &str, right: &str) -> (r: Option<i64>)
        requires
            self.wf(),
            self.pair_scored(seq![left@, right@], 0),
        ensures
            match r {
                Some(p) => self.priority(left@, right@) == Some(p as int),
                None => self.priority(left@, right@) is None,
            },
    {
        let ghost pair = seq![left@, right@];
        assert(pair[0] == left@ && pair[1] == right@);
        match self.mode {
            BpeMode::SentencePiece => {
                let both: String = concatenated(left, right);
                match self.token_to_id.get(both.as_str()) {
                    Some(id) => {
                        assert(self.ids().contains_key(left@ + right@));
                        match order_key(self.scores[*id as usize]) {
                            Some(key) => if key < INFINITY_BITS as i64 {
                                Some(key)
                            } else {
                                None
                            },
                            None => None,
                        }
                    },
                    None => {
                        assert(!self.ids().contains_key(left@ + right@));
                        None
                    },
                }
            },
            BpeMode::Gpt2 => {
                let chars: Vec<char> = chars_of(left);
                let mut i: usize = 0;
                while i < chars.len()
                    invariant
                        chars@ == left@,
                        self.spec_mode() == BpeMode::Gpt2,
                        i <= chars@.len(),
                        forall|j: int| 0 <= j < i ==> #[trigger] chars@[j] != ' ',
                    decreases chars@.len() - i,
                {
                    if chars[i] == ' ' {
                        assert(left@.contains(' '));
                        return None;
                    }
                    i += 1;
                }
                assert(!left@.contains(' '));
                let mut key: String = String::from_str(left);
                key.push(' ');
                key.append(right);
                assert(key@ =~= left@ + seq![' '] + right@);
                match self.merge_ranks.get(key.as_str()) {
                    Some(rank) => if *rank < u32::MAX {
                        Some(*rank as i64)
                    } else {
                        None
                    },
                    None => None,
                }
            },
        }
    }

    /// The pair that merges next.
    fn find_next_merge(&self, symbols: &Vec<String>) -> (r: Option<usize>)
        requires
            self.wf(),
            forall|i: int|
                0 <= i < symbols@.len() - 1 ==> #[trigger] self.pair_scored(views(symbols@), i),
        ensures
            match r {
                Some(i) => self.merges_next(views(symbols@), i as int),
                None => forall|i: int| !self.merges_next(views(symbols@), i),
            },
    {
        let ghost texts = views(symbols@);
        let mut best: Option<(i64, usize)> = None;
        let mut i: usize = 1;
        while i < symbols.len()
            invariant
                self.wf(),
                forall|i: int|
                    0 <= i < symbols@.len() - 1 ==> #[trigger] self.pair_scored(texts, i),
                texts == views(symbols@),
                1 <= i,
                i <= symbols@.len() || i == 1,
                match best {
                    Some((p, b)) => {
                        &&& b < i - 1
                        &&& self.priority_at(texts, b as int) == Some(p as int)
                        &&& forall|j: int|
                            0 <= j < i - 1 && (#[trigger] self.priority_at(texts, j)) is Some ==> {
                                ||| p < self.priority_at(texts, j)->0
                                ||| p == self.priority_at(texts, j)->0 && b <= j
                            }
                    },
                    None => forall|j: int|
                        0 <= j < i - 1 ==> (#[trigger] self.priority_at(texts, j)) is None,
                },
            decreases symbols@.len() - i,
        {
            assert(texts[i - 1] == symbols@[i - 1]@ && texts[i as int] == symbols@[i as int]@);
            assert(self.pair_scored(texts, i - 1));
            let found: Option<i64> = self.find_priority(symbols[i - 1].as_str(), symbols[i].as_str());
            match found {
                Some(p) => {
                    assert(self.priority_at(texts, i - 1) == Some(p as int));
                    match best {
                        Some((q, _)) => if p < q {
                            best = Some((p, i - 1));
                        },
                        None => {
                            best = Some((p, i - 1));
                        },
                    }
                },
                None => {
                    assert(self.priority_at(texts, i - 1) is None);
                },
            }
            i += 1;
        }
        match best {
            Some((_, b)) => Some(b),
            None => None,
        }
    }

    /// Only one pair merges next.
    proof fn lemma_next_merge_is_unique(&self, symbols: Seq<Seq<char>>, i: int)
        requires
            self.merges_next(symbols, i),
        ensures
            i == choose|k: int| self.merges_next(symbols, k),
    {
        let k = choose|k: int| self.merges_next(symbols, k);
        assert(self.merges_next(symbols, k));
        assert(self.priority_at(symbols, k) is Some);
        assert(self.priority_at(symbols, i) is Some);
    }

    /// Merge symbols until nothing merges any more.
    fn merge_all(&self, symbols: Vec<String>) -> (r: Vec<String>)
        requires
            self.wf(),
            self.merges_scored(views(symbols@)),
        ensures
            views(r@) == self.merged(views(symbols@)),
    {
        let mut symbols = symbols;
        let ghost start = views(symbols@);
        loop
            invariant
                self.wf(),
                self.merges_scored(views(symbols@)),
                self.merged(views(symbols@)) == self.merged(start),
            ensures
                views(symbols@) == self.merged(start),
            decreases symbols@.len(),
        {
            match self.find_next_merge(&symbols) {
                Some(i) => {
                    proof {
                        self.lemma_next_merge_is_unique(views(symbols@), i as int);
                    }
                    merge_pair(&mut symbols, i);
                },
                None => {
                    break;
                },
            }
        }
        symbols
    }

    /// The symbols that a SentencePiece tokenizer starts from.
    fn sp_initial_tokenize(&self, text: &[char]) -> (symbols: Vec<String>)
        requires
            self.wf(),
            self.spec_mode() == BpeMode::SentencePiece,
        ensures
            views(symbols@) == self.initial_symbols(text@),
    {
        let mut symbols: Vec<String> = Vec::new();
        let mut i: usize = 0;
        assert(text@.take(0) =~= Seq::<char>::empty());
        assert(views(symbols@) =~= Seq::<Seq<char>>::empty());
        while i < text.len()
            invariant
                self.wf(),
                self.spec_mode() == BpeMode::SentencePiece,
                i <= text@.len(),
                views(symbols@) == self.initial_symbols(text@.take(i as int)),
            decreases text@.len() - i,
        {
            let symbol: String = string_of_char(text[i]);
            proof {
                assert(text@.take(i + 1).drop_last() =~= text@.take(i as int));
                assert(text@.take(i + 1).last() == text@[i as int]);
            }
            if self.token_to_id.contains_key(symbol.as_str()) {
                proof {
                    lemma_views_push(symbols@, symbol);
                }
                symbols.push(symbol);
            } else {
                let bytes: &[u8] = symbol.as_str().as_bytes();
                let ghost start = views(symbols@);
                let mut k: usize = 0;
                assert(bytes@.take(0) =~= Seq::<u8>::empty());
                assert(start + self.symbols_of_bytes(bytes@.take(0)) =~= start);
                while k < bytes.len()
                    invariant
                        self.wf(),
                        self.spec_mode() == BpeMode::SentencePiece,
                        k <= bytes@.len(),
                        views(symbols@) == start + self.symbols_of_bytes(bytes@.take(k as int)),
                    decreases bytes@.len() - k,
                {
                    let b: u8 = bytes[k];
                    let ghost so_far = self.symbols_of_bytes(bytes@.take(k as int));
                    proof {
                        assert(bytes@.take(k + 1).drop_last() =~= bytes@.take(k as int));
                        assert(bytes@.take(k + 1).last() == b);
                    }
                    if self.byte_to_token[b as usize] != NO_TOKEN {
                        let byte_symbol: String = byte_token_text(b);
                        proof {
                            lemma_views_push(symbols@, byte_symbol);
                            assert((start + so_far).push(byte_symbol@) =~= start + so_far.push(
                                byte_symbol@,
                            ));
                        }
                        symbols.push(byte_symbol);
                    }
                    k += 1;
                }
                assert(bytes@.take(bytes@.len() as int) =~= bytes@);
            }
            i += 1;
        }
        assert(text@.take(text@.len() as int) =~= text@);
        symbols
    }

    /// Encode a text with a SentencePiece vocabulary.
    fn encode_sentencepiece(&self, text: &str) -> (tokens: Vec<u32>)
        requires
            self.wf(),
            self.merges_scored(self.initial_symbols(marked(text@))),
            self.spec_mode() == BpeMode::SentencePiece,
        ensures
            tokens@ == self.ids_of(self.merged(self.initial_symbols(marked(text@)))),
    {
        let chars: Vec<char> = marked_chars(text);
        let initial: Vec<String> = self.sp_initial_tokenize(chars.as_slice());
        let symbols: Vec<String> = self.merge_all(initial);
        proof {
            self.lemma_initial_symbols_are_tokens(chars@);
            self.lemma_merged_symbols_are_tokens(self.initial_symbols(chars@));
        }
        let mut tokens: Vec<u32> = Vec::new();
        let ghost texts = views(symbols@);
        let mut i: usize = 0;
        while i < symbols.len()
            invariant
                self.wf(),
                texts == views(symbols@),
                forall|j: int| 0 <= j < texts.len() ==> self.ids().contains_key(#[trigger] texts[j]),
                i <= symbols@.len(),
                tokens@.len() == i,
                forall|j: int| 0 <= j < i ==> #[trigger] tokens@[j] == self.ids()[texts[j]],
            decreases symbols@.len() - i,
        {
            assert(texts[i as int] == symbols@[i as int]@);
            let id: u32 = match self.token_to_id.get(symbols[i].as_str()) {
                Some(id) => *id,
                None => NO_TOKEN,
            };
            tokens.push(id);
            i += 1;
        }
        assert(tokens@ =~= self.ids_of(texts));
        tokens
    }

    pub(crate) proof fn lemma_symbols_of_bytes_are_tokens(&self, bytes: Seq<u8>)
        requires
            self.wf(),
            self.spec_mode() == BpeMode::SentencePiece,
        ensures
            forall|j: int|
                0 <= j < self.symbols_of_bytes(bytes).len() ==> self.ids().contains_key(
                    #[trigger] self.symbols_of_bytes(bytes)[j],
                ),
        decreases bytes.len(),
    {
        if bytes.len() > 0 {
            self.lemma_symbols_of_bytes_are_tokens(bytes.drop_last());
            let b = bytes.last();
            assert(self.byte_ids()[b as int] == self.id_or_none(
                byte_spelling(self.spec_mode(), b),
            ));
            let rest = self.symbols_of_bytes(bytes.drop_last());
            let symbols = self.symbols_of_bytes(bytes);
            assert forall|j: int| 0 <= j < symbols.len() implies self.ids().contains_key(
                #[trigger] symbols[j],
            ) by {
                if j < rest.len() {
                    assert(symbols[j] == rest[j]);
                }
            }
        }
    }

    pub(crate) proof fn lemma_initial_symbols_are_tokens(&self, text: Seq<char>)
        requires
            self.wf(),
            self.spec_mode() == BpeMode::SentencePiece,
        ensures
            forall|j: int|
                0 <= j < self.initial_symbols(text).len() ==> self.ids().contains_key(
                    #[trigger] self.initial_symbols(text)[j],
                ),
        decreases text.len(),
    {
        if text.len() > 0 {
            self.lemma_initial_symbols_are_tokens(text.drop_last());
            let symbol = seq![text.last()];
            self.lemma_symbols_of_bytes_are_tokens(encode_utf8(symbol));
            let rest = self.initial_symbols(text.drop_last());
            assert forall|j: int| 0 <= j < self.initial_symbols(text).len() implies self.ids().contains_key(
                #[trigger] self.initial_symbols(text)[j],
            ) by {
                if j < rest.len() {
                    assert(self.initial_symbols(text)[j] == rest[j]);
                } else if !self.ids().contains_key(symbol) {
                    assert(self.initial_symbols(text)[j] == self.symbols_of_bytes(
                        encode_utf8(symbol),
                    )[j - rest.len()]);
                }
            }
        }
    }

    pub(crate) proof fn lemma_merged_symbols_are_tokens(&self, symbols: Seq<Seq<char>>)
        requires
            self.wf(),
            self.spec_mode() == BpeMode::SentencePiece,
            forall|j: int| 0 <= j < symbols.len() ==> self.ids().contains_key(#[trigger] symbols[j]),
        ensures
            forall|j: int|
                0 <= j < self.merged(symbols).len() ==> self.ids().contains_key(
                    #[trigger] self.merged(symbols)[j],
                ),
        decreases symbols.len(),
    {
        if exists|i: int| self.merges_next(symbols, i) {
            let i = choose|i: int| self.merges_next(symbols, i);
            let next = merge_at(symbols, i);
            assert(self.priority_at(symbols, i) is Some);
            assert forall|j: int| 0 <= j < next.len() implies self.ids().contains_key(
                #[trigger] next[j],
            ) by {
                if j < i {
                    assert(next[j] == symbols[j]);
                } else if j > i {
                    assert(next[j] == symbols[j + 1]);
                }
            }
            self.lemma_merged_symbols_are_tokens(next);
            assert(self.merged(symbols) == self.merged(next));
        } else {
            assert(self.merged(symbols) == symbols);
        }
    }

    /// Where every token has a score, merging never comes across one without.
    pub(crate) proof fn lemma_merges_are_scored(&self, symbols: Seq<Seq<char>>)
        requires
            self.wf(),
            self.scored(),
        ensures
            self.merges_scored(symbols),
        decreases symbols.len(),
    {
        assert forall|i: int| 0 <= i < symbols.len() - 1 implies #[trigger] self.pair_scored(
            symbols,
            i,
        ) by {
            if self.ids().contains_key(symbols[i] + symbols[i + 1]) {
                assert(self.ids()[symbols[i] + symbols[i + 1]] < self.spec_vocab().len());
            }
        }
        if exists|i: int| self.merges_next(symbols, i) {
            let i = choose|i: int| self.merges_next(symbols, i);
            self.lemma_merges_are_scored(merge_at(symbols, i));
        }
    }

    /// Whether the tokens that adjacent symbols would merge into all have a
    /// score.
    fn pairs_have_scores(&self, symbols: &Vec<String>) -> (r: bool)
        requires
            self.wf(),
            self.spec_mode() == BpeMode::SentencePiece,
        ensures
            r == forall|i: int|
                0 <= i < symbols@.len() - 1 ==> #[trigger] self.pair_scored(views(symbols@), i),
    {
        let ghost texts = views(symbols@);
        let mut i: usize = 1;
        while i < symbols.len()
            invariant
                self.wf(),
                self.spec_mode() == BpeMode::SentencePiece,
                texts == views(symbols@),
                1 <= i,
                i <= symbols@.len() || i == 1,
                forall|j: int| 0 <= j < i - 1 ==> #[trigger] self.pair_scored(texts, j),
            decreases symbols@.len() - i,
        {
            assert(texts[i - 1] == symbols@[i - 1]@ && texts[i as int] == symbols@[i as int]@);
            let both: String = concatenated(symbols[i - 1].as_str(), symbols[i].as_str());
            match self.token_to_id.get(both.as_str()) {
                Some(id) => {
                    assert(self.ids().contains_key(both@));
                    if *id as usize >= self.scores.len() {
                        assert(!self.pair_scored(texts, i - 1));
                        return false;
                    }
                },
                None => {
                    assert(!self.ids().contains_key(both@));
                },
            }
            assert(self.pair_scored(texts, i - 1));
            i += 1;
        }
        true
    }

    /// Whether no score is missing that encoding a text comes across.
    pub fn has_scores_for(&self, text: &str) -> (r: bool)
        requires
            self.wf(),
        ensures
            r == self.can_encode(text@),
    {
        if self.is_scored() || text.is_empty() {
            return true;
        }
        let chars: Vec<char> = marked_chars(text);
        let mut symbols: Vec<String> = self.sp_initial_tokenize(chars.as_slice());
        let ghost start = views(symbols@);
        loop
            invariant
                self.wf(),
                self.spec_mode() == BpeMode::SentencePiece,
                !self.scored(),
                text@.len() > 0,
                start == self.initial_symbols(marked(text@)),
                self.merges_scored(views(symbols@)) == self.merges_scored(start),
            decreases symbols@.len(),
        {
            if !self.pairs_have_scores(&symbols) {
                return false;
            }
            match self.find_next_merge(&symbols) {
                Some(i) => {
                    proof {
                        self.lemma_next_merge_is_unique(views(symbols@), i as int);
                    }
                    merge_pair(&mut symbols, i);
                },
                None => {
                    return true;
                },
            }
        }
    }

    /// The tokens of one symbol of a GPT-2 tokenizer, added to a list.
    fn push_symbol(&self, symbol: &str, tokens: &mut Vec<u32>)
        requires
            self.wf(),
        ensures
            final(tokens)@ == old(tokens)@ + (if self.ids().contains_key(symbol@) {
                seq![self.ids()[symbol@]]
            } else {
                self.tokens_of_bytes(encode_utf8(symbol@))
            }),
    {
        match self.token_to_id.get(symbol) {
            Some(id) => {
                tokens.push(*id);
                assert(tokens@ =~= old(tokens)@ + seq![self.ids()[symbol@]]);
            },
            None => {
                let bytes: &[u8] = symbol.as_bytes();
                let mut k: usize = 0;
                assert(bytes@.take(0) =~= Seq::<u8>::empty());
                assert(old(tokens)@ + self.tokens_of_bytes(bytes@.take(0)) =~= old(tokens)@);
                while k < bytes.len()
                    invariant
                        self.wf(),
                        k <= bytes@.len(),
                        tokens@ == old(tokens)@ + self.tokens_of_bytes(bytes@.take(k as int)),
                    decreases bytes@.len() - k,
                {
                    let id: u32 = self.byte_to_token[bytes[k] as usize];
                    let ghost so_far = self.tokens_of_bytes(bytes@.take(k as int));
                    proof {
                        assert(bytes@.take(k + 1).drop_last() =~= bytes@.take(k as int));
                        assert(bytes@.take(k + 1).last() == bytes@[k as int]);
                        assert((old(tokens)@ + so_far).push(id) =~= old(tokens)@ + so_far.push(id));
                    }
                    if id != NO_TOKEN {
                        tokens.push(id);
                    }
                    k += 1;
                }
                assert(bytes@.take(bytes@.len() as int) =~= bytes@);
            },
        }
    }

    /// The tokens of one word of a GPT-2 tokenizer.
    fn encode_word(&self, word: &str) -> (tokens: Vec<u32>)
        requires
            self.wf(),
            self.spec_mode() == BpeMode::Gpt2,
        ensures
            tokens@ == self.tokens_of_symbols(self.merged(spelled(encode_utf8(word@)))),
    {
        let bytes: &[u8] = word.as_bytes();
        let mut initial: Vec<String> = Vec::new();
        let mut k: usize = 0;
        while k < bytes.len()
            invariant
                k <= bytes@.len(),
                initial@.len() == k,
                forall|j: int| 0 <= j < k ==> (#[trigger] initial@[j])@ == seq![char_of_byte(bytes@[j])],
            decreases bytes@.len() - k,
        {
            initial.push(string_of_char(gpt2_byte_to_char(bytes[k])));
            k += 1;
        }
        assert(views(initial@) =~= spelled(bytes@));
        proof {
            self.lemma_merges_are_scored(views(initial@));
        }
        let symbols: Vec<String> = self.merge_all(initial);
        let ghost texts = views(symbols@);
        let mut tokens: Vec<u32> = Vec::new();
        let mut i: usize = 0;
        assert(texts.take(0) =~= Seq::<Seq<char>>::empty());
        while i < symbols.len()
            invariant
                self.wf(),
                texts == views(symbols@),
                i <= symbols@.len(),
                tokens@ == self.tokens_of_symbols(texts.take(i as int)),
            decreases symbols@.len() - i,
        {
            let ghost before = tokens@;
            self.push_symbol(symbols[i].as_str(), &mut tokens);
            proof {
                assert(texts.take(i + 1).drop_last() =~= texts.take(i as int));
                assert(texts.take(i + 1).last() == symbols@[i as int]@);
                assert(tokens@ =~= self.tokens_of_symbols(texts.take(i + 1)));
            }
            i += 1;
        }
        assert(texts.take(texts.len() as int) =~= texts);
        tokens
    }

    /// Encode words that a text was split into, with a GPT-2 vocabulary.
    pub fn encode_words(&self, words: &[String]) -> (tokens: Vec<u32>)
        requires
            self.wf(),
            self.spec_mode() == BpeMode::Gpt2,
        ensures
            tokens@ == self.tokens_of_words(views(words@)),
    {
        let ghost texts = views(words@);
        let mut tokens: Vec<u32> = Vec::new();
        let mut i: usize = 0;
        assert(texts.take(0) =~= Seq::<Seq<char>>::empty());
        while i < words.len()
            invariant
                self.wf(),
                self.spec_mode() == BpeMode::Gpt2,
                texts == views(words@),
                i <= words@.len(),
                tokens@ == self.tokens_of_words(texts.take(i as int)),
            decreases words@.len() - i,
        {
            let mut more: Vec<u32> = self.encode_word(words[i].as_str());
            tokens.append(&mut more);
            proof {
                assert(texts.take(i + 1).drop_last() =~= texts.take(i as int));
                assert(texts.take(i + 1).last() == words@[i as int]@);
            }
            i += 1;
        }
        assert(texts.take(texts.len() as int) =~= texts);
        tokens
    }

    /// Encode a text. The beginning-of-sequence token comes first where asked
    /// for.
    pub fn encode(&self, text: &str, add_bos: bool) -> (tokens: Vec<u32>)
        requires
            self.wf(),
            self.can_encode(text@),
        ensures
            tokens@ == (if add_bos {
                seq![self.spec_bos()]
            } else {
                Seq::empty()
            }) + self.encoded(text@),
    {
        let mut tokens: Vec<u32> = Vec::new();
        if add_bos {
            tokens.push(self.bos_token_id);
        }
        let ghost start = tokens@;
        assert(start =~= if add_bos {
            seq![self.spec_bos()]
        } else {
            Seq::empty()
        });
        if text.is_empty() {
            assert(start + self.encoded(text@) =~= start);
            return tokens;
        }
        proof {
            if self.scored() {
                self.lemma_merges_are_scored(self.initial_symbols(marked(text@)));
            }
        }
        let mut body: Vec<u32> = match self.mode {
            BpeMode::SentencePiece => self.encode_sentencepiece(text),
            BpeMode::Gpt2 => {
                let words: Vec<String> = pre_tokenize(self.pre_type, text);
                self.encode_words(words.as_slice())
            },
        };
        tokens.append(&mut body);
        tokens
    }
}

} // verus!
