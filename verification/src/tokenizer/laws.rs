//! What encoding and decoding promise together.

use crate::text::{joined, lemma_encode_utf8_add, lemma_joined_add, lemma_joined_push};
use crate::tokenizer::{
    BpeMode, NO_TOKEN, Tokenizer, SPACE_MARK, marked, merge_at, rank_in, spelled, unmarked, unspelled,
};
use crate::tokenizer::bytes::{char_of_byte, spelling_a_byte_roundtrips};
use crate::tokenizer::split::{classes_of, splitting_is_lossless, words_of};
use vstd::prelude::*;
use vstd::utf8::*;

verus! {

proof fn lemma_merge_at_keeps_text(symbols: Seq<Seq<char>>, i: int)
    requires
        0 <= i < symbols.len() - 1,
    ensures
        joined(merge_at(symbols, i)) == joined(symbols),
{
    let head = symbols.take(i);
    let both = symbols[i] + symbols[i + 1];
    let tail = symbols.skip(i + 2);
    assert(merge_at(symbols, i) =~= head.push(both) + tail);
    assert(symbols =~= head.push(symbols[i]).push(symbols[i + 1]) + tail);
    lemma_joined_add(head.push(both), tail);
    lemma_joined_add(head.push(symbols[i]).push(symbols[i + 1]), tail);
    lemma_joined_push(head, both);
    lemma_joined_push(head, symbols[i]);
    lemma_joined_push(head.push(symbols[i]), symbols[i + 1]);
    assert(joined(head) + both =~= joined(head) + symbols[i] + symbols[i + 1]);
}

/// Symbols that stand for runs of earlier symbols, cut at given places.
spec fn is_grouping(symbols: Seq<Seq<char>>, initial: Seq<Seq<char>>, cuts: Seq<int>) -> bool {
    &&& cuts.len() == symbols.len() + 1
    &&& cuts[0] == 0
    &&& cuts[symbols.len() as int] == initial.len()
    &&& forall|i: int, j: int| 0 <= i < j < cuts.len() ==> 0 <= #[trigger] cuts[i] < #[trigger] cuts[j]
    &&& forall|k: int|
        0 <= k < symbols.len() ==> #[trigger] symbols[k] == joined(
            initial.subrange(cuts[k], cuts[k + 1]),
        )
}

proof fn lemma_merge_at_groups(
    symbols: Seq<Seq<char>>,
    initial: Seq<Seq<char>>,
    cuts: Seq<int>,
    i: int,
)
    requires
        is_grouping(symbols, initial, cuts),
        0 <= i < symbols.len() - 1,
    ensures
        is_grouping(merge_at(symbols, i), initial, cuts.remove(i + 1)),
{
    let next = merge_at(symbols, i);
    let ends = cuts.remove(i + 1);
    assert forall|k: int| 0 <= k < next.len() implies #[trigger] next[k] == joined(
        initial.subrange(ends[k], ends[k + 1]),
    ) by {
        if k < i {
            assert(next[k] == symbols[k]);
        } else if k > i {
            assert(next[k] == symbols[k + 1]);
            assert(ends[k] == cuts[k + 1] && ends[k + 1] == cuts[k + 2]);
        } else {
            let (a, b, c) = (cuts[i], cuts[i + 1], cuts[i + 2]);
            assert(0 <= a < b < c <= initial.len());
            assert(initial.subrange(a, c) =~= initial.subrange(a, b) + initial.subrange(b, c));
            lemma_joined_add(initial.subrange(a, b), initial.subrange(b, c));
            assert(symbols[i] == joined(initial.subrange(a, b)));
            assert(symbols[i + 1] == joined(initial.subrange(b, c)));
            assert(ends[i] == a && ends[i + 1] == c);
        }
    }
}

/// An entry of a merge list that merges `left` and `right`.
pub open spec fn is_merge_of(entry: Seq<char>, left: Seq<char>, right: Seq<char>) -> bool {
    !left.contains(' ') && entry == left + seq![' '] + right
}

proof fn lemma_rank_has_entry(merges: Seq<Seq<char>>, left: Seq<char>, right: Seq<char>) -> (k: int)
    requires
        rank_in(merges, left, right) is Some,
    ensures
        0 <= k < merges.len(),
        is_merge_of(merges[k], left, right),
    decreases merges.len(),
{
    if merges.last() == left + seq![' '] + right {
        merges.len() - 1
    } else {
        lemma_rank_has_entry(merges.drop_last(), left, right)
    }
}

proof fn lemma_unspelled_add(a: Seq<char>, b: Seq<char>)
    ensures
        unspelled(a + b) == unspelled(a) + unspelled(b),
{
    assert(unspelled(a + b) =~= unspelled(a) + unspelled(b));
}

proof fn lemma_spelled_roundtrip(bytes: Seq<u8>)
    ensures
        unspelled(joined(spelled(bytes))) == bytes,
    decreases bytes.len(),
{
    if bytes.len() == 0 {
        assert(spelled(bytes) =~= Seq::<Seq<char>>::empty());
        assert(unspelled(joined(spelled(bytes))) =~= bytes);
    } else {
        let b = bytes.last();
        let symbol = seq![char_of_byte(b)];
        lemma_spelled_roundtrip(bytes.drop_last());
        assert(spelled(bytes) =~= spelled(bytes.drop_last()).push(symbol));
        lemma_joined_push(spelled(bytes.drop_last()), symbol);
        lemma_unspelled_add(joined(spelled(bytes.drop_last())), symbol);
        spelling_a_byte_roundtrips(b);
        assert(unspelled(symbol) =~= seq![b]);
        assert(bytes =~= bytes.drop_last() + seq![b]);
    }
}

proof fn lemma_unmarked_marked(text: Seq<char>)
    requires
        !text.contains(SPACE_MARK),
    ensures
        unmarked(marked(text)) == text,
{
    assert forall|i: int| 0 <= i < text.len() implies unmarked(marked(text))[i] == text[i] by {
        assert(text[i] != SPACE_MARK) by {
            if text[i] == SPACE_MARK {
                assert(text.contains(SPACE_MARK));
            }
        }
        assert(marked(text)[i + 1] == if text[i] == ' ' {
            SPACE_MARK
        } else {
            text[i]
        });
    }
    assert(marked(text)[0] == SPACE_MARK);
    assert(unmarked(marked(text)) =~= text);
}

impl Tokenizer {
    /// Merging regroups the symbols and leaves their text alone.
    pub proof fn merging_keeps_text(&self, symbols: Seq<Seq<char>>)
        ensures
            joined(self.merged(symbols)) == joined(symbols),
        decreases symbols.len(),
    {
        if exists|i: int| self.merges_next(symbols, i) {
            let i = choose|i: int| self.merges_next(symbols, i);
            lemma_merge_at_keeps_text(symbols, i);
            self.merging_keeps_text(merge_at(symbols, i));
        }
    }

    /// Once merging is over, no adjacent pair merges.
    pub proof fn merging_is_complete(&self, symbols: Seq<Seq<char>>, i: int)
        ensures
            !self.merges_next(self.merged(symbols), i),
        decreases symbols.len(),
    {
        if exists|i: int| self.merges_next(symbols, i) {
            let k = choose|k: int| self.merges_next(symbols, k);
            self.merging_is_complete(merge_at(symbols, k), i);
        }
    }

    /// A text that stands in the vocabulary under a token that is not silent.
    pub open spec fn is_plain(&self, s: Seq<char>) -> bool {
        self.ids().contains_key(s) && !self.is_silent(self.ids()[s])
    }

    /// A GPT-2 vocabulary without holes: every byte has a token, and so has
    /// every result of a merge.
    pub open spec fn is_complete(&self) -> bool {
        &&& forall|b: u8| #[trigger] self.is_plain(seq![char_of_byte(b)])
        &&& forall|l: Seq<char>, r: Seq<char>|
            (#[trigger] self.rank(l, r)) is Some ==> self.is_plain(l + r)
    }

    proof fn lemma_merged_symbols_are_plain(&self, symbols: Seq<Seq<char>>)
        requires
            self.spec_mode() == BpeMode::Gpt2,
            self.is_complete(),
            forall|j: int| 0 <= j < symbols.len() ==> self.is_plain(#[trigger] symbols[j]),
        ensures
            forall|j: int|
                0 <= j < self.merged(symbols).len() ==> self.is_plain(
                    #[trigger] self.merged(symbols)[j],
                ),
        decreases symbols.len(),
    {
        if exists|i: int| self.merges_next(symbols, i) {
            let i = choose|i: int| self.merges_next(symbols, i);
            let next = merge_at(symbols, i);
            assert(self.priority_at(symbols, i) is Some);
            assert(self.rank(symbols[i], symbols[i + 1]) is Some);
            assert forall|j: int| 0 <= j < next.len() implies self.is_plain(#[trigger] next[j]) by {
                if j < i {
                    assert(next[j] == symbols[j]);
                } else if j > i {
                    assert(next[j] == symbols[j + 1]);
                }
            }
            self.lemma_merged_symbols_are_plain(next);
            assert(self.merged(symbols) == self.merged(next));
        } else {
            assert(self.merged(symbols) == symbols);
        }
    }

    pub(crate) proof fn lemma_bytes_of_add(&self, a: Seq<u32>, b: Seq<u32>)
        ensures
            self.bytes_of(a + b) == self.bytes_of(a) + self.bytes_of(b),
        decreases b.len(),
    {
        if b.len() == 0 {
            assert(a + b =~= a);
            assert(self.bytes_of(a) + self.bytes_of(b) =~= self.bytes_of(a));
        } else {
            self.lemma_bytes_of_add(a, b.drop_last());
            assert((a + b).drop_last() =~= a + b.drop_last());
            assert((a + b).last() == b.last());
            assert(self.bytes_of(a + b) =~= self.bytes_of(a) + self.bytes_of(b));
        }
    }

    proof fn lemma_bytes_of_symbols(&self, symbols: Seq<Seq<char>>)
        requires
            self.wf(),
            self.spec_mode() == BpeMode::Gpt2,
            forall|j: int| 0 <= j < symbols.len() ==> self.is_plain(#[trigger] symbols[j]),
        ensures
            self.bytes_of(self.tokens_of_symbols(symbols)) == unspelled(joined(symbols)),
        decreases symbols.len(),
    {
        if symbols.len() == 0 {
            assert(unspelled(joined(symbols)) =~= Seq::<u8>::empty());
            assert(self.bytes_of(Seq::<u32>::empty()) =~= Seq::<u8>::empty());
        } else {
            let rest = symbols.drop_last();
            let s = symbols.last();
            assert forall|j: int| 0 <= j < rest.len() implies self.is_plain(#[trigger] rest[j]) by {
                assert(rest[j] == symbols[j]);
            }
            self.lemma_bytes_of_symbols(rest);
            assert(self.is_plain(symbols[symbols.len() - 1]));
            let id = self.ids()[s];
            assert(self.spec_vocab()[id as int] == s);
            let tokens = self.tokens_of_symbols(rest);
            assert(tokens.push(id).drop_last() =~= tokens);
            assert(self.bytes_of(tokens.push(id)) == self.bytes_of(tokens) + unspelled(s));
            lemma_unspelled_add(joined(rest), s);
        }
    }

    proof fn lemma_bytes_of_words(&self, words: Seq<Seq<char>>)
        requires
            self.wf(),
            self.spec_mode() == BpeMode::Gpt2,
            self.is_complete(),
        ensures
            self.bytes_of(self.tokens_of_words(words)) == encode_utf8(joined(words)),
        decreases words.len(),
    {
        if words.len() == 0 {
            assert(joined(words) =~= Seq::<char>::empty());
            assert(encode_utf8(joined(words)) =~= Seq::<u8>::empty());
            assert(self.bytes_of(Seq::<u32>::empty()) =~= Seq::<u8>::empty());
        } else {
            let rest = words.drop_last();
            let word = words.last();
            self.lemma_bytes_of_words(rest);
            let bytes = encode_utf8(word);
            let initial = spelled(bytes);
            assert forall|j: int| 0 <= j < initial.len() implies self.is_plain(
                #[trigger] initial[j],
            ) by {
                assert(initial[j] == seq![char_of_byte(bytes[j])]);
            }
            self.lemma_merged_symbols_are_plain(initial);
            let symbols = self.merged(initial);
            self.lemma_bytes_of_symbols(symbols);
            self.merging_keeps_text(initial);
            lemma_spelled_roundtrip(bytes);
            self.lemma_bytes_of_add(self.tokens_of_words(rest), self.tokens_of_symbols(symbols));
            lemma_encode_utf8_add(joined(rest), word);
        }
    }

    /// A GPT-2 tokenizer without holes in its vocabulary gives every text back:
    /// decoding what was encoded is the text itself.
    pub proof fn gpt2_roundtrips(&self, text: Seq<char>)
        requires
            self.wf(),
            self.spec_mode() == BpeMode::Gpt2,
            self.is_complete(),
        ensures
            self.decoded(self.encoded(text)) == text,
    {
        let words = words_of(self.spec_rule(), text);
        if text.len() > 0 {
            self.lemma_bytes_of_words(words);
            splitting_is_lossless(self.spec_rule(), text, classes_of(text), 0);
            assert(text.skip(0) =~= text);
        } else {
            assert(text =~= Seq::<char>::empty());
            assert(self.bytes_of(self.encoded(text)) =~= Seq::<u8>::empty());
            assert(encode_utf8(text) =~= Seq::<u8>::empty());
        }
        assert(self.bytes_of(self.encoded(text)) == encode_utf8(text));
        encode_utf8_valid_utf8(text);
        encode_utf8_decode_utf8(text);
    }

    /// A GPT-2 tokenizer gives every text back, behind a beginning-of-sequence
    /// token or not, where its vocabulary holds every byte and the result of
    /// every entry of its merge list.
    pub proof fn gpt2_merge_lists_roundtrip(
        &self,
        merges: Seq<Seq<char>>,
        text: Seq<char>,
        add_bos: bool,
    )
        requires
            self.wf(),
            self.spec_mode() == BpeMode::Gpt2,
            forall|l: Seq<char>, r: Seq<char>| #[trigger] self.rank(l, r) == rank_in(merges, l, r),
            forall|b: u8| #[trigger] self.is_plain(seq![char_of_byte(b)]),
            forall|k: int, l: Seq<char>, r: Seq<char>|
                0 <= k < merges.len() && #[trigger] is_merge_of(merges[k], l, r) ==> self.is_plain(
                    l + r,
                ),
        ensures
            self.decoded(
                (if add_bos {
                    seq![self.spec_bos()]
                } else {
                    Seq::empty()
                }) + self.encoded(text),
            ) == text,
    {
        assert forall|l: Seq<char>, r: Seq<char>|
            (#[trigger] self.rank(l, r)) is Some implies self.is_plain(l + r) by {
            let k = lemma_rank_has_entry(merges, l, r);
            assert(is_merge_of(merges[k], l, r));
        }
        self.gpt2_roundtrips(text);
        if add_bos {
            self.silent_tokens_leave_no_text(self.spec_bos(), self.encoded(text));
        } else {
            assert(Seq::<u32>::empty() + self.encoded(text) =~= self.encoded(text));
        }
    }

    /// The bytes that have a token, each on its own.
    pub open spec fn pieces_of_bytes(&self, bytes: Seq<u8>) -> Seq<Seq<u8>>
        decreases bytes.len(),
    {
        if bytes.len() == 0 {
            Seq::empty()
        } else {
            let rest = self.pieces_of_bytes(bytes.drop_last());
            if self.byte_ids()[bytes.last() as int] == NO_TOKEN {
                rest
            } else {
                rest.push(seq![bytes.last()])
            }
        }
    }

    /// What the symbols that a SentencePiece tokenizer starts from stand for:
    /// the bytes of a character, or one byte of a character that is no token.
    pub open spec fn initial_pieces(&self, text: Seq<char>) -> Seq<Seq<u8>>
        decreases text.len(),
    {
        if text.len() == 0 {
            Seq::empty()
        } else {
            let rest = self.initial_pieces(text.drop_last());
            let symbol = seq![text.last()];
            if self.ids().contains_key(symbol) {
                rest.push(encode_utf8(symbol))
            } else {
                rest + self.pieces_of_bytes(encode_utf8(symbol))
            }
        }
    }

    /// A character that has a token, or whose bytes all have one.
    pub open spec fn has_tokens_for(&self, c: char) -> bool {
        self.ids().contains_key(seq![c]) || forall|k: int|
            0 <= k < encode_utf8(seq![c]).len() ==> self.byte_ids()[#[trigger] encode_utf8(
                seq![c],
            )[k] as int] != NO_TOKEN
    }

    /// A SentencePiece vocabulary that can spell a text: each of its characters
    /// has a token or tokens for all its bytes, and a token that neighbouring
    /// symbols of the text spell together decodes to what they stand for.
    pub open spec fn can_spell(&self, text: Seq<char>) -> bool {
        let m = marked(text);
        &&& forall|i: int| 0 <= i < m.len() ==> self.has_tokens_for(#[trigger] m[i])
        &&& forall|i: int, j: int|
            0 <= i < j <= self.initial_symbols(m).len() && self.ids().contains_key(
                joined(#[trigger] self.initial_symbols(m).subrange(i, j)),
            ) ==> self.bytes_of_token(self.ids()[joined(self.initial_symbols(m).subrange(i, j))])
                == joined(self.initial_pieces(m).subrange(i, j))
    }

    proof fn lemma_pieces_of_bytes(&self, bytes: Seq<u8>)
        ensures
            self.pieces_of_bytes(bytes).len() == self.symbols_of_bytes(bytes).len(),
            (forall|k: int|
                0 <= k < bytes.len() ==> self.byte_ids()[#[trigger] bytes[k] as int] != NO_TOKEN)
                ==> joined(self.pieces_of_bytes(bytes)) == bytes,
        decreases bytes.len(),
    {
        if bytes.len() == 0 {
            assert(joined(self.pieces_of_bytes(bytes)) =~= bytes);
        } else {
            let rest = bytes.drop_last();
            self.lemma_pieces_of_bytes(rest);
            if forall|k: int|
                0 <= k < bytes.len() ==> self.byte_ids()[#[trigger] bytes[k] as int] != NO_TOKEN {
                assert forall|k: int| 0 <= k < rest.len() implies self.byte_ids()[#[trigger] rest[k] as int]
                    != NO_TOKEN by {
                    assert(rest[k] == bytes[k]);
                }
                assert(self.byte_ids()[bytes[bytes.len() - 1] as int] != NO_TOKEN);
                lemma_joined_push(self.pieces_of_bytes(rest), seq![bytes.last()]);
                assert(rest + seq![bytes.last()] =~= bytes);
            }
        }
    }

    proof fn lemma_initial_pieces(&self, text: Seq<char>)
        requires
            forall|i: int| 0 <= i < text.len() ==> self.has_tokens_for(#[trigger] text[i]),
        ensures
            self.initial_pieces(text).len() == self.initial_symbols(text).len(),
            joined(self.initial_pieces(text)) == encode_utf8(text),
        decreases text.len(),
    {
        if text.len() > 0 {
            let rest = text.drop_last();
            let symbol = seq![text.last()];
            assert forall|i: int| 0 <= i < rest.len() implies self.has_tokens_for(
                #[trigger] rest[i],
            ) by {
                assert(rest[i] == text[i]);
            }
            self.lemma_initial_pieces(rest);
            assert(self.has_tokens_for(text[text.len() - 1]));
            assert(rest + symbol =~= text);
            lemma_encode_utf8_add(rest, symbol);
            if self.ids().contains_key(symbol) {
                lemma_joined_push(self.initial_pieces(rest), encode_utf8(symbol));
            } else {
                self.lemma_pieces_of_bytes(encode_utf8(symbol));
                lemma_joined_add(
                    self.initial_pieces(rest),
                    self.pieces_of_bytes(encode_utf8(symbol)),
                );
            }
        } else {
            assert(encode_utf8(text) =~= Seq::<u8>::empty());
            assert(joined(self.initial_pieces(text)) =~= Seq::<u8>::empty());
        }
    }

    proof fn lemma_merged_groups(
        &self,
        symbols: Seq<Seq<char>>,
        initial: Seq<Seq<char>>,
        cuts: Seq<int>,
    ) -> (end: Seq<int>)
        requires
            is_grouping(symbols, initial, cuts),
        ensures
            is_grouping(self.merged(symbols), initial, end),
        decreases symbols.len(),
    {
        if exists|i: int| self.merges_next(symbols, i) {
            let i = choose|i: int| self.merges_next(symbols, i);
            lemma_merge_at_groups(symbols, initial, cuts, i);
            self.lemma_merged_groups(merge_at(symbols, i), initial, cuts.remove(i + 1))
        } else {
            cuts
        }
    }

    proof fn lemma_bytes_of_groups(
        &self,
        symbols: Seq<Seq<char>>,
        initial: Seq<Seq<char>>,
        pieces: Seq<Seq<u8>>,
        cuts: Seq<int>,
        k: int,
    )
        requires
            is_grouping(symbols, initial, cuts),
            pieces.len() == initial.len(),
            forall|j: int| 0 <= j < symbols.len() ==> self.ids().contains_key(#[trigger] symbols[j]),
            forall|i: int, j: int|
                0 <= i < j <= initial.len() && self.ids().contains_key(
                    joined(#[trigger] initial.subrange(i, j)),
                ) ==> self.bytes_of_token(self.ids()[joined(initial.subrange(i, j))]) == joined(
                    pieces.subrange(i, j),
                ),
            0 <= k <= symbols.len(),
        ensures
            self.bytes_of(self.ids_of(symbols.take(k))) == joined(pieces.take(cuts[k])),
        decreases k,
    {
        if k == 0 {
            assert(pieces.take(0) =~= Seq::<Seq<u8>>::empty());
            assert(self.ids_of(symbols.take(0)) =~= Seq::<u32>::empty());
            assert(self.bytes_of(Seq::<u32>::empty()) =~= Seq::<u8>::empty());
        } else {
            self.lemma_bytes_of_groups(symbols, initial, pieces, cuts, k - 1);
            let ids = self.ids_of(symbols.take(k));
            assert(ids.drop_last() =~= self.ids_of(symbols.take(k - 1)));
            assert(ids.last() == self.ids()[symbols[k - 1]]);
            assert(symbols[k - 1] == joined(initial.subrange(cuts[k - 1], cuts[k - 1 + 1])));
            assert(pieces.take(cuts[k]) =~= pieces.take(cuts[k - 1]) + pieces.subrange(
                cuts[k - 1],
                cuts[k],
            ));
            lemma_joined_add(pieces.take(cuts[k - 1]), pieces.subrange(cuts[k - 1], cuts[k]));
        }
    }

    /// A SentencePiece tokenizer gives back every text that its vocabulary can
    /// spell, by characters or by bytes, and that does not hold the space mark
    /// itself.
    pub proof fn sentencepiece_roundtrips(&self, text: Seq<char>)
        requires
            self.wf(),
            self.spec_mode() == BpeMode::SentencePiece,
            self.can_spell(text),
            !text.contains(SPACE_MARK),
        ensures
            self.decoded(self.encoded(text)) == text,
    {
        if text.len() > 0 {
            let m = marked(text);
            let initial = self.initial_symbols(m);
            let pieces = self.initial_pieces(m);
            let symbols = self.merged(initial);
            self.lemma_initial_pieces(m);
            self.lemma_initial_symbols_are_tokens(m);
            self.lemma_merged_symbols_are_tokens(initial);
            let start = Seq::new(initial.len() + 1, |i: int| i);
            assert forall|k: int| 0 <= k < initial.len() implies #[trigger] initial[k] == joined(
                initial.subrange(start[k], start[k + 1]),
            ) by {
                let one = initial.subrange(k, k + 1);
                assert(one =~= Seq::<Seq<char>>::empty().push(initial[k]));
                lemma_joined_push(Seq::<Seq<char>>::empty(), initial[k]);
                assert(Seq::<char>::empty() + initial[k] =~= initial[k]);
            }
            let cuts = self.lemma_merged_groups(initial, initial, start);
            self.lemma_bytes_of_groups(symbols, initial, pieces, cuts, symbols.len() as int);
            assert(symbols.take(symbols.len() as int) =~= symbols);
            assert(pieces.take(cuts[symbols.len() as int]) =~= pieces);
            encode_utf8_valid_utf8(m);
            encode_utf8_decode_utf8(m);
            lemma_unmarked_marked(text);
        } else {
            let none = Seq::<char>::empty();
            assert(self.bytes_of(self.encoded(text)) =~= Seq::<u8>::empty());
            assert(encode_utf8(none) =~= Seq::<u8>::empty());
            encode_utf8_valid_utf8(none);
            encode_utf8_decode_utf8(none);
            assert(unmarked(none) =~= text);
        }
    }

    proof fn lemma_bytes_of_prepend(&self, id: u32, tokens: Seq<u32>)
        requires
            self.is_silent(id),
        ensures
            self.bytes_of(seq![id] + tokens) == self.bytes_of(tokens),
    {
        self.lemma_bytes_of_add(seq![id], tokens);
        assert(seq![id].drop_last() =~= Seq::<u32>::empty());
        assert(seq![id].last() == id);
        assert(self.bytes_of(Seq::<u32>::empty()) =~= Seq::<u8>::empty());
        assert(self.bytes_of(seq![id]) =~= Seq::<u8>::empty());
        assert(self.bytes_of(seq![id]) + self.bytes_of(tokens) =~= self.bytes_of(tokens));
    }

    /// A sequence mark or control token in front leaves the decoded text alone.
    pub proof fn silent_tokens_leave_no_text(&self, id: u32, tokens: Seq<u32>)
        requires
            self.is_silent(id),
        ensures
            self.decoded(seq![id] + tokens) == self.decoded(tokens),
    {
        self.lemma_bytes_of_prepend(id, tokens);
    }

    proof fn lemma_byte_tokens_in_vocabulary(&self, bytes: Seq<u8>, k: int)
        requires
            self.wf(),
            0 <= k < self.tokens_of_bytes(bytes).len(),
        ensures
            self.tokens_of_bytes(bytes)[k] < self.spec_vocab().len(),
        decreases bytes.len(),
    {
        let rest = self.tokens_of_bytes(bytes.drop_last());
        if k < rest.len() {
            self.lemma_byte_tokens_in_vocabulary(bytes.drop_last(), k);
        } else {
            let b = bytes.last();
            assert(self.byte_ids()[b as int] == self.id_or_none(
                crate::tokenizer::byte_spelling(self.spec_mode(), b),
            ));
        }
    }

    proof fn lemma_symbol_tokens_in_vocabulary(&self, symbols: Seq<Seq<char>>, k: int)
        requires
            self.wf(),
            0 <= k < self.tokens_of_symbols(symbols).len(),
        ensures
            self.tokens_of_symbols(symbols)[k] < self.spec_vocab().len(),
        decreases symbols.len(),
    {
        let rest = self.tokens_of_symbols(symbols.drop_last());
        if k < rest.len() {
            self.lemma_symbol_tokens_in_vocabulary(symbols.drop_last(), k);
        } else if !self.ids().contains_key(symbols.last()) {
            self.lemma_byte_tokens_in_vocabulary(encode_utf8(symbols.last()), k - rest.len());
        }
    }

    proof fn lemma_word_tokens_in_vocabulary(&self, words: Seq<Seq<char>>, k: int)
        requires
            self.wf(),
            0 <= k < self.tokens_of_words(words).len(),
        ensures
            self.tokens_of_words(words)[k] < self.spec_vocab().len(),
        decreases words.len(),
    {
        let rest = self.tokens_of_words(words.drop_last());
        if k < rest.len() {
            self.lemma_word_tokens_in_vocabulary(words.drop_last(), k);
        } else {
            self.lemma_symbol_tokens_in_vocabulary(
                self.merged(spelled(encode_utf8(words.last()))),
                k - rest.len(),
            );
        }
    }

    /// Encoding a text only gives tokens of the vocabulary.
    pub proof fn encoded_tokens_are_in_vocabulary(&self, text: Seq<char>, k: int)
        requires
            self.wf(),
            0 <= k < self.encoded(text).len(),
        ensures
            self.encoded(text)[k] < self.spec_vocab().len(),
    {
        match self.spec_mode() {
            BpeMode::SentencePiece => {
                let initial = self.initial_symbols(marked(text));
                self.lemma_initial_symbols_are_tokens(marked(text));
                self.lemma_merged_symbols_are_tokens(initial);
                assert(self.ids().contains_key(self.merged(initial)[k]));
            },
            BpeMode::Gpt2 => {
                self.lemma_word_tokens_in_vocabulary(words_of(self.spec_rule(), text), k);
            },
        }
    }
}

} // verus!
