//! From tokens back to text.

use crate::text::{chars_of, string_from_utf8_lossy, string_of};
use crate::tokenizer::{BpeMode, TokenType, Tokenizer, SPACE_MARK, unmarked, unspelled};
use crate::tokenizer::bytes::{gpt2_char_to_byte, parse_byte_token};
use vstd::prelude::*;
use vstd::utf8::*;

verus! {

impl Tokenizer {
    fn token_is_silent(&self, id: u32) -> (r: bool)
        requires
            self.is_decodable(id),
        ensures
            r == self.is_silent(id),
            !r ==> id < self.spec_vocab().len() && id < self.spec_types().len(),
    {
        if id == self.bos_token_id || id == self.eos_token_id {
            return true;
        }
        match self.token_types[id as usize] {
            TokenType::Control => true,
            _ => false,
        }
    }

    /// The bytes that tokens stand for.
    pub fn token_bytes(&self, tokens: &[u32]) -> (bytes: Vec<u8>)
        requires
            forall|i: int| 0 <= i < tokens@.len() ==> self.is_decodable(#[trigger] tokens@[i]),
        ensures
            bytes@ == self.bytes_of(tokens@),
    {
        let mut bytes: Vec<u8> = Vec::new();
        let mut i: usize = 0;
        assert(tokens@.take(0) =~= Seq::<u32>::empty());
        while i < tokens.len()
            invariant
                forall|i: int| 0 <= i < tokens@.len() ==> self.is_decodable(#[trigger] tokens@[i]),
                i <= tokens@.len(),
                bytes@ == self.bytes_of(tokens@.take(i as int)),
            decreases tokens@.len() - i,
        {
            let id: u32 = tokens[i];
            let ghost before = bytes@;
            proof {
                assert(tokens@.take(i + 1).drop_last() =~= tokens@.take(i as int));
                assert(tokens@.take(i + 1).last() == id);
            }
            if !self.token_is_silent(id) {
                self.push_token_bytes(id, &mut bytes);
            }
            assert(bytes@ =~= before + self.bytes_of_token(id));
            i += 1;
        }
        assert(tokens@.take(tokens@.len() as int) =~= tokens@);
        bytes
    }

    /// Append the bytes of a token that is not silent.
    fn push_token_bytes(&self, id: u32, bytes: &mut Vec<u8>)
        requires
            id < self.spec_vocab().len(),
            id < self.spec_types().len(),
            !self.is_silent(id),
        ensures
            final(bytes)@ == old(bytes)@ + self.bytes_of_token(id),
    {
        let ghost before = bytes@;
        let token: &str = self.vocab[id as usize].as_str();
        match self.mode {
            BpeMode::SentencePiece => match self.token_types[id as usize] {
                TokenType::Byte => {
                    if let Some(b) = parse_byte_token(token) {
                        bytes.push(b);
                    }
                },
                _ => {
                    let mut more: Vec<u8> = vstd::slice::slice_to_vec(token.as_bytes());
                    bytes.append(&mut more);
                },
            },
            BpeMode::Gpt2 => {
                let chars: Vec<char> = chars_of(token);
                let mut k: usize = 0;
                while k < chars.len()
                    invariant
                        k <= chars@.len(),
                        bytes@ == before + unspelled(chars@).take(k as int),
                    decreases chars@.len() - k,
                {
                    bytes.push(gpt2_char_to_byte(chars[k]));
                    k += 1;
                }
                assert(unspelled(chars@).take(chars@.len() as int) =~= unspelled(chars@));
            },
        }
        assert(bytes@ =~= before + self.bytes_of_token(id));
    }

    /// Decode tokens to text. Sequence marks and control tokens leave nothing
    /// behind.
    pub fn decode(&self, tokens: &[u32]) -> (text: String)
        requires
            forall|i: int| 0 <= i < tokens@.len() ==> self.is_decodable(#[trigger] tokens@[i]),
        ensures
            text@ == self.decoded(tokens@),
    {
        let bytes: Vec<u8> = self.token_bytes(tokens);
        let text: String = string_from_utf8_lossy(bytes.as_slice());
        match self.mode {
            BpeMode::SentencePiece => without_marks(text.as_str()),
            BpeMode::Gpt2 => text,
        }
    }
}

/// A text with marks turned back into spaces and one leading space dropped.
fn without_marks(marked_text: &str) -> (text: String)
    ensures
        text@ == unmarked(marked_text@),
{
    let chars: Vec<char> = chars_of(marked_text);
    let mut spaced: Vec<char> = Vec::new();
    let mut k: usize = 0;
    while k < chars.len()
        invariant
            chars@ == marked_text@,
            k <= chars@.len(),
            spaced@.len() == k,
            forall|j: int|
                0 <= j < k ==> #[trigger] spaced@[j] == if chars@[j] == SPACE_MARK {
                    ' '
                } else {
                    chars@[j]
                },
        decreases chars@.len() - k,
    {
        let c: char = chars[k];
        spaced.push(if c == SPACE_MARK { ' ' } else { c });
        k += 1;
    }
    let start: usize = if spaced.len() > 0 && spaced[0] == ' ' { 1 } else { 0 };
    let text: String = string_of(
        vstd::slice::slice_subrange(spaced.as_slice(), start, spaced.len()),
    );
    assert(text@ =~= unmarked(marked_text@));
    text
}

} // verus!
