//! Decoding tokens as they arrive.

use crate::text::read_utf8;
use crate::tokenizer::{BpeMode, Tokenizer};
use vstd::prelude::*;
use vstd::utf8::*;

verus! {

/// How many bytes a character takes that starts with a byte, one where no
/// longer character does.
pub open spec fn width_from(lead: u8) -> int {
    if is_leading_byte_width_2(lead) {
        2
    } else if is_leading_byte_width_3(lead) {
        3
    } else if is_leading_byte_width_4(lead) {
        4
    } else {
        1
    }
}

/// The last `k` bytes start a character that takes more than these.
pub open spec fn lacks_bytes(bytes: Seq<u8>, k: int) -> bool {
    &&& 0 < k <= bytes.len()
    &&& k < width_from(bytes[bytes.len() - k])
    &&& forall|j: int|
        bytes.len() - k < j < bytes.len() ==> is_continuation_byte(#[trigger] bytes[j])
}

/// Bytes that end in the middle of a character.
pub open spec fn is_unfinished(bytes: Seq<u8>) -> bool {
    exists|k: int| lacks_bytes(bytes, k)
}

/// Whether bytes end in the middle of a character.
fn ends_unfinished(bytes: &[u8]) -> (r: bool)
    ensures
        r == is_unfinished(bytes@),
{
    let n: usize = bytes.len();
    let mut k: usize = 1;
    while k <= 3 && k <= n
        invariant
            n == bytes@.len(),
            1 <= k <= 4,
            k <= n + 1,
            forall|j: int| n - k < j < n ==> is_continuation_byte(#[trigger] bytes@[j]),
            forall|i: int| 0 < i < k ==> !lacks_bytes(bytes@, i),
        decreases 4 - k,
    {
        let b: u8 = bytes[n - k];
        let width: usize = if 0xc0 <= b && b <= 0xdf {
            2
        } else if 0xe0 <= b && b <= 0xef {
            3
        } else if 0xf0 <= b && b <= 0xf7 {
            4
        } else {
            1
        };
        if k < width {
            assert(lacks_bytes(bytes@, k as int));
            return true;
        }
        if !(0x80 <= b && b <= 0xbf) {
            assert forall|i: int| !lacks_bytes(bytes@, i) by {
                if k < i && lacks_bytes(bytes@, i) {
                    assert(is_continuation_byte(bytes@[n - k]));
                }
            }
            return false;
        }
        k += 1;
    }
    assert forall|i: int| !lacks_bytes(bytes@, i) by {}
    false
}

/// Where bytes that form a text are cut between characters, the two parts are
/// texts of their own.
pub proof fn finished_parts_read_alone(a: Seq<u8>, b: Seq<u8>)
    requires
        valid_utf8(a + b),
        !is_unfinished(a),
    ensures
        valid_utf8(a),
        valid_utf8(b),
        read_utf8(a + b) == read_utf8(a) + read_utf8(b),
    decreases a.len(),
{
    if a.len() == 0 {
        assert(a + b =~= b);
        assert(read_utf8(a) + read_utf8(b) =~= read_utf8(b));
    } else {
        let all = a + b;
        let w = length_of_first_scalar(all);
        if a.len() < w {
            assert(all[0] == a[0]);
            assert(lacks_bytes(a, a.len() as int)) by {
                assert forall|j: int| 0 < j < a.len() implies is_continuation_byte(
                    #[trigger] a[j],
                ) by {
                    assert(a[j] == all[j]);
                }
            }
        } else {
            let rest = a.skip(w);
            assert(pop_first_scalar(all) =~= rest + b);
            assert forall|k: int| !lacks_bytes(rest, k) by {
                if lacks_bytes(rest, k) {
                    assert forall|j: int| a.len() - k < j < a.len() implies is_continuation_byte(
                        #[trigger] a[j],
                    ) by {
                        assert(a[j] == rest[j - w]);
                    }
                    assert(lacks_bytes(a, k));
                }
            }
            finished_parts_read_alone(rest, b);
            assert(pop_first_scalar(a) =~= rest);
            assert(decode_first_scalar(a) == decode_first_scalar(all));
            assert(read_utf8(all) =~= read_utf8(a) + read_utf8(b));
        }
    }
}

/// Decodes tokens one at a time. A token that ends inside a character is held
/// back until the character is complete.
#[derive(Debug)]
pub struct TokenStream {
    pending: Vec<u32>,
}

impl TokenStream {
    /// The tokens that are held back.
    pub closed spec fn held(&self) -> Seq<u32> {
        self.pending@
    }

    /// What is held back are tokens that a tokenizer can decode.
    pub open spec fn fits(&self, tokenizer: &Tokenizer) -> bool {
        forall|i: int|
            0 <= i < self.held().len() ==> tokenizer.is_decodable(#[trigger] self.held()[i])
    }

    /// A stream that holds nothing back.
    pub fn new() -> (s: TokenStream)
        ensures
            s.held() == Seq::<u32>::empty(),
            forall|tokenizer: &Tokenizer| #[trigger] s.fits(tokenizer),
    {
        let s = TokenStream { pending: Vec::new() };
        assert(s.held() =~= Seq::<u32>::empty());
        s
    }

    /// Take a token and give the text that is complete with it.
    pub fn push(&mut self, tokenizer: &Tokenizer, id: u32) -> (text: String)
        requires
            old(self).fits(tokenizer),
            tokenizer.is_decodable(id),
        ensures
            final(self).fits(tokenizer),
            ({
                let group = old(self).held().push(id);
                if is_unfinished(tokenizer.bytes_of(group)) {
                    text@ == Seq::<char>::empty() && final(self).held() == group
                } else {
                    text@ == tokenizer.decoded(group) && final(self).held() == Seq::<u32>::empty()
                }
            }),
    {
        self.pending.push(id);
        let ghost group = old(self).held().push(id);
        proof {
            assert(self.held() =~= group);
            assert forall|i: int| 0 <= i < self.pending@.len() implies tokenizer.is_decodable(
                #[trigger] self.pending@[i],
            ) by {
                if i < old(self).held().len() {
                    assert(tokenizer.is_decodable(old(self).held()[i]));
                }
            }
            assert(self.fits(tokenizer));
        }
        let bytes: Vec<u8> = tokenizer.token_bytes(self.pending.as_slice());
        if ends_unfinished(bytes.as_slice()) {
            String::new()
        } else {
            self.finish(tokenizer)
        }
    }

    /// Give the text of what was held back, complete or not.
    pub fn finish(&mut self, tokenizer: &Tokenizer) -> (text: String)
        requires
            old(self).fits(tokenizer),
        ensures
            text@ == tokenizer.decoded(old(self).held()),
            final(self).held() == Seq::<u32>::empty(),
            final(self).fits(tokenizer),
    {
        proof {
            assert forall|i: int| 0 <= i < self.pending@.len() implies tokenizer.is_decodable(
                #[trigger] self.pending@[i],
            ) by {
                assert(tokenizer.is_decodable(self.held()[i]));
            }
        }
        let text: String = tokenizer.decode(self.pending.as_slice());
        self.pending.clear();
        text
    }
}

impl Tokenizer {
    /// Tokens of a text, cut where no character is cut, decode to the two parts
    /// of the text in a GPT-2 tokenizer: what a stream gives, piece by piece, is
    /// the decoded text.
    pub proof fn streaming_keeps_text(&self, sent: Seq<u32>, group: Seq<u32>)
        requires
            self.spec_mode() == BpeMode::Gpt2,
            valid_utf8(self.bytes_of(sent + group)),
            !is_unfinished(self.bytes_of(sent)),
        ensures
            self.decoded(sent + group) == self.decoded(sent) + self.decoded(group),
    {
        self.lemma_bytes_of_add(sent, group);
        finished_parts_read_alone(self.bytes_of(sent), self.bytes_of(group));
    }
}

} // verus!
