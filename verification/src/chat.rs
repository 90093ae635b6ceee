//! The rules of a chat session: what a line of input asks for, how it is
//! handed to the model, and when a reply ends.

use crate::text::{
    chars_of, concatenated, contains_text, lowered_text, same_text, string_of, text_contains, trim,
    trimmed,
};
use vstd::prelude::*;
use vstd::string::*;
use vstd::utf8::*;

verus! {

/// What a line of input asks for.
#[derive(Debug)]
pub enum Command {
    /// Nothing: the line is blank.
    Skip,
    /// Forget the conversation.
    Clear,
    /// End the session.
    Quit,
    /// Report how full the cache is.
    Info,
    /// Answer this.
    Prompt(String),
}

/// `command` is what a line asks for, white space around it left out.
pub open spec fn is_command(line: Seq<char>, command: Command) -> bool {
    let text = trimmed(line);
    if text.len() == 0 {
        command is Skip
    } else if text == "/clear"@ || text == "/reset"@ {
        command is Clear
    } else if text == "/quit"@ || text == "/exit"@ {
        command is Quit
    } else if text == "/info"@ {
        command is Info
    } else {
        command matches Command::Prompt(prompt) && prompt@ == text
    }
}

/// Work out what a line of input asks for.
pub fn parse_line(line: &str) -> (command: Command)
    ensures
        is_command(line@, command),
{
    let text: String = string_of(trim(chars_of(line).as_slice()).as_slice());
    if same_text(text.as_str(), "") {
        proof {
            reveal_strlit("");
        }
        Command::Skip
    } else if same_text(text.as_str(), "/clear") || same_text(text.as_str(), "/reset") {
        proof {
            reveal_strlit("/clear");
            reveal_strlit("/reset");
        }
        Command::Clear
    } else if same_text(text.as_str(), "/quit") || same_text(text.as_str(), "/exit") {
        proof {
            reveal_strlit("/quit");
            reveal_strlit("/exit");
        }
        Command::Quit
    } else if same_text(text.as_str(), "/info") {
        proof {
            reveal_strlit("/info");
        }
        Command::Info
    } else {
        proof {
            reveal_strlit("");
            if text@.len() == 0 {
                assert(text@ =~= ""@);
            }
        }
        Command::Prompt(text)
    }
}

/// What the standard library makes of a text in lower case.
pub uninterp spec fn text_lowercase(s: Seq<char>) -> Seq<char>;

/// A text in lower case.
///
/// Trusted: calls `str::to_lowercase`, of which this claims that it is a
/// function of the text and that it lowers the letters of a text in ASCII; what
/// it makes of other characters is left to the Unicode tables.
#[verifier::external_body]
fn lowercase(s: &str) -> (r: String)
    ensures
        r@ == text_lowercase(s@),
        is_ascii_chars(s@) ==> r@ == lowered_text(s@),
{
    s.to_lowercase()
}

/// A text in lower case: a text in ASCII with its letters lowered, any other as
/// the standard library lowers it.
pub open spec fn in_lower_case(s: Seq<char>) -> Seq<char> {
    if is_ascii_chars(s) {
        lowered_text(s)
    } else {
        text_lowercase(s)
    }
}

/// Whether a lower-case model name is that of a model tuned for conversation.
pub open spec fn names_instruct_model(name: Seq<char>) -> bool {
    contains_text(name, "instruct"@) || contains_text(name, "chat"@)
}

/// Whether a lower-case model name is that of a model tuned for conversation.
pub fn is_instruct_name(name: &str) -> (r: bool)
    ensures
        r == names_instruct_model(name@),
{
    text_contains(name, "instruct") || text_contains(name, "chat")
}

/// Whether a model is tuned for conversation, judging by its name. A model
/// without a name is not.
pub fn is_instruct(model_name: Option<&str>) -> (r: bool)
    ensures
        r == match model_name {
            Some(name) => names_instruct_model(in_lower_case(name@)),
            None => false,
        },
{
    match model_name {
        Some(name) => is_instruct_name(lowercase(name).as_str()),
        None => false,
    }
}

/// A prompt as the model is to see it.
pub open spec fn formatted(prompt: Seq<char>, instruct: bool) -> Seq<char> {
    if instruct {
        "<|user|>\n"@ + prompt + "\n<|assistant|>\n"@
    } else {
        prompt
    }
}

/// Wrap a prompt in the roles of a conversation, if the model is tuned for it.
pub fn format_prompt(prompt: &str, instruct: bool) -> (s: String)
    ensures
        s@ == formatted(prompt@, instruct),
{
    if instruct {
        let s: String = concatenated("<|user|>\n", prompt);
        concatenated(s.as_str(), "\n<|assistant|>\n")
    } else {
        String::from_str(prompt)
    }
}

/// Whether a prompt and its reply fit into the context.
#[derive(Debug, Clone, Copy, PartialEq, Eq, Structural)]
pub enum Room {
    /// The longest reply fits.
    Ample,
    /// The prompt fits, the longest reply may not.
    Tight,
    /// The prompt does not fit, or nothing after it.
    Full,
}

/// The room that is left, given the tokens so far, those of the prompt, the
/// longest reply and the length of the context.
pub open spec fn room_for(total: int, n_input: int, max_tokens: int, max_seq_len: int) -> Room {
    if total + n_input + max_tokens <= max_seq_len {
        Room::Ample
    } else if total + n_input < max_seq_len {
        Room::Tight
    } else {
        Room::Full
    }
}

/// A conversation: how many tokens it has, and its limits.
pub struct Chat {
    total: usize,
    max_tokens: usize,
    max_seq_len: usize,
}

impl Chat {
    /// Tokens in the context.
    pub closed spec fn spec_total(&self) -> usize {
        self.total
    }

    /// Length of the longest reply.
    pub closed spec fn spec_max_tokens(&self) -> usize {
        self.max_tokens
    }

    /// Length of the context.
    pub closed spec fn spec_max_seq_len(&self) -> usize {
        self.max_seq_len
    }

    /// The conversation does not outgrow the context.
    pub open spec fn wf(&self) -> bool {
        self.spec_total() <= self.spec_max_seq_len()
    }

    /// Two conversations have the same limits.
    pub open spec fn same_limits(&self, other: &Chat) -> bool {
        &&& self.spec_max_tokens() == other.spec_max_tokens()
        &&& self.spec_max_seq_len() == other.spec_max_seq_len()
    }

    /// An empty conversation.
    pub fn new(max_tokens: usize, max_seq_len: usize) -> (c: Self)
        ensures
            c.wf(),
            c.spec_total() == 0,
            c.spec_max_tokens() == max_tokens,
            c.spec_max_seq_len() == max_seq_len,
    {
        Chat { total: 0, max_tokens, max_seq_len }
    }

    /// Tokens in the context.
    pub fn total_tokens(&self) -> (n: usize)
        ensures
            n == self.spec_total(),
    {
        self.total
    }

    /// Forget the conversation.
    pub fn clear(&mut self)
        ensures
            final(self).wf(),
            final(self).spec_total() == 0,
            final(self).same_limits(old(self)),
    {
        self.total = 0;
    }

    /// Whether the next prompt starts the conversation, and so starts with the
    /// beginning-of-text token.
    pub fn starts(&self) -> (r: bool)
        ensures
            r == (self.spec_total() == 0),
    {
        self.total == 0
    }

    /// Take in a prompt of `n_input` tokens, unless the context is full.
    pub fn take_prompt(&mut self, n_input: usize) -> (room: Room)
        requires
            old(self).wf(),
        ensures
            final(self).wf(),
            final(self).same_limits(old(self)),
            room == room_for(
                old(self).spec_total() as int,
                n_input as int,
                old(self).spec_max_tokens() as int,
                old(self).spec_max_seq_len() as int,
            ),
            final(self).spec_total() == if room == Room::Full {
                old(self).spec_total() as int
            } else {
                old(self).spec_total() + n_input
            },
    {
        let rest: usize = self.max_seq_len - self.total;
        if n_input <= rest && self.max_tokens <= rest - n_input {
            self.total += n_input;
            Room::Ample
        } else if n_input < rest {
            self.total += n_input;
            Room::Tight
        } else {
            Room::Full
        }
    }
}

/// How many bytes of a reply are searched for markers.
pub const RECENT_BYTES: usize = 50;

/// The last `n` bytes.
pub open spec fn last_bytes(bytes: Seq<u8>, n: nat) -> Seq<u8> {
    if bytes.len() > n {
        bytes.skip(bytes.len() - n)
    } else {
        bytes
    }
}

/// Whether `part` stands in `bytes` from position `i` on.
pub open spec fn bytes_at(bytes: Seq<u8>, part: Seq<u8>, i: int) -> bool {
    0 <= i && i + part.len() <= bytes.len() && bytes.subrange(i, i + part.len()) == part
}

/// Whether `part` stands anywhere in `bytes`.
pub open spec fn contains_bytes(bytes: Seq<u8>, part: Seq<u8>) -> bool {
    exists|i: int| bytes_at(bytes, part, i)
}

/// Whether bytes contain a marker of a role, where the model goes on to
/// another turn, or of the end of the text.
pub open spec fn has_marker(bytes: Seq<u8>) -> bool {
    ||| contains_bytes(bytes, encode_utf8("<|user|>"@))
    ||| contains_bytes(bytes, encode_utf8("<|assistant|>"@))
    ||| contains_bytes(bytes, encode_utf8("<|system|>"@))
    ||| contains_bytes(bytes, encode_utf8("<|endoftext|>"@))
}

fn find_bytes(bytes: &[u8], part: &[u8]) -> (r: bool)
    ensures
        r == contains_bytes(bytes@, part@),
{
    let n: usize = bytes.len();
    let m: usize = part.len();
    if m > n {
        return false;
    }
    let mut i: usize = 0;
    while i <= n - m
        invariant
            n == bytes@.len(),
            m == part@.len(),
            m <= n,
            i <= n - m + 1,
            forall|k: int| 0 <= k < i ==> !bytes_at(bytes@, part@, k),
        decreases n + 1 - i,
    {
        let mut j: usize = 0;
        while j < m && bytes[i + j] == part[j]
            invariant
                n == bytes@.len(),
                m == part@.len(),
                i + m <= n,
                j <= m,
                forall|k: int| 0 <= k < j ==> bytes@[i + k] == #[trigger] part@[k],
            decreases m - j,
        {
            j += 1;
        }
        if j == m {
            assert(bytes@.subrange(i as int, i + m) =~= part@);
            assert(bytes_at(bytes@, part@, i as int));
            return true;
        }
        assert(bytes@.subrange(i as int, i + m)[j as int] != part@[j as int]);
        if i == n - m {
            assert forall|k: int| !bytes_at(bytes@, part@, k) by {}
            return false;
        }
        i += 1;
    }
    false
}

fn find_marker(bytes: &[u8]) -> (r: bool)
    ensures
        r == has_marker(bytes@),
{
    find_bytes(bytes, "<|user|>".as_bytes()) || find_bytes(bytes, "<|assistant|>".as_bytes())
        || find_bytes(bytes, "<|system|>".as_bytes()) || find_bytes(
        bytes,
        "<|endoftext|>".as_bytes(),
    )
}

/// A reply under way.
pub struct Reply {
    generated: usize,
    recent: Vec<u8>,
}

impl Reply {
    /// Tokens of the reply so far.
    pub closed spec fn spec_generated(&self) -> usize {
        self.generated
    }

    /// The end of the reply so far.
    pub closed spec fn spec_recent(&self) -> Seq<u8> {
        self.recent@
    }

    /// The reply is no longer than a conversation allows.
    pub open spec fn fits(&self, chat: &Chat) -> bool {
        self.spec_generated() <= chat.spec_max_tokens()
    }

    /// An empty reply.
    pub fn new() -> (r: Self)
        ensures
            r.spec_generated() == 0,
            r.spec_recent() == Seq::<u8>::empty(),
    {
        Reply { generated: 0, recent: Vec::new() }
    }

    /// Tokens of the reply so far.
    pub fn generated(&self) -> (n: usize)
        ensures
            n == self.spec_generated(),
    {
        self.generated
    }

    /// Whether the reply may go on with a token.
    pub open spec fn goes_on(&self, chat: &Chat, next: u32, eos: u32) -> bool {
        &&& self.spec_generated() < chat.spec_max_tokens()
        &&& next != eos
        &&& chat.spec_total() < chat.spec_max_seq_len()
    }

    /// Whether the reply may go on with a token: it is not too long yet, the
    /// token does not end the text, and the context has room.
    pub fn may_go_on(&self, chat: &Chat, next: u32, eos: u32) -> (r: bool)
        ensures
            r == self.goes_on(chat, next, eos),
    {
        self.generated < chat.max_tokens && next != eos && chat.total < chat.max_seq_len
    }

    /// Take in the text of the next token. The token counts, and its text is
    /// to be shown, unless a marker has come up.
    pub fn take_text(&mut self, chat: &mut Chat, text: &str) -> (shown: bool)
        requires
            old(chat).wf(),
            old(self).spec_generated() < old(chat).spec_max_tokens(),
            old(chat).spec_total() < old(chat).spec_max_seq_len(),
        ensures
            final(chat).wf(),
            final(chat).same_limits(old(chat)),
            final(self).fits(final(chat)),
            final(self).spec_recent() == last_bytes(
                old(self).spec_recent() + encode_utf8(text@),
                RECENT_BYTES as nat,
            ),
            shown == !has_marker(final(self).spec_recent()),
            shown ==> final(self).spec_generated() == old(self).spec_generated() + 1
                && final(chat).spec_total() == old(chat).spec_total() + 1,
            !shown ==> final(self).spec_generated() == old(self).spec_generated()
                && final(chat).spec_total() == old(chat).spec_total(),
    {
        let bytes: &[u8] = text.as_bytes();
        let mut all: Vec<u8> = Vec::new();
        all.extend_from_slice(self.recent.as_slice());
        all.extend_from_slice(bytes);
        assert(all@ =~= old(self).spec_recent() + encode_utf8(text@));
        let n: usize = all.len();
        let start: usize = if n > RECENT_BYTES {
            n - RECENT_BYTES
        } else {
            0
        };
        let recent: Vec<u8> = vstd::slice::slice_to_vec(
            vstd::slice::slice_subrange(all.as_slice(), start, n),
        );
        assert(recent@ =~= last_bytes(all@, 50));
        self.recent = recent;
        if find_marker(self.recent.as_slice()) {
            return false;
        }
        chat.total += 1;
        self.generated += 1;
        true
    }
}

} // verus!
