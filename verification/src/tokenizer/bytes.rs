//! How tokens spell bytes.
//!
//! Two spellings exist. SentencePiece vocabularies spell a byte as `<0xHH>`.
//! GPT-2 vocabularies spell it as one visible character: printable bytes stand
//! for themselves, the others take the characters from U+0100 on, in order.

use crate::text::chars_of;
use vstd::prelude::*;

verus! {

/// The bytes that stand for themselves in GPT-2 vocabularies.
pub open spec fn is_direct(b: int) -> bool {
    33 <= b <= 126 || 161 <= b <= 172 || 174 <= b <= 255
}

/// The place of a byte among those that do not stand for themselves: 0 to 32,
/// 127 to 160, and 173.
pub open spec fn gap_rank(b: int) -> int {
    if b <= 32 {
        b
    } else if b <= 160 {
        b - 94
    } else {
        67
    }
}

/// The character that stands for a byte.
pub open spec fn char_of_byte(b: u8) -> char {
    if is_direct(b as int) {
        b as char
    } else {
        (256 + gap_rank(b as int)) as char
    }
}

/// The byte that a character stands for; `?` where it stands for none.
pub open spec fn byte_of_char(c: char) -> u8 {
    let code = c as int;
    if is_direct(code) {
        code as u8
    } else if 256 <= code <= 288 {
        (code - 256) as u8
    } else if 289 <= code <= 322 {
        (code - 162) as u8
    } else if code == 323 {
        173
    } else {
        63
    }
}

/// How many bytes below `b` do not stand for themselves.
pub open spec fn gaps_below(b: int) -> int
    decreases b,
{
    if b <= 0 {
        0
    } else {
        gaps_below(b - 1) + if is_direct(b - 1) {
            0int
        } else {
            1
        }
    }
}

proof fn lemma_gaps_below(b: int)
    requires
        0 <= b <= 173,
    ensures
        gaps_below(b) == if b <= 33 {
            b
        } else if b <= 127 {
            33
        } else if b <= 161 {
            b - 94
        } else {
            67
        },
    decreases b,
{
    if b > 0 {
        lemma_gaps_below(b - 1);
    }
}

/// The bytes that do not stand for themselves take the characters from U+0100
/// on, one after the other.
pub proof fn gaps_fill_in_order(b: u8)
    requires
        !is_direct(b as int),
    ensures
        char_of_byte(b) as int == 256 + gaps_below(b as int),
{
    lemma_gaps_below(b as int);
}

/// Spelling a byte and reading the character back gives the byte.
pub proof fn spelling_a_byte_roundtrips(b: u8)
    ensures
        byte_of_char(char_of_byte(b)) == b,
{
}

/// Different bytes have different characters, and printable ASCII bytes have
/// their own; the space has one above U+00FF.
pub proof fn byte_characters_are_distinct(a: u8, b: u8)
    ensures
        char_of_byte(a) == char_of_byte(b) ==> a == b,
        33 <= a <= 126 ==> char_of_byte(a) == a as char,
        a == 32 ==> char_of_byte(a) as int >= 256,
{
}

/// The GPT-2 character of a byte.
pub fn gpt2_byte_to_char(b: u8) -> (c: char)
    ensures
        c == char_of_byte(b),
{
    let code: u32 = b as u32;
    if (33 <= code && code <= 126) || (161 <= code && code <= 172) || 174 <= code {
        b as char
    } else {
        let rank: u32 = if code <= 32 {
            code
        } else if code <= 160 {
            code - 94
        } else {
            67
        };
        match char::from_u32(256 + rank) {
            Some(c) => c,
            None => '?',
        }
    }
}

/// The byte that a GPT-2 character stands for.
pub fn gpt2_char_to_byte(c: char) -> (b: u8)
    ensures
        b == byte_of_char(c),
{
    let code: u32 = c as u32;
    if (33 <= code && code <= 126) || (161 <= code && code <= 172) || (174 <= code && code <= 255) {
        return code as u8;
    }
    if 256 <= code && code <= 288 {
        (code - 256) as u8
    } else if 289 <= code && code <= 322 {
        (code - 162) as u8
    } else if code == 323 {
        173
    } else {
        63
    }
}

/// The value of a hexadecimal digit.
pub open spec fn hex_value(c: char) -> Option<int> {
    if '0' <= c <= '9' {
        Some(c as int - '0' as int)
    } else if 'A' <= c <= 'F' {
        Some(c as int - 'A' as int + 10)
    } else if 'a' <= c <= 'f' {
        Some(c as int - 'a' as int + 10)
    } else {
        None
    }
}

/// The upper-case hexadecimal digit of a value below 16.
pub open spec fn hex_digit(v: int) -> char {
    if v < 10 {
        ('0' as int + v) as char
    } else {
        ('A' as int + v - 10) as char
    }
}

/// The spelling `<0xHH>` of a byte.
pub open spec fn byte_token(b: u8) -> Seq<char> {
    seq!['<', '0', 'x', hex_digit(b as int / 16), hex_digit(b as int % 16), '>']
}

/// The byte that a token of the form `<0xHH>` spells. A plus sign may stand in
/// place of the first digit.
pub open spec fn spelled_byte(s: Seq<char>) -> Option<u8> {
    if s.len() == 6 && s[0] == '<' && s[1] == '0' && s[2] == 'x' && s[5] == '>' {
        match (hex_value(s[3]), hex_value(s[4])) {
            (Some(hi), Some(lo)) => Some((16 * hi + lo) as u8),
            (None, Some(lo)) => if s[3] == '+' {
                Some(lo as u8)
            } else {
                None
            },
            _ => None,
        }
    } else {
        None
    }
}

/// Spelling a byte as `<0xHH>` and parsing it back gives the byte.
pub proof fn byte_token_roundtrips(b: u8)
    ensures
        spelled_byte(byte_token(b)) == Some(b),
{
}

/// Different bytes are spelled differently.
pub proof fn byte_tokens_are_distinct(a: u8, b: u8)
    requires
        byte_token(a) == byte_token(b),
    ensures
        a == b,
{
    byte_token_roundtrips(a);
    byte_token_roundtrips(b);
}

fn hex_digit_value(c: char) -> (v: Option<u8>)
    ensures
        match v {
            Some(n) => hex_value(c) == Some(n as int) && n < 16,
            None => hex_value(c) is None,
        },
{
    if '0' <= c && c <= '9' {
        Some((c as u32 - '0' as u32) as u8)
    } else if 'A' <= c && c <= 'F' {
        Some((c as u32 - 'A' as u32 + 10) as u8)
    } else if 'a' <= c && c <= 'f' {
        Some((c as u32 - 'a' as u32 + 10) as u8)
    } else {
        None
    }
}

fn hex_digit_char(v: u8) -> (c: char)
    requires
        v < 16,
    ensures
        c == hex_digit(v as int),
{
    if v < 10 {
        (48 + v) as char
    } else {
        (55 + v) as char
    }
}

/// Parse a byte token like `<0x41>`.
pub fn parse_byte_token(s: &str) -> (r: Option<u8>)
    ensures
        r == spelled_byte(s@),
{
    let chars: Vec<char> = chars_of(s);
    if chars.len() != 6 || chars[0] != '<' || chars[1] != '0' || chars[2] != 'x' || chars[5] != '>' {
        return None;
    }
    match (hex_digit_value(chars[3]), hex_digit_value(chars[4])) {
        (Some(hi), Some(lo)) => Some(16 * hi + lo),
        (None, Some(lo)) => if chars[3] == '+' {
            Some(lo)
        } else {
            None
        },
        _ => None,
    }
}

/// The token `<0xHH>` of a byte.
pub fn byte_token_text(b: u8) -> (s: String)
    ensures
        s@ == byte_token(b),
{
    let mut s = String::new();
    s.push('<');
    s.push('0');
    s.push('x');
    s.push(hex_digit_char(b / 16));
    s.push(hex_digit_char(b % 16));
    s.push('>');
    assert(s@ =~= byte_token(b));
    s
}

} // verus!
