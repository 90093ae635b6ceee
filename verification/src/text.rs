//! Strings as sequences of characters, and what the crate takes from the
//! standard library about them.

use crate::float_bits::{as_double, nearest, nearest_to, to_double};
use vstd::prelude::*;
use vstd::string::*;
use vstd::utf8::*;

verus! {

/// Whether the standard library counts a character as alphabetic.
pub uninterp spec fn char_alphabetic(c: char) -> bool;

/// Whether the standard library counts a character as numeric.
pub uninterp spec fn char_numeric(c: char) -> bool;

/// The characters with the Unicode property White_Space.
pub open spec fn char_whitespace(c: char) -> bool {
    let code = c as u32;
    ||| 0x9 <= code <= 0xD
    ||| code == 0x20
    ||| code == 0x85
    ||| code == 0xA0
    ||| code == 0x1680
    ||| 0x2000 <= code <= 0x200A
    ||| code == 0x2028
    ||| code == 0x2029
    ||| code == 0x202F
    ||| code == 0x205F
    ||| code == 0x3000
}

/// The letters of ASCII.
pub open spec fn is_ascii_letter(c: char) -> bool {
    'a' <= c <= 'z' || 'A' <= c <= 'Z'
}

/// The digits of ASCII.
pub open spec fn is_ascii_digit(c: char) -> bool {
    '0' <= c <= '9'
}

/// Whether a character is alphabetic: in ASCII a letter, beyond it what the
/// standard library says.
pub open spec fn is_letter(c: char) -> bool {
    if (c as u32) < 128 {
        is_ascii_letter(c)
    } else {
        char_alphabetic(c)
    }
}

/// Whether a character is numeric: in ASCII a digit, beyond it what the
/// standard library says.
pub open spec fn is_number(c: char) -> bool {
    if (c as u32) < 128 {
        is_ascii_digit(c)
    } else {
        char_numeric(c)
    }
}

/// What the standard library reads out of bytes, valid UTF-8 or not.
pub uninterp spec fn utf8_lossy(bytes: Seq<u8>) -> Seq<char>;

/// `char::is_alphabetic` is a fixed property of the character: in ASCII the
/// letters have it; which other characters do is left to the Unicode tables.
pub assume_specification[ char::is_alphabetic ](c: char) -> (r: bool)
    ensures
        r == char_alphabetic(c),
        (c as u32) < 128 ==> r == is_ascii_letter(c),
;

/// `char::is_numeric` is a fixed property of the character: in ASCII the digits
/// have it; which other characters do is left to the Unicode tables.
pub assume_specification[ char::is_numeric ](c: char) -> (r: bool)
    ensures
        r == char_numeric(c),
        (c as u32) < 128 ==> r == is_ascii_digit(c),
;

/// `char::is_whitespace` tells the characters with the Unicode property
/// White_Space.
pub assume_specification[ char::is_whitespace ](c: char) -> (r: bool)
    ensures
        r == char_whitespace(c),
;

/// `char::from_u32` gives the character with that code, and nothing where no
/// character has it.
pub assume_specification[ char::from_u32 ](i: u32) -> (r: Option<char>)
    ensures
        r == if i <= 0xD7FF || 0xE000 <= i <= 0x10FFFF {
            Some(i as char)
        } else {
            None
        },
;

/// `String::push` appends one character.
pub assume_specification[ String::push ](s: &mut String, c: char)
    ensures
        final(s)@ == old(s)@.push(c),
;

/// `String::from_utf8_lossy` is a function of the bytes. Valid UTF-8 comes
/// back as the text it encodes; what stands for invalid parts is left unsaid.
#[verifier::external_body]
pub(crate) fn string_from_utf8_lossy(bytes: &[u8]) -> (s: String)
    ensures
        s@ == utf8_lossy(bytes@),
        valid_utf8(bytes@) ==> s@ == decode_utf8(bytes@),
{
    String::from_utf8_lossy(bytes).to_string()
}

/// The text that bytes stand for: what they encode if they are valid UTF-8,
/// else what the standard library makes of them.
pub open spec fn read_utf8(bytes: Seq<u8>) -> Seq<char> {
    if valid_utf8(bytes) {
        decode_utf8(bytes)
    } else {
        utf8_lossy(bytes)
    }
}

/// The characters of a list of strings.
pub open spec fn views(strings: Seq<String>) -> Seq<Seq<char>> {
    strings.map_values(|s: String| s@)
}

/// A list of sequences, one after the other.
pub open spec fn joined<A>(texts: Seq<Seq<A>>) -> Seq<A>
    decreases texts.len(),
{
    if texts.len() == 0 {
        Seq::empty()
    } else {
        joined(texts.drop_last()) + texts.last()
    }
}

pub proof fn lemma_joined_push<A>(texts: Seq<Seq<A>>, text: Seq<A>)
    ensures
        joined(texts.push(text)) == joined(texts) + text,
{
    assert(texts.push(text).drop_last() =~= texts);
}

pub proof fn lemma_joined_add<A>(a: Seq<Seq<A>>, b: Seq<Seq<A>>)
    ensures
        joined(a + b) == joined(a) + joined(b),
    decreases b.len(),
{
    if b.len() == 0 {
        assert(a + b =~= a);
        assert(joined(a) + joined(b) =~= joined(a));
    } else {
        lemma_joined_add(a, b.drop_last());
        assert((a + b).drop_last() =~= a + b.drop_last());
        assert((a + b).last() == b.last());
        assert(joined(a + b) =~= joined(a) + joined(b));
    }
}

pub proof fn lemma_views_push(strings: Seq<String>, s: String)
    ensures
        views(strings.push(s)) == views(strings).push(s@),
{
    assert(views(strings.push(s)) =~= views(strings).push(s@));
}

/// UTF-8 encodes text character by character.
pub proof fn lemma_encode_utf8_add(a: Seq<char>, b: Seq<char>)
    ensures
        encode_utf8(a + b) == encode_utf8(a) + encode_utf8(b),
    decreases a.len(),
{
    if a.len() == 0 {
        assert(a + b =~= b);
        assert(encode_utf8(a) + encode_utf8(b) =~= encode_utf8(b));
    } else {
        lemma_encode_utf8_add(a.drop_first(), b);
        assert((a + b).drop_first() =~= a.drop_first() + b);
        assert(encode_utf8(a + b) =~= encode_utf8(a) + encode_utf8(b));
    }
}

/// The characters of a string.
pub fn chars_of(s: &str) -> (chars: Vec<char>)
    ensures
        chars@ == s@,
{
    let mut chars: Vec<char> = Vec::new();
    for c in it: s.chars()
        invariant
            chars@ == it.seq().take(it.index()),
            it.seq() == s@,
    {
        chars.push(c);
    }
    chars
}

/// The string with given characters.
pub fn string_of(chars: &[char]) -> (s: String)
    ensures
        s@ == chars@,
{
    let mut s = String::new();
    let mut i: usize = 0;
    while i < chars.len()
        invariant
            i <= chars@.len(),
            s@ == chars@.take(i as int),
        decreases chars@.len() - i,
    {
        s.push(chars[i]);
        i += 1;
    }
    s
}

/// The string that holds one character.
pub fn string_of_char(c: char) -> (s: String)
    ensures
        s@ == seq![c],
{
    let mut s = String::new();
    s.push(c);
    s
}

/// Two strings, one after the other.
pub fn concatenated(a: &str, b: &str) -> (s: String)
    ensures
        s@ == a@ + b@,
{
    let mut s = String::from_str(a);
    s.append(b);
    s
}

/// Whether two strings hold the same characters.
pub fn same_text(a: &str, b: &str) -> (r: bool)
    ensures
        r == (a@ == b@),
{
    String::from_str(a) == String::from_str(b)
}

/// A text without its leading white space.
pub open spec fn trimmed_start(s: Seq<char>) -> Seq<char>
    decreases s.len(),
{
    if s.len() > 0 && char_whitespace(s[0]) {
        trimmed_start(s.drop_first())
    } else {
        s
    }
}

/// A text without its trailing white space.
pub open spec fn trimmed_end(s: Seq<char>) -> Seq<char>
    decreases s.len(),
{
    if s.len() > 0 && char_whitespace(s.last()) {
        trimmed_end(s.drop_last())
    } else {
        s
    }
}

/// A text without the white space around it.
pub open spec fn trimmed(s: Seq<char>) -> Seq<char> {
    trimmed_end(trimmed_start(s))
}

/// A character in ASCII lower case.
pub open spec fn lowered(c: char) -> char {
    if 'A' <= c <= 'Z' {
        (c as int + 32) as char
    } else {
        c
    }
}

/// A text in ASCII lower case.
pub open spec fn lowered_text(s: Seq<char>) -> Seq<char> {
    s.map_values(|c: char| lowered(c))
}

/// Whether `part` stands in `s` from position `i` on.
pub open spec fn occurs_at(s: Seq<char>, part: Seq<char>, i: int) -> bool {
    0 <= i && i + part.len() <= s.len() && s.subrange(i, i + part.len()) == part
}

/// Whether `part` stands anywhere in `s`.
pub open spec fn contains_text(s: Seq<char>, part: Seq<char>) -> bool {
    exists|i: int| occurs_at(s, part, i)
}

/// The decimal digit of a value below ten.
pub open spec fn digit(v: int) -> char {
    ('0' as int + v) as char
}

/// A number in decimal.
pub open spec fn decimal(n: nat) -> Seq<char>
    decreases n,
{
    if n < 10 {
        seq![digit(n as int)]
    } else {
        decimal(n / 10).push(digit((n % 10) as int))
    }
}

/// `n / unit` in tenths, as double-precision numbers have it.
pub open spec fn tenths(n: nat, unit: nat) -> nat {
    nearest(10 * as_double(n), unit)
}

/// `n / unit` in decimal, with one digit after the point.
pub open spec fn one_decimal(n: nat, unit: nat) -> Seq<char> {
    decimal(tenths(n, unit) / 10) + "."@ + decimal(tenths(n, unit) % 10)
}

/// Remove the white space around a text.
pub fn trim(chars: &[char]) -> (r: Vec<char>)
    ensures
        r@ == trimmed(chars@),
{
    let n: usize = chars.len();
    let mut start: usize = 0;
    assert(chars@.skip(0) =~= chars@);
    while start < n && chars[start].is_whitespace()
        invariant
            n == chars@.len(),
            start <= n,
            trimmed_start(chars@) == trimmed_start(chars@.skip(start as int)),
        decreases n - start,
    {
        assert(chars@.skip(start as int).drop_first() =~= chars@.skip(start + 1));
        start += 1;
    }
    let ghost rest = chars@.skip(start as int);
    assert(trimmed_start(chars@) == rest);
    let mut end: usize = n;
    assert(rest.take(n - start) =~= rest);
    while end > start && chars[end - 1].is_whitespace()
        invariant
            n == chars@.len(),
            start <= end <= n,
            rest == chars@.skip(start as int),
            trimmed_end(rest) == trimmed_end(rest.take(end - start)),
        decreases end,
    {
        assert(rest.take(end - start).drop_last() =~= rest.take(end - start - 1));
        end -= 1;
    }
    assert(rest.take(end - start) =~= chars@.subrange(start as int, end as int));
    vstd::slice::slice_to_vec(vstd::slice::slice_subrange(chars, start, end))
}

/// A character in ASCII lower case.
pub fn lower(c: char) -> (r: char)
    ensures
        r == lowered(c),
{
    if 'A' <= c && c <= 'Z' {
        (c as u8 + 32) as char
    } else {
        c
    }
}

/// A text in ASCII lower case.
pub fn lower_text(chars: &[char]) -> (r: Vec<char>)
    ensures
        r@ == lowered_text(chars@),
{
    let mut r: Vec<char> = Vec::new();
    let mut i: usize = 0;
    while i < chars.len()
        invariant
            i <= chars@.len(),
            r@.len() == i,
            forall|j: int| 0 <= j < i ==> #[trigger] r@[j] == lowered(chars@[j]),
        decreases chars@.len() - i,
    {
        r.push(lower(chars[i]));
        i += 1;
    }
    assert(r@ =~= lowered_text(chars@));
    r
}

/// Whether `part` stands in `chars` from position `start` on.
pub fn matches_at(chars: &[char], part: &[char], start: usize) -> (r: bool)
    requires
        start <= chars@.len(),
    ensures
        r == occurs_at(chars@, part@, start as int),
{
    let n: usize = chars.len();
    if part.len() > n - start {
        return false;
    }
    let mut i: usize = 0;
    while i < part.len()
        invariant
            n == chars@.len(),
            start + part@.len() <= n,
            i <= part@.len(),
            forall|j: int| 0 <= j < i ==> chars@[start + j] == #[trigger] part@[j],
        decreases part@.len() - i,
    {
        if chars[start + i] != part[i] {
            assert(chars@.subrange(start as int, start + part@.len())[i as int] != part@[i as int]);
            return false;
        }
        i += 1;
    }
    assert(chars@.subrange(start as int, start + part@.len()) =~= part@);
    true
}

/// Whether `part` stands anywhere in `chars`.
pub fn contains(chars: &[char], part: &[char]) -> (r: bool)
    ensures
        r == contains_text(chars@, part@),
{
    let mut i: usize = 0;
    while i <= chars.len()
        invariant
            i <= chars@.len() + 1,
            forall|j: int| 0 <= j < i ==> !occurs_at(chars@, part@, j),
        decreases chars@.len() + 1 - i,
    {
        if matches_at(chars, part, i) {
            return true;
        }
        if i == chars.len() {
            return false;
        }
        i += 1;
    }
    false
}

/// Whether a string contains another.
pub fn text_contains(s: &str, part: &str) -> (r: bool)
    ensures
        r == contains_text(s@, part@),
{
    let chars: Vec<char> = chars_of(s);
    let other: Vec<char> = chars_of(part);
    contains(chars.as_slice(), other.as_slice())
}

/// A number in decimal.
pub fn decimal_text_u64(n: u64) -> (s: String)
    ensures
        s@ == decimal(n as nat),
    decreases n,
{
    if n < 10 {
        string_of_char((48 + n as u8) as char)
    } else {
        let mut s: String = decimal_text_u64(n / 10);
        s.push((48 + (n % 10) as u8) as char);
        s
    }
}

/// A number in decimal.
pub fn decimal_text(n: usize) -> (s: String)
    ensures
        s@ == decimal(n as nat),
{
    decimal_text_u64(n as u64)
}

/// A text, then a label, then a number in decimal.
pub fn with_number(s: String, label: &str, n: usize) -> (r: String)
    ensures
        r@ == s@ + label@ + decimal(n as nat),
{
    let t: String = concatenated(s.as_str(), label);
    concatenated(t.as_str(), decimal_text(n).as_str())
}

/// A text, then a label, then `n / unit` in decimal with one digit after the
/// point.
pub fn with_tenths(s: String, label: &str, n: usize, unit: u64) -> (r: String)
    requires
        unit >= 1024,
    ensures
        r@ == s@ + label@ + one_decimal(n as nat, unit as nat),
{
    let n: u64 = n as u64;
    let value: u128 = 10 * to_double(n);
    let t: u128 = nearest_to(value, unit as u128);
    proof {
        assert(value as int / unit as int <= value / 1024) by (nonlinear_arith)
            requires
                unit >= 1024,
        ;
    }
    let s: String = concatenated(s.as_str(), label);
    let s: String = with_decimal(s, (t / 10) as u64);
    let s: String = concatenated(s.as_str(), ".");
    with_decimal(s, (t % 10) as u64)
}

fn with_decimal(s: String, n: u64) -> (r: String)
    ensures
        r@ == s@ + decimal(n as nat),
{
    concatenated(s.as_str(), decimal_text_u64(n).as_str())
}

/// Numbers in decimal, with commas between them.
pub open spec fn listed(xs: Seq<usize>) -> Seq<char>
    decreases xs.len(),
{
    if xs.len() == 0 {
        Seq::empty()
    } else if xs.len() == 1 {
        decimal(xs[0] as nat)
    } else {
        listed(xs.drop_last()) + ", "@ + decimal(xs.last() as nat)
    }
}

/// A text, then a label, then numbers with commas between them.
pub fn with_list(s: String, label: &str, xs: &[usize]) -> (r: String)
    ensures
        r@ == s@ + label@ + listed(xs@),
{
    let mut r: String = concatenated(s.as_str(), label);
    let ghost start = r@;
    let mut i: usize = 0;
    assert(xs@.take(0) =~= Seq::<usize>::empty());
    assert(start + listed(xs@.take(0)) =~= start);
    while i < xs.len()
        invariant
            i <= xs@.len(),
            r@ == start + listed(xs@.take(i as int)),
        decreases xs@.len() - i,
    {
        let ghost before = listed(xs@.take(i as int));
        proof {
            assert(xs@.take(i + 1).drop_last() =~= xs@.take(i as int));
            assert(xs@.take(i + 1).last() == xs@[i as int]);
        }
        r = with_number(r, if i == 0 { "" } else { ", " }, xs[i]);
        proof {
            reveal_strlit("");
            assert(r@ =~= start + listed(xs@.take(i + 1)));
        }
        i += 1;
    }
    assert(xs@.take(xs@.len() as int) =~= xs@);
    r
}

/// A number in decimal has at least one character, and only digits.
pub proof fn lemma_decimal_digits(n: nat)
    ensures
        decimal(n).len() > 0,
        forall|k: int| 0 <= k < decimal(n).len() ==> '0' <= #[trigger] decimal(n)[k] <= '9',
    decreases n,
{
    if n >= 10 {
        lemma_decimal_digits(n / 10);
    }
}

/// Different numbers read differently.
pub proof fn decimals_are_distinct(a: nat, b: nat)
    requires
        decimal(a) == decimal(b),
    ensures
        a == b,
    decreases a,
{
    lemma_decimal_digits(a / 10);
    lemma_decimal_digits(b / 10);
    assert(decimal(a).last() == digit((a % 10) as int));
    assert(decimal(b).last() == digit((b % 10) as int));
    if a < 10 {
        assert(decimal(a).len() == 1);
    } else if b < 10 {
        assert(decimal(b).len() == 1);
    } else {
        assert(decimal(a).drop_last() =~= decimal(a / 10));
        assert(decimal(b).drop_last() =~= decimal(b / 10));
        decimals_are_distinct(a / 10, b / 10);
    }
}

} // verus!
