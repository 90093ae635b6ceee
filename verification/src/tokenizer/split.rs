//! Splitting text into words before merging.
//!
//! Each rule is a pattern whose alternatives are tried in order at the start of
//! every word:
//!
//! ```text
//! GPT-2:   's|'t|'re|'ve|'m|'ll|'d| ?\p{L}+| ?\p{N}+| ?[^\s\p{L}\p{N}]+|\s+(?!\S)|\s+
//! LLaMA 3: (?i:'s|'t|'re|'ve|'m|'ll|'d)|[^\s\p{L}\p{N}]?\p{L}+|\p{N}{1,3}
//!          | ?[^\s\p{L}\p{N}]+[\r\n]*|\s*[\r\n]+|\s+(?!\S)|\s+
//! ```
//!
//! The LLaMA 3 rule keeps white space apart from the letters that follow it, all
//! of it in one word. Letters are the alphabetic characters that are no numbers.
//! The rules work on characters together with their classes.

use crate::text::{
    char_whitespace, chars_of, is_letter, is_number, joined, lemma_joined_add,
    lemma_views_push, lower, lowered, string_of, views,
};
use vstd::prelude::*;

verus! {

/// What the splitting rules need to know about a character.
#[derive(Debug, Clone, Copy, PartialEq, Eq, Structural)]
pub struct CharClass {
    pub alphabetic: bool,
    pub numeric: bool,
    pub whitespace: bool,
}

/// Which splitting rule a tokenizer uses.
#[derive(Debug, Clone, Copy, PartialEq, Eq, Structural)]
pub enum PreTokenizerType {
    /// A space joins the word that follows it.
    Gpt2,
    /// Contractions in either case, numbers in groups of up to three, line ends
    /// apart.
    Llama3,
}

/// Kinds of characters that words run over.
#[derive(Debug, Clone, Copy, PartialEq, Eq, Structural)]
pub enum Run {
    /// Alphabetic characters that are no numbers.
    Letters,
    /// Numeric characters.
    Numbers,
    /// Neither white space nor alphabetic nor numeric.
    Other,
    /// White space.
    Space,
    /// Carriage returns and line feeds.
    LineEnds,
}

pub open spec fn is_line_end(c: char) -> bool {
    c == '\r' || c == '\n'
}

/// Whether a character of a given class belongs to a kind.
pub open spec fn belongs(run: Run, c: char, class: CharClass) -> bool {
    match run {
        Run::Letters => class.alphabetic && !class.numeric,
        Run::Numbers => class.numeric,
        Run::Other => !class.whitespace && !class.alphabetic && !class.numeric,
        Run::Space => class.whitespace,
        Run::LineEnds => is_line_end(c),
    }
}

/// The class of a character.
pub open spec fn class_of(c: char) -> CharClass {
    CharClass {
        alphabetic: is_letter(c),
        numeric: is_number(c),
        whitespace: char_whitespace(c),
    }
}

/// The classes of all characters of a text.
pub open spec fn classes_of(text: Seq<char>) -> Seq<CharClass> {
    Seq::new(text.len(), |i: int| class_of(text[i]))
}

/// Where the characters of one kind that start at `i` end.
pub open spec fn run_end(run: Run, text: Seq<char>, classes: Seq<CharClass>, i: int) -> int
    decreases text.len() - i,
{
    if i < text.len() && belongs(run, text[i], classes[i]) {
        run_end(run, text, classes, i + 1)
    } else {
        i
    }
}

/// The length of the contraction that starts at `i`: an apostrophe and `s`,
/// `t`, `m`, `d`, `re`, `ve` or `ll`.
pub open spec fn contraction(text: Seq<char>, i: int) -> Option<int> {
    let rest = text.len() - i;
    if rest < 2 || text[i] != '\'' {
        None
    } else if rest >= 3 && is_long_suffix(text[i + 1], text[i + 2]) {
        Some(3)
    } else if is_short_suffix(text[i + 1]) {
        Some(2)
    } else {
        None
    }
}

pub open spec fn is_long_suffix(a: char, b: char) -> bool {
    (a == 'r' && b == 'e') || (a == 'v' && b == 'e') || (a == 'l' && b == 'l')
}

pub open spec fn is_short_suffix(a: char) -> bool {
    a == 's' || a == 't' || a == 'm' || a == 'd'
}

/// The length of the contraction that starts at `i`, in either case.
pub open spec fn contraction_any_case(text: Seq<char>, i: int) -> Option<int> {
    let rest = text.len() - i;
    if rest < 2 || text[i] != '\'' {
        None
    } else if rest >= 3 && is_long_suffix(lowered(text[i + 1]), lowered(text[i + 2])) {
        Some(3)
    } else if is_short_suffix(lowered(text[i + 1])) {
        Some(2)
    } else {
        None
    }
}

/// Whether a word of the given kind starts at `i`, after an optional space.
pub open spec fn starts_run(run: Run, text: Seq<char>, classes: Seq<CharClass>, i: int) -> bool {
    ||| text[i] == ' ' && i + 1 < text.len() && belongs(run, text[i + 1], classes[i + 1])
    ||| belongs(run, text[i], classes[i])
}

/// Where a word of the given kind ends that starts at `i` with an optional
/// space.
pub open spec fn spaced_run_end(run: Run, text: Seq<char>, classes: Seq<CharClass>, i: int) -> int {
    run_end(
        run,
        text,
        classes,
        if text[i] == ' ' {
            i + 1
        } else {
            i
        },
    )
}

/// Whether characters that are neither white space nor letters nor numbers
/// start at `i`, after an optional space.
pub open spec fn starts_other(text: Seq<char>, classes: Seq<CharClass>, i: int) -> bool {
    if text[i] == ' ' {
        i + 1 < text.len() && belongs(Run::Other, text[i + 1], classes[i + 1])
    } else {
        belongs(Run::Other, text[i], classes[i])
    }
}

/// Where the white space that starts at `i` ends: before its last character if
/// there are several and a word follows, else with the last.
pub open spec fn space_end(text: Seq<char>, classes: Seq<CharClass>, i: int) -> int {
    let end = run_end(Run::Space, text, classes, i);
    if i + 2 <= end < text.len() {
        end - 1
    } else {
        end
    }
}

/// The place behind the last line end between `i` and `end`; `i` if there is
/// none.
pub open spec fn after_line_ends(text: Seq<char>, i: int, end: int) -> int
    decreases end - i,
{
    if end <= i {
        i
    } else if is_line_end(text[end - 1]) {
        end
    } else {
        after_line_ends(text, i, end - 1)
    }
}

/// Where the word that starts at `i` ends under the GPT-2 rule.
pub open spec fn gpt2_word_end(text: Seq<char>, classes: Seq<CharClass>, i: int) -> int {
    match contraction(text, i) {
        Some(len) => i + len,
        None => if starts_run(Run::Letters, text, classes, i) {
            spaced_run_end(Run::Letters, text, classes, i)
        } else if starts_run(Run::Numbers, text, classes, i) {
            spaced_run_end(Run::Numbers, text, classes, i)
        } else if starts_other(text, classes, i) {
            spaced_run_end(Run::Other, text, classes, i)
        } else if classes[i].whitespace {
            space_end(text, classes, i)
        } else {
            i + 1
        },
    }
}

/// Where the word that starts at `i` ends under the LLaMA 3 rule.
pub open spec fn llama3_word_end(text: Seq<char>, classes: Seq<CharClass>, i: int) -> int {
    let n = text.len();
    match contraction_any_case(text, i) {
        Some(len) => i + len,
        None => if belongs(Run::Letters, text[i], classes[i]) {
            run_end(Run::Letters, text, classes, i)
        } else if belongs(Run::Other, text[i], classes[i]) && i + 1 < n && belongs(
            Run::Letters,
            text[i + 1],
            classes[i + 1],
        ) {
            run_end(Run::Letters, text, classes, i + 1)
        } else if classes[i].numeric {
            let end = run_end(Run::Numbers, text, classes, i);
            if end <= i + 3 {
                end
            } else {
                i + 3
            }
        } else if starts_other(text, classes, i) {
            run_end(Run::LineEnds, text, classes, spaced_run_end(Run::Other, text, classes, i))
        } else if classes[i].whitespace {
            let end = run_end(Run::Space, text, classes, i);
            let lines = after_line_ends(text, i, end);
            if i < lines {
                lines
            } else if end < n && belongs(Run::Letters, text[end], classes[end]) {
                end
            } else {
                space_end(text, classes, i)
            }
        } else {
            i + 1
        },
    }
}

/// Where the word that starts at `i` ends.
pub open spec fn word_end(
    rule: PreTokenizerType,
    text: Seq<char>,
    classes: Seq<CharClass>,
    i: int,
) -> int {
    match rule {
        PreTokenizerType::Gpt2 => gpt2_word_end(text, classes, i),
        PreTokenizerType::Llama3 => llama3_word_end(text, classes, i),
    }
}

/// The words of a text from position `i` on.
pub open spec fn words_from(
    rule: PreTokenizerType,
    text: Seq<char>,
    classes: Seq<CharClass>,
    i: int,
) -> Seq<Seq<char>>
    decreases text.len() - i,
    when 0 <= i
    via words_from_terminates
{
    if i >= text.len() {
        Seq::empty()
    } else {
        let end = word_end(rule, text, classes, i);
        seq![text.subrange(i, end)] + words_from(rule, text, classes, end)
    }
}

#[via_fn]
proof fn words_from_terminates(
    rule: PreTokenizerType,
    text: Seq<char>,
    classes: Seq<CharClass>,
    i: int,
) {
    if i < text.len() {
        lemma_word_end(rule, text, classes, i);
    }
}

pub proof fn lemma_run_end(run: Run, text: Seq<char>, classes: Seq<CharClass>, i: int)
    requires
        0 <= i <= text.len(),
    ensures
        i <= run_end(run, text, classes, i) <= text.len(),
        i < text.len() && belongs(run, text[i], classes[i]) ==> i < run_end(run, text, classes, i),
    decreases text.len() - i,
{
    if i < text.len() && belongs(run, text[i], classes[i]) {
        lemma_run_end(run, text, classes, i + 1);
    }
}

/// A word is never empty and never reaches past the text.
pub proof fn lemma_word_end(
    rule: PreTokenizerType,
    text: Seq<char>,
    classes: Seq<CharClass>,
    i: int,
)
    requires
        0 <= i < text.len(),
    ensures
        i < word_end(rule, text, classes, i) <= text.len(),
{
    lemma_run_end(Run::Letters, text, classes, i);
    lemma_run_end(Run::Letters, text, classes, i + 1);
    lemma_run_end(Run::Numbers, text, classes, i);
    lemma_run_end(Run::Numbers, text, classes, i + 1);
    lemma_run_end(Run::Other, text, classes, i);
    lemma_run_end(Run::Other, text, classes, i + 1);
    lemma_run_end(Run::Space, text, classes, i);
    lemma_run_end(
        Run::LineEnds,
        text,
        classes,
        spaced_run_end(Run::Other, text, classes, i),
    );
    lemma_after_line_ends(text, i, run_end(Run::Space, text, classes, i));
}

proof fn lemma_after_line_ends(text: Seq<char>, i: int, end: int)
    requires
        i <= end,
    ensures
        i <= after_line_ends(text, i, end) <= end,
    decreases end - i,
{
    if i < end {
        lemma_after_line_ends(text, i, end - 1);
    }
}

/// Splitting loses nothing: the words, put together, are the text.
pub proof fn splitting_is_lossless(
    rule: PreTokenizerType,
    text: Seq<char>,
    classes: Seq<CharClass>,
    i: int,
)
    requires
        0 <= i <= text.len(),
    ensures
        joined(words_from(rule, text, classes, i)) == text.skip(i),
    decreases text.len() - i,
{
    if i < text.len() {
        lemma_word_end(rule, text, classes, i);
        let end = word_end(rule, text, classes, i);
        splitting_is_lossless(rule, text, classes, end);
        let first = seq![text.subrange(i, end)];
        lemma_joined_add(first, words_from(rule, text, classes, end));
        reveal_with_fuel(joined, 2);
        assert(joined(first) =~= text.subrange(i, end));
        assert(text.skip(i) =~= text.subrange(i, end) + text.skip(end));
    } else {
        assert(text.skip(i) =~= Seq::<char>::empty());
    }
}

/// No word is empty.
pub proof fn words_are_not_empty(
    rule: PreTokenizerType,
    text: Seq<char>,
    classes: Seq<CharClass>,
    i: int,
    k: int,
)
    requires
        0 <= i <= text.len(),
        0 <= k < words_from(rule, text, classes, i).len(),
    ensures
        words_from(rule, text, classes, i)[k].len() > 0,
    decreases text.len() - i,
{
    if i < text.len() {
        lemma_word_end(rule, text, classes, i);
        let end = word_end(rule, text, classes, i);
        if k > 0 {
            words_are_not_empty(rule, text, classes, end, k - 1);
        }
    }
}

/// Under the LLaMA 3 rule a word that starts with a number holds at most three
/// characters.
pub proof fn numbers_come_in_groups_of_three(text: Seq<char>, classes: Seq<CharClass>, i: int)
    requires
        0 <= i < text.len(),
        classes[i].numeric,
        text[i] != '\'',
    ensures
        i < llama3_word_end(text, classes, i) <= i + 3,
{
    lemma_word_end(PreTokenizerType::Llama3, text, classes, i);
}

/// The class of one character.
pub fn char_class(c: char) -> (class: CharClass)
    ensures
        class == class_of(c),
{
    CharClass { alphabetic: c.is_alphabetic(), numeric: c.is_numeric(), whitespace: c.is_whitespace() }
}

/// The classes of a list of characters.
pub fn char_classes(chars: &[char]) -> (classes: Vec<CharClass>)
    ensures
        classes@ == classes_of(chars@),
{
    let mut classes: Vec<CharClass> = Vec::new();
    let mut i: usize = 0;
    while i < chars.len()
        invariant
            i <= chars@.len(),
            classes@.len() == i,
            forall|j: int| 0 <= j < i ==> #[trigger] classes@[j] == class_of(chars@[j]),
        decreases chars@.len() - i,
    {
        classes.push(char_class(chars[i]));
        i += 1;
    }
    assert(classes@ =~= classes_of(chars@));
    classes
}

/// Whether a character of a given class belongs to a kind.
pub fn belongs_to(run: Run, c: char, class: CharClass) -> (r: bool)
    ensures
        r == belongs(run, c, class),
{
    match run {
        Run::Letters => class.alphabetic && !class.numeric,
        Run::Numbers => class.numeric,
        Run::Other => !class.whitespace && !class.alphabetic && !class.numeric,
        Run::Space => class.whitespace,
        Run::LineEnds => c == '\r' || c == '\n',
    }
}

fn find_run_end(run: Run, chars: &[char], classes: &[CharClass], start: usize) -> (end: usize)
    requires
        chars@.len() == classes@.len(),
        start <= chars@.len(),
    ensures
        end == run_end(run, chars@, classes@, start as int),
        start <= end <= chars@.len(),
{
    let mut i: usize = start;
    while i < chars.len() && belongs_to(run, chars[i], classes[i])
        invariant
            chars@.len() == classes@.len(),
            start <= i <= chars@.len(),
            run_end(run, chars@, classes@, start as int) == run_end(run, chars@, classes@, i as int),
        decreases chars@.len() - i,
    {
        i += 1;
    }
    i
}

fn other_starts(chars: &[char], classes: &[CharClass], i: usize) -> (r: bool)
    requires
        chars@.len() == classes@.len(),
        i < chars@.len(),
    ensures
        r == starts_other(chars@, classes@, i as int),
{
    if chars[i] == ' ' {
        chars.len() - i >= 2 && belongs_to(Run::Other, chars[i + 1], classes[i + 1])
    } else {
        belongs_to(Run::Other, chars[i], classes[i])
    }
}

fn find_space_end(chars: &[char], classes: &[CharClass], i: usize) -> (end: usize)
    requires
        chars@.len() == classes@.len(),
        i < chars@.len(),
    ensures
        end == space_end(chars@, classes@, i as int),
{
    let end: usize = find_run_end(Run::Space, chars, classes, i);
    if end - i >= 2 && end < chars.len() {
        end - 1
    } else {
        end
    }
}

/// The contraction at position `i`, if there is one, and its length.
pub fn try_contraction(chars: &[char], i: usize) -> (r: Option<(String, usize)>)
    requires
        i <= chars@.len(),
    ensures
        match r {
            Some((s, len)) => contraction(chars@, i as int) == Some(len as int) && s@
                == chars@.subrange(i as int, i + len),
            None => contraction(chars@, i as int) is None,
        },
{
    let rest: usize = chars.len() - i;
    if rest < 2 || chars[i] != '\'' {
        return None;
    }
    let a: char = chars[i + 1];
    if rest >= 3 {
        let b: char = chars[i + 2];
        if (a == 'r' && b == 'e') || (a == 'v' && b == 'e') || (a == 'l' && b == 'l') {
            return Some((string_of(vstd::slice::slice_subrange(chars, i, i + 3)), 3));
        }
    }
    if a == 's' || a == 't' || a == 'm' || a == 'd' {
        Some((string_of(vstd::slice::slice_subrange(chars, i, i + 2)), 2))
    } else {
        None
    }
}

/// The contraction at position `i` in either case, if there is one, and its
/// length.
pub fn try_contraction_ci(chars: &[char], i: usize) -> (r: Option<(String, usize)>)
    requires
        i <= chars@.len(),
    ensures
        match r {
            Some((s, len)) => contraction_any_case(chars@, i as int) == Some(len as int) && s@
                == chars@.subrange(i as int, i + len),
            None => contraction_any_case(chars@, i as int) is None,
        },
{
    let rest: usize = chars.len() - i;
    if rest < 2 || chars[i] != '\'' {
        return None;
    }
    let a: char = lower(chars[i + 1]);
    if rest >= 3 {
        let b: char = lower(chars[i + 2]);
        if (a == 'r' && b == 'e') || (a == 'v' && b == 'e') || (a == 'l' && b == 'l') {
            return Some((string_of(vstd::slice::slice_subrange(chars, i, i + 3)), 3));
        }
    }
    if a == 's' || a == 't' || a == 'm' || a == 'd' {
        Some((string_of(vstd::slice::slice_subrange(chars, i, i + 2)), 2))
    } else {
        None
    }
}

/// Where the word that starts at `i` ends under the GPT-2 rule.
pub fn gpt2_next_word(chars: &[char], classes: &[CharClass], i: usize) -> (end: usize)
    requires
        chars@.len() == classes@.len(),
        i < chars@.len(),
    ensures
        end == gpt2_word_end(chars@, classes@, i as int),
        i < end <= chars@.len(),
{
    let n: usize = chars.len();
    proof {
        lemma_word_end(PreTokenizerType::Gpt2, chars@, classes@, i as int);
    }
    if chars[i] == '\'' && n - i >= 2 {
        if let Some((_, len)) = try_contraction(chars, i) {
            return i + len;
        }
    }
    let spaced: bool = chars[i] == ' ' && n - i >= 2;
    let start: usize = if chars[i] == ' ' { i + 1 } else { i };
    if (spaced && belongs_to(Run::Letters, chars[i + 1], classes[i + 1])) || belongs_to(
        Run::Letters,
        chars[i],
        classes[i],
    ) {
        return find_run_end(Run::Letters, chars, classes, start);
    }
    if (spaced && belongs_to(Run::Numbers, chars[i + 1], classes[i + 1])) || belongs_to(
        Run::Numbers,
        chars[i],
        classes[i],
    ) {
        return find_run_end(Run::Numbers, chars, classes, start);
    }
    if other_starts(chars, classes, i) {
        return find_run_end(Run::Other, chars, classes, start);
    }
    if classes[i].whitespace {
        return find_space_end(chars, classes, i);
    }
    i + 1
}

/// Where the word that starts at `i` ends under the LLaMA 3 rule.
pub fn llama3_next_word(chars: &[char], classes: &[CharClass], i: usize) -> (end: usize)
    requires
        chars@.len() == classes@.len(),
        i < chars@.len(),
    ensures
        end == llama3_word_end(chars@, classes@, i as int),
        i < end <= chars@.len(),
{
    let n: usize = chars.len();
    let c: char = chars[i];
    let class: CharClass = classes[i];
    proof {
        lemma_word_end(PreTokenizerType::Llama3, chars@, classes@, i as int);
    }
    if let Some((_, len)) = try_contraction_ci(chars, i) {
        return i + len;
    }
    if belongs_to(Run::Letters, c, class) {
        return find_run_end(Run::Letters, chars, classes, i);
    }
    if belongs_to(Run::Other, c, class) && n - i >= 2 && belongs_to(
        Run::Letters,
        chars[i + 1],
        classes[i + 1],
    ) {
        return find_run_end(Run::Letters, chars, classes, i + 1);
    }
    if class.numeric {
        let end: usize = find_run_end(Run::Numbers, chars, classes, i);
        return if end - i <= 3 {
            end
        } else {
            i + 3
        };
    }
    if other_starts(chars, classes, i) {
        let start: usize = if c == ' ' { i + 1 } else { i };
        let end: usize = find_run_end(Run::Other, chars, classes, start);
        return find_run_end(Run::LineEnds, chars, classes, end);
    }
    if class.whitespace {
        let all: usize = find_run_end(Run::Space, chars, classes, i);
        let mut end: usize = all;
        while i < end && !(chars[end - 1] == '\r' || chars[end - 1] == '\n')
            invariant
                i <= end <= chars@.len(),
                after_line_ends(chars@, i as int, end as int) == after_line_ends(
                    chars@,
                    i as int,
                    all as int,
                ),
            decreases end,
        {
            end -= 1;
        }
        return if i < end {
            end
        } else if all < n && belongs_to(Run::Letters, chars[all], classes[all]) {
            all
        } else {
            find_space_end(chars, classes, i)
        };
    }
    i + 1
}

/// Split classified characters into words.
pub fn split_words(rule: PreTokenizerType, chars: &[char], classes: &[CharClass]) -> (words: Vec<String>)
    requires
        chars@.len() == classes@.len(),
    ensures
        views(words@) == words_from(rule, chars@, classes@, 0),
{
    let mut words: Vec<String> = Vec::new();
    let mut i: usize = 0;
    assert(views(words@) + words_from(rule, chars@, classes@, 0) =~= words_from(
        rule,
        chars@,
        classes@,
        0,
    ));
    while i < chars.len()
        invariant
            chars@.len() == classes@.len(),
            i <= chars@.len(),
            views(words@) + words_from(rule, chars@, classes@, i as int) == words_from(
                rule,
                chars@,
                classes@,
                0,
            ),
        decreases chars@.len() - i,
    {
        let end: usize = match rule {
            PreTokenizerType::Gpt2 => gpt2_next_word(chars, classes, i),
            PreTokenizerType::Llama3 => llama3_next_word(chars, classes, i),
        };
        let word: String = string_of(vstd::slice::slice_subrange(chars, i, end));
        proof {
            lemma_views_push(words@, word);
            assert(views(words@).push(word@) + words_from(rule, chars@, classes@, end as int)
                =~= views(words@) + (seq![chars@.subrange(i as int, end as int)] + words_from(
                rule,
                chars@,
                classes@,
                end as int,
            )));
        }
        words.push(word);
        i = end;
    }
    assert(words_from(rule, chars@, classes@, i as int) =~= Seq::<Seq<char>>::empty());
    assert(views(words@) + words_from(rule, chars@, classes@, i as int) =~= views(words@));
    words
}

/// The words of a text under a splitting rule.
pub open spec fn words_of(rule: PreTokenizerType, text: Seq<char>) -> Seq<Seq<char>> {
    words_from(rule, text, classes_of(text), 0)
}

/// Split a text into words.
pub fn pre_tokenize(rule: PreTokenizerType, text: &str) -> (words: Vec<String>)
    ensures
        views(words@) == words_of(rule, text@),
{
    let chars: Vec<char> = chars_of(text);
    let classes: Vec<CharClass> = char_classes(chars.as_slice());
    split_words(rule, chars.as_slice(), classes.as_slice())
}

/// Split a text into words under the GPT-2 rule.
pub fn gpt2_pre_tokenize(text: &str) -> (words: Vec<String>)
    ensures
        views(words@) == words_of(PreTokenizerType::Gpt2, text@),
{
    pre_tokenize(PreTokenizerType::Gpt2, text)
}

/// Split a text into words under the LLaMA 3 rule.
pub fn llama3_pre_tokenize(text: &str) -> (words: Vec<String>)
    ensures
        views(words@) == words_of(PreTokenizerType::Llama3, text@),
{
    pre_tokenize(PreTokenizerType::Llama3, text)
}

} // verus!
