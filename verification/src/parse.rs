//! Lines of text that name the two ends of an arrow.

use vstd::prelude::*;
use vstd::std_specs::iter::IteratorSpec;

verus! {

broadcast use vstd::string::axiom_spec_iter;

/// Whether a character is white space, as `char::is_whitespace` tells it.
pub uninterp spec fn white_space(c: char) -> bool;

/// `char::is_whitespace`: whether the character has the Unicode property
/// White_Space. The contract gives that answer a name, and says no more of it.
#[verifier::external_body]
fn is_space(c: char) -> (space: bool)
    ensures
        space == white_space(c),
{
    c.is_whitespace()
}

/// `String::push` appends the character to the end of the text.
pub assume_specification[ String::push ](text: &mut String, ch: char)
    ensures
        final(text)@ == old(text)@.push(ch),
;

/// What a line holds.
#[derive(Debug, PartialEq, Eq)]
pub enum Line {
    /// No word.
    Blank,
    /// One word only: an arrow without its second end.
    Incomplete,
    /// The first two words: the labels of the two ends of an arrow.
    Edge(String, String),
}

/// What a line holds, as mathematical values.
pub enum LineView {
    Blank,
    Incomplete,
    Edge(Seq<char>, Seq<char>),
}

impl View for Line {
    type V = LineView;

    open spec fn view(&self) -> LineView {
        match self {
            Line::Blank => LineView::Blank,
            Line::Incomplete => LineView::Incomplete,
            Line::Edge(from, to) => LineView::Edge(from@, to@),
        }
    }
}

/// The first position from `i` on that holds no white space, or the end.
pub open spec fn after_spaces(s: Seq<char>, i: int) -> int
    decreases s.len() - i,
{
    if 0 <= i < s.len() && white_space(s[i]) {
        after_spaces(s, i + 1)
    } else {
        i
    }
}

/// The first position from `i` on that holds white space, or the end.
pub open spec fn after_word(s: Seq<char>, i: int) -> int
    decreases s.len() - i,
{
    if 0 <= i < s.len() && !white_space(s[i]) {
        after_word(s, i + 1)
    } else {
        i
    }
}

/// What the line `s` holds: its words are its longest runs of characters
/// that are not white space, and what follows the second word is left out.
pub open spec fn line_of(s: Seq<char>) -> LineView {
    let first = after_spaces(s, 0);
    let first_end = after_word(s, first);
    let second = after_spaces(s, first_end);
    let second_end = after_word(s, second);
    if first >= s.len() {
        LineView::Blank
    } else if second >= s.len() {
        LineView::Incomplete
    } else {
        LineView::Edge(s.subrange(first, first_end), s.subrange(second, second_end))
    }
}

/// The characters of a text.
fn chars_of(text: &str) -> (chars: Vec<char>)
    ensures
        chars@ == text@,
{
    let mut chars: Vec<char> = Vec::new();
    let ghost all = text@;
    for c in it: text.chars()
        invariant
            it.seq() == all,
            chars@ == all.take(it.index()),
    {
        assert(all.take(it.index() + 1) == all.take(it.index()).push(c));
        chars.push(c);
    }
    assert(all.take(all.len() as int) == all);
    chars
}

/// The first position from `start` on that holds no white space, or the end.
fn skip_spaces(chars: &Vec<char>, start: usize) -> (end: usize)
    requires
        start <= chars@.len(),
    ensures
        end == after_spaces(chars@, start as int),
        start <= end <= chars@.len(),
{
    let mut i = start;
    while i < chars.len() && is_space(chars[i])
        invariant
            start <= i <= chars@.len(),
            after_spaces(chars@, i as int) == after_spaces(chars@, start as int),
        decreases chars.len() - i,
    {
        i += 1;
    }
    i
}

/// The first position from `start` on that holds white space, or the end.
fn skip_word(chars: &Vec<char>, start: usize) -> (end: usize)
    requires
        start <= chars@.len(),
    ensures
        end == after_word(chars@, start as int),
        start <= end <= chars@.len(),
{
    let mut i = start;
    while i < chars.len() && !is_space(chars[i])
        invariant
            start <= i <= chars@.len(),
            after_word(chars@, i as int) == after_word(chars@, start as int),
        decreases chars.len() - i,
    {
        i += 1;
    }
    i
}

/// The text of the characters from `start` to before `end`.
fn text_of(chars: &Vec<char>, start: usize, end: usize) -> (text: String)
    requires
        start <= end <= chars@.len(),
    ensures
        text@ == chars@.subrange(start as int, end as int),
{
    let mut text = String::new();
    let mut i = start;
    while i < end
        invariant
            start <= i <= end <= chars@.len(),
            text@ == chars@.subrange(start as int, i as int),
        decreases end - i,
    {
        text.push(chars[i]);
        assert(chars@.subrange(start as int, i + 1) == chars@.subrange(start as int, i as int).push(
            chars@[i as int],
        ));
        i += 1;
    }
    text
}

/// What a line holds: nothing, one word, or the labels of an arrow.
pub fn parse_line(line: &str) -> (out: Line)
    ensures
        out@ == line_of(line@),
{
    let chars = chars_of(line);
    let first = skip_spaces(&chars, 0);
    if first >= chars.len() {
        return Line::Blank;
    }
    let first_end = skip_word(&chars, first);
    let second = skip_spaces(&chars, first_end);
    if second >= chars.len() {
        return Line::Incomplete;
    }
    let second_end = skip_word(&chars, second);
    Line::Edge(text_of(&chars, first, first_end), text_of(&chars, second, second_end))
}

/// Takes one more line into the pairs read so far: a blank line adds
/// nothing, a line with two words or more adds the pair of its first two.
/// The answer is `false`, and nothing is added, where the line holds one
/// word only.
pub fn add_line(pairs: &mut Vec<(String, String)>, line: &str) -> (complete: bool)
    ensures
        match line_of(line@) {
            LineView::Blank => complete && final(pairs)@ == old(pairs)@,
            LineView::Incomplete => !complete && final(pairs)@ == old(pairs)@,
            LineView::Edge(from, to) => {
                &&& complete
                &&& final(pairs)@.len() == old(pairs)@.len() + 1
                &&& final(pairs)@.drop_last() == old(pairs)@
                &&& final(pairs)@.last().0@ == from
                &&& final(pairs)@.last().1@ == to
            },
        },
{
    match parse_line(line) {
        Line::Blank => true,
        Line::Incomplete => false,
        Line::Edge(from, to) => {
            pairs.push((from, to));
            assert(pairs@.drop_last() == old(pairs)@);
            true
        },
    }
}

} // verus!
