//! Text as it comes from the keyboard or from a file: trimming, case, and
//! the lines of a word list.

use vstd::prelude::*;
use vstd::string::*;

verus! {

/// What `str::trim` leaves of a text: the text without the white space at
/// its two ends, white space as Unicode defines it.
pub uninterp spec fn trimmed(text: Seq<char>) -> Seq<char>;

/// What `str::to_uppercase` makes of a text: its upper case as Unicode
/// defines it.
pub uninterp spec fn uppercased(text: Seq<char>) -> Seq<char>;

/// `str::trim` of the standard library; its result is named `trimmed`.
#[verifier::external_body]
pub(crate) fn trim(text: &str) -> (inner: &str)
    ensures
        inner@ == trimmed(text@),
{
    text.trim()
}

/// `str::to_uppercase` of the standard library; its result is named
/// `uppercased`.
#[verifier::external_body]
pub(crate) fn to_uppercase(text: &str) -> (upper: String)
    ensures
        upper@ == uppercased(text@),
{
    text.to_uppercase()
}

/// A lower-case ASCII letter becomes its upper-case letter; every other
/// character stays.
pub open spec fn ascii_upper(c: char) -> char {
    if 'a' <= c && c <= 'z' {
        ((c as u8) - 32) as char
    } else {
        c
    }
}

/// A text with its ASCII letters in upper case.
pub open spec fn ascii_uppercase(text: Seq<char>) -> Seq<char> {
    Seq::new(text.len(), |i: int| ascii_upper(text[i]))
}

/// `str::make_ascii_uppercase` of the standard library, which maps the
/// letters `a` to `z` to `A` to `Z` in place and leaves the rest.
#[verifier::external_body]
pub(crate) fn make_ascii_uppercase(text: &mut String)
    ensures
        final(text)@ == ascii_uppercase(old(text)@),
{
    text.make_ascii_uppercase();
}

/// The position of the first line feed of a text, or its length where it
/// has none.
pub open spec fn line_end(text: Seq<char>) -> int
    decreases text.len(),
{
    if text.len() == 0 || text[0] == '\n' {
        0
    } else {
        1 + line_end(text.drop_first())
    }
}

/// The pieces of a text between its line feeds. A text without a line
/// feed is one piece, the empty text too.
pub open spec fn lines_of(text: Seq<char>) -> Seq<Seq<char>>
    decreases text.len(),
{
    let end = line_end(text);
    if 0 <= end < text.len() {
        seq![text.take(end)] + lines_of(text.skip(end + 1))
    } else {
        seq![text]
    }
}

/// `str::split` of the standard library with a line feed as the
/// separator: the pieces between the line feeds, in order.
#[verifier::external_body]
pub(crate) fn split_lines(text: &str) -> (lines: Vec<String>)
    ensures
        lines@.len() == lines_of(text@).len(),
        forall|i: int| 0 <= i < lines@.len() ==> (#[trigger] lines@[i])@ == lines_of(text@)[i],
{
    text.split("\n").map(|piece| piece.to_string()).collect()
}

/// A typed word as the game takes it: trimmed, its ASCII letters in upper
/// case.
pub fn normalize_guess(typed: &String) -> (word: String)
    ensures
        word@ == ascii_uppercase(trimmed(typed@)),
{
    let mut word = trim(typed.as_str()).to_owned();
    make_ascii_uppercase(&mut word);
    word
}

/// One entry of a word list: trimmed and in upper case.
pub open spec fn entry_of(line: Seq<char>) -> Seq<char> {
    uppercased(trimmed(line))
}

/// Brings each line of a list into the form of an entry.
pub fn normalize_words(lines: &Vec<String>) -> (words: Vec<String>)
    ensures
        words@.len() == lines@.len(),
        forall|i: int| 0 <= i < words@.len() ==> (#[trigger] words@[i])@ == entry_of(lines@[i]@),
{
    let mut words: Vec<String> = Vec::new();
    let mut index: usize = 0;
    while index < lines.len()
        invariant
            index <= lines@.len(),
            words@.len() == index,
            forall|i: int| 0 <= i < index ==> (#[trigger] words@[i])@ == entry_of(lines@[i]@),
        decreases lines@.len() - index,
    {
        words.push(to_uppercase(trim(lines[index].as_str())));
        index += 1;
    }
    words
}

/// Reads a word list from the text of a file: the text is trimmed and
/// cut at its line feeds, and each line becomes an entry.
pub fn parse_word_list(contents: &String) -> (words: Vec<String>)
    ensures
        words@.len() == lines_of(trimmed(contents@)).len(),
        forall|i: int|
            0 <= i < words@.len() ==> (#[trigger] words@[i])@ == entry_of(lines_of(trimmed(contents@))[i]),
{
    let lines = split_lines(trim(contents.as_str()));
    normalize_words(&lines)
}

} // verus!
