//! The line that a player types, key by key.

use vstd::prelude::*;
use vstd::string::*;
use crate::word::{letters, WORD_LEN};

verus! {

/// A key as the line editor sees it.
#[derive(Clone, Copy, Debug, PartialEq, Eq, Structural)]
pub enum Key {
    /// A character key.
    Char(char),
    /// The key that deletes the last character.
    Backspace,
    /// The key that submits the line.
    Enter,
    /// The key that leaves the game.
    Esc,
    /// Any other key.
    Other,
}

/// What a key did to the line.
#[derive(Clone, Copy, Debug, PartialEq, Eq, Structural)]
pub enum LineEvent {
    /// The line is to be shown again.
    Edited,
    /// The line is complete.
    Submitted,
    /// The player leaves.
    Quit,
    /// Nothing happened.
    Ignored,
}

/// `String::push` of the standard library: the character is appended.
#[verifier::external_body]
pub(crate) fn push_char(line: &mut String, c: char)
    ensures
        final(line)@ == old(line)@.push(c),
{
    line.push(c);
}

/// `String::pop` of the standard library: the last character is removed
/// and returned, if there is one.
#[verifier::external_body]
pub(crate) fn pop_char(line: &mut String) -> (last: Option<char>)
    ensures
        old(line)@.len() == 0 ==> last is None && final(line)@ == old(line)@,
        old(line)@.len() > 0 ==> last == Some(old(line)@.last()) && final(line)@ == old(line)@.drop_last(),
{
    line.pop()
}

/// The line after a key.
pub open spec fn line_after(line: &String, key: Key) -> Seq<char> {
    match key {
        Key::Char(c) => if letters(line).len() < WORD_LEN {
            line@.push(c)
        } else {
            line@
        },
        Key::Backspace => if line@.len() > 0 {
            line@.drop_last()
        } else {
            line@
        },
        _ => line@,
    }
}

/// What a key does to a line.
pub open spec fn event_of(line: &String, key: Key) -> LineEvent {
    match key {
        Key::Char(c) => if letters(line).len() < WORD_LEN {
            LineEvent::Edited
        } else {
            LineEvent::Ignored
        },
        Key::Backspace => LineEvent::Edited,
        Key::Enter => LineEvent::Submitted,
        Key::Esc => LineEvent::Quit,
        Key::Other => LineEvent::Ignored,
    }
}

/// Applies a key to the line being typed. A character is appended while
/// the line is shorter than a word; the delete key removes the last
/// character.
pub fn edit_line(line: &mut String, key: Key) -> (event: LineEvent)
    ensures
        final(line)@ == line_after(old(line), key),
        event == event_of(old(line), key),
{
    match key {
        Key::Char(c) => {
            if line.as_str().as_bytes().len() < WORD_LEN {
                push_char(line, c);
                LineEvent::Edited
            } else {
                LineEvent::Ignored
            }
        },
        Key::Backspace => {
            let _ = pop_char(line);
            LineEvent::Edited
        },
        Key::Enter => LineEvent::Submitted,
        Key::Esc => LineEvent::Quit,
        Key::Other => LineEvent::Ignored,
    }
}

/// The answer to the question whether another round is to be played.
#[derive(Clone, Copy, Debug, PartialEq, Eq, Structural)]
pub enum Reply {
    /// No key came in time.
    Silence,
    /// A character key.
    Char(char),
    /// Any other key.
    OtherKey,
}

/// Whether another round follows: never when the secret was given by the
/// options; else unless the player answers with a key other than `y` or
/// `Y`.
pub open spec fn plays_on(word_given: bool, reply: Reply) -> bool {
    !word_given && match reply {
        Reply::Silence => true,
        Reply::Char(c) => c == 'y' || c == 'Y',
        Reply::OtherKey => false,
    }
}

} // verus!
