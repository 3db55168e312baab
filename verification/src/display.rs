//! What the screen shows: the rows of guesses, the message, and the marks
//! of the keyboard.

use vstd::prelude::*;
use vstd::string::*;
use crate::word::{letters, WORD_LEN};
use crate::feedback::{FeedbackSymbol, ALPHABET_LEN};

verus! {

/// The contents of the screen.
#[derive(Clone, Debug, PartialEq, Eq)]
pub struct App {
    /// The guesses, one per row.
    pub guess_words: Vec<String>,
    /// The marks of each row; `None` for a letter not scored.
    pub word_states: Vec<Vec<Option<FeedbackSymbol>>>,
    /// The message above the rows.
    pub message: String,
    /// The mark of each letter of the keyboard, `A` first.
    pub alphabet_state: Vec<Option<FeedbackSymbol>>,
}

/// A keyboard on which no letter has a mark.
pub open spec fn blank_keyboard() -> Seq<Option<FeedbackSymbol>> {
    Seq::new(ALPHABET_LEN as nat, |i: int| None::<FeedbackSymbol>)
}

/// The byte shown where a row has no letter.
pub const BLANK: u8 = 45;

/// The cell at position `i` of a row: the letter and its mark, or a blank
/// without a mark where the row ends before.
pub open spec fn cell_at(word: Seq<u8>, state: Seq<Option<FeedbackSymbol>>, i: int) -> (u8, Option<FeedbackSymbol>) {
    (
        if i < word.len() {
            word[i]
        } else {
            BLANK
        },
        if i < state.len() {
            state[i]
        } else {
            None
        },
    )
}

/// Makes a keyboard on which no letter has a mark.
pub fn new_keyboard() -> (keys: Vec<Option<FeedbackSymbol>>)
    ensures
        keys@ == blank_keyboard(),
{
    let mut keys: Vec<Option<FeedbackSymbol>> = Vec::new();
    let mut index: usize = 0;
    while index < ALPHABET_LEN
        invariant
            index <= ALPHABET_LEN,
            keys@.len() == index,
            forall|i: int| 0 <= i < index ==> #[trigger] keys@[i] == None::<FeedbackSymbol>,
        decreases ALPHABET_LEN - index,
    {
        keys.push(None);
        index += 1;
    }
    assert(keys@ =~= blank_keyboard());
    keys
}

/// The five cells of a row, padded with blanks.
pub fn board_row(word: &String, state: &Vec<Option<FeedbackSymbol>>) -> (row: Vec<(u8, Option<FeedbackSymbol>)>)
    ensures
        row@.len() == WORD_LEN,
        forall|i: int| 0 <= i < WORD_LEN ==> #[trigger] row@[i] == cell_at(letters(word), state@, i),
{
    let bytes = word.as_str().as_bytes();
    let mut row: Vec<(u8, Option<FeedbackSymbol>)> = Vec::new();
    let mut index: usize = 0;
    while index < WORD_LEN
        invariant
            index <= WORD_LEN,
            bytes@ == letters(word),
            row@.len() == index,
            forall|i: int| 0 <= i < index ==> #[trigger] row@[i] == cell_at(letters(word), state@, i),
        decreases WORD_LEN - index,
    {
        let letter = if index < bytes.len() {
            bytes[index]
        } else {
            BLANK
        };
        let mark = if index < state.len() {
            state[index]
        } else {
            None
        };
        row.push((letter, mark));
        index += 1;
    }
    row
}

impl App {
    /// The screen before the first round.
    pub fn new() -> (app: App)
        ensures
            app.guess_words@.len() == 0,
            app.word_states@.len() == 0,
            app.message@ == "Welcome to Wordle!\nPlease input word:"@,
            app.alphabet_state@ == blank_keyboard(),
    {
        App {
            guess_words: Vec::new(),
            word_states: Vec::new(),
            message: String::from_str("Welcome to Wordle!\nPlease input word:"),
            alphabet_state: new_keyboard(),
        }
    }
}

} // verus!
