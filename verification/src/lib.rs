//! A five-letter word-guessing game: scoring a guess against a secret,
//! gating guesses, narrowing the pool of secrets that are still possible,
//! and ranking next guesses by how evenly they split that pool.
//!
//! The rules of the game are in `feedback`, `validate`, `filter`,
//! `recommend` and `round`; `matching` holds the counting that the first
//! two share. Around them stand the word lists (`word`, `text`,
//! `vocabulary`, `shuffle`, `server`), the options (`cli`), the record of
//! the player (`player`), and what a front end needs to take keys and
//! draw rows (`input`, `display`).

pub mod word;
pub mod text;
pub mod matching;
pub mod feedback;
pub mod validate;
pub mod filter;
pub mod recommend;
pub mod round;
pub mod vocabulary;
pub mod shuffle;
pub mod cli;
pub mod server;
pub mod player;
pub mod input;
pub mod display;
