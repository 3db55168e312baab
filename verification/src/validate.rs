//! The stricter rule of hard mode: a new guess keeps what the last one
//! revealed.

use vstd::prelude::*;
use vstd::string::*;
use crate::word::{letters, is_word, listed, word_basic_check, WORD_LEN};
use crate::vocabulary::contains_word;
use crate::feedback::{FeedbackSymbol, feedback, mismatches};
use crate::matching::{
    tally, claim_first, claims_cover, lemma_claims_start, lemma_claim_skip, lemma_claim_step,
    lemma_tally_monotone, lemma_tally_position,
};

verus! {

/// For each position, whether the feedback marks it `Present`.
pub open spec fn present_marks(state: Seq<FeedbackSymbol>) -> Seq<bool> {
    Seq::new(state.len(), |i: int| state[i] == FeedbackSymbol::Present)
}

/// For each position, whether the feedback leaves it free, that is, does
/// not mark it `Correct`.
pub open spec fn free_marks(state: Seq<FeedbackSymbol>) -> Seq<bool> {
    Seq::new(state.len(), |i: int| state[i] != FeedbackSymbol::Correct)
}

/// The rule of hard mode. Every letter that the last guess had `Correct`
/// stands at the same position of the new word. And for every letter, the
/// new word holds it at free positions at least as often as the last guess
/// had it marked `Present`.
pub open spec fn hard_mode_ok(word: Seq<u8>, last_state: Seq<FeedbackSymbol>, last_guess: Seq<u8>) -> bool {
    &&& forall|i: int|
        0 <= i < last_state.len() && #[trigger] last_state[i] == FeedbackSymbol::Correct ==> word[i]
            == last_guess[i]
    &&& forall|letter: u8| #[trigger]
        tally(last_guess, present_marks(last_state), letter, last_guess.len() as int) <= tally(
            word,
            free_marks(last_state),
            letter,
            word.len() as int,
        )
}

/// Checks a word against the last guess and its feedback by the rule of
/// hard mode. The `Correct` positions are claimed first; each `Present`
/// letter, from left to right, then claims the lowest position of the word
/// that holds it and is not claimed.
pub fn word_hard_check(word: &String, last_word_state: &Vec<FeedbackSymbol>, last_guess_word: &String) -> (ok:
    bool)
    requires
        letters(word).len() == WORD_LEN,
        letters(last_guess_word).len() == WORD_LEN,
        last_word_state@.len() == WORD_LEN,
    ensures
        ok == hard_mode_ok(letters(word), last_word_state@, letters(last_guess_word)),
{
    let word_assci: Vec<u8> = word.as_str().as_bytes_vec();
    let last_word_assci: Vec<u8> = last_guess_word.as_str().as_bytes_vec();
    let ghost new = letters(word);
    let ghost last = letters(last_guess_word);
    let ghost state = last_word_state@;
    let ghost free = free_marks(state);
    let ghost wanted = present_marks(state);

    let mut maped_index: Vec<bool> = Vec::new();
    let mut index: usize = 0;
    while index < WORD_LEN
        invariant
            index <= WORD_LEN,
            new == letters(word),
            last == letters(last_guess_word),
            word_assci@ == new,
            last_word_assci@ == last,
            last_word_state@ == state,
            new.len() == WORD_LEN,
            last.len() == WORD_LEN,
            state.len() == WORD_LEN,
            maped_index@.len() == index,
            forall|k: int| 0 <= k < index ==> #[trigger] maped_index@[k] == (state[k] == FeedbackSymbol::Correct),
            forall|k: int| 0 <= k < index && #[trigger] state[k] == FeedbackSymbol::Correct ==> new[k] == last[k],
        decreases WORD_LEN - index,
    {
        if last_word_state[index] == FeedbackSymbol::Correct {
            if word_assci[index] != last_word_assci[index] {
                assert(state[index as int] == FeedbackSymbol::Correct && new[index as int] != last[index as int]);
                return false;
            }
            maped_index.push(true);
        } else {
            maped_index.push(false);
        }
        index += 1;
    }

    proof {
        lemma_claims_start(new, free, last, wanted, maped_index@);
    }
    let mut index: usize = 0;
    while index < WORD_LEN
        invariant
            index <= WORD_LEN,
            new == letters(word),
            last == letters(last_guess_word),
            word_assci@ == new,
            last_word_assci@ == last,
            last_word_state@ == state,
            new.len() == WORD_LEN,
            last.len() == WORD_LEN,
            state.len() == WORD_LEN,
            free == free_marks(state),
            wanted == present_marks(state),
            claims_cover(new, free, last, wanted, index as int, maped_index@),
            forall|k: int|
                0 <= k < index && wanted[k] ==> #[trigger] tally(last, wanted, last[k], k) < tally(
                    new,
                    free,
                    last[k],
                    WORD_LEN as int,
                ),
        decreases WORD_LEN - index,
    {
        if last_word_state[index] == FeedbackSymbol::Present {
            let ghost before = maped_index@;
            let slot = claim_first(&word_assci, &mut maped_index, last_word_assci[index]);
            proof {
                lemma_claim_step(new, free, last, wanted, index as int, before, maped_index@, slot);
            }
            if slot.is_none() {
                proof {
                    let letter = last[index as int];
                    assert(tally(last, wanted, letter, index + 1) == tally(last, wanted, letter, index as int)
                        + 1);
                    lemma_tally_monotone(last, wanted, letter, index + 1, WORD_LEN as int);
                    assert(tally(last, wanted, letter, last.len() as int) > tally(
                        new,
                        free,
                        letter,
                        new.len() as int,
                    ));
                }
                return false;
            }
        } else {
            proof {
                lemma_claim_skip(new, free, last, wanted, index as int, maped_index@);
            }
        }
        index += 1;
    }
    proof {
        assert forall|letter: u8| #[trigger]
            tally(last, wanted, letter, last.len() as int) <= tally(new, free, letter, new.len() as int) by {
            let total = tally(last, wanted, letter, WORD_LEN as int);
            if total > 0 {
                let k = lemma_tally_position(last, wanted, letter, WORD_LEN as int, total - 1);
                assert(tally(last, wanted, last[k], k) < tally(new, free, last[k], WORD_LEN as int));
            }
        }
    }
    true
}

/// What makes a guess acceptable: it is a well-formed word, it is in the
/// vocabulary, and in hard mode, once a guess has been made, it keeps what
/// that guess revealed. An empty `last_guess` stands for no guess yet.
pub open spec fn is_valid_guess(
    word: &String,
    vocabulary: Seq<String>,
    hard_mode: bool,
    last_state: Seq<FeedbackSymbol>,
    last_guess: &String,
) -> bool {
    &&& is_word(letters(word))
    &&& listed(vocabulary, word)
    &&& hard_mode && last_guess@.len() > 0 ==> hard_mode_ok(letters(word), last_state, letters(last_guess))
}

/// Decides whether a guess is acceptable. A guess that is not is an
/// ordinary outcome: the answer is `false`.
pub fn check_guess(
    word: &String,
    vocabulary: &Vec<String>,
    hard_mode: bool,
    last_word_state: &Vec<FeedbackSymbol>,
    last_guess_word: &String,
) -> (ok: bool)
    requires
        hard_mode && last_guess_word@.len() > 0 ==> letters(last_guess_word).len() == WORD_LEN
            && last_word_state@.len() == WORD_LEN,
    ensures
        ok == is_valid_guess(word, vocabulary@, hard_mode, last_word_state@, last_guess_word),
{
    if !word_basic_check(word) {
        return false;
    }
    if hard_mode && !last_guess_word.as_str().is_empty() {
        if !word_hard_check(word, last_word_state, last_guess_word) {
            return false;
        }
    }
    contains_word(vocabulary, word)
}

/// Up to every position, the feedback marks a letter `Present` as often
/// as the guess holds it misplaced, but no more often than the secret
/// holds it misplaced.
proof fn lemma_present_split(secret: Seq<u8>, guess: Seq<u8>, letter: u8, n: int)
    requires
        secret.len() == guess.len(),
        0 <= n <= guess.len(),
    ensures
        ({
            let open = mismatches(secret, guess);
            let supply = tally(secret, open, letter, secret.len() as int);
            let wanted = tally(guess, open, letter, n);
            tally(guess, present_marks(feedback(secret, guess)), letter, n) == if wanted < supply {
                wanted
            } else {
                supply
            }
        }),
    decreases n,
{
    if n > 0 {
        lemma_present_split(secret, guess, letter, n - 1);
        lemma_tally_monotone(secret, mismatches(secret, guess), letter, n, secret.len() as int);
    }
}

/// A count of open positions depends on the marks of the counted
/// positions alone.
proof fn lemma_tally_same_marks(letters: Seq<u8>, a: Seq<bool>, b: Seq<bool>, letter: u8, n: int)
    requires
        forall|i: int| 0 <= i < n ==> a[i] == b[i],
    ensures
        tally(letters, a, letter, n) == tally(letters, b, letter, n),
    decreases n,
{
    if n > 0 {
        lemma_tally_same_marks(letters, a, b, letter, n - 1);
    }
}

/// Hard mode never rejects the secret: the secret keeps whatever the
/// feedback of a guess reveals of it.
pub proof fn lemma_secret_passes_hard_mode(secret: Seq<u8>, guess: Seq<u8>)
    requires
        secret.len() == guess.len(),
    ensures
        hard_mode_ok(secret, feedback(secret, guess), guess),
{
    let state = feedback(secret, guess);
    let n = guess.len() as int;
    assert forall|i: int| 0 <= i < state.len() && #[trigger] state[i] == FeedbackSymbol::Correct implies secret[i]
        == guess[i] by {}
    assert forall|letter: u8| #[trigger]
        tally(guess, present_marks(state), letter, guess.len() as int) <= tally(
            secret,
            free_marks(state),
            letter,
            secret.len() as int,
        ) by {
        lemma_present_split(secret, guess, letter, n);
        lemma_tally_same_marks(secret, free_marks(state), mismatches(secret, guess), letter, n);
    }
}

} // verus!
