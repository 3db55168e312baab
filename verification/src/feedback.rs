//! Scoring a guess against a secret, letter by letter.

use vstd::prelude::*;
use vstd::string::*;
use crate::word::{letters, is_word, is_letter, WORD_LEN};
use crate::matching::{
    tally, claim_first, claims_cover, lemma_claims_start, lemma_claim_skip, lemma_claim_step,
    lemma_tally_monotone,
};

verus! {

/// What one letter of a guess is told.
#[derive(Clone, Copy, Debug, PartialEq, Eq, Hash, Structural)]
pub enum FeedbackSymbol {
    /// The secret has no further occurrence of the letter to offer.
    Absent,
    /// The letter occurs in the secret, at another position.
    Present,
    /// The letter stands at this position of the secret.
    Correct,
}

impl FeedbackSymbol {
    /// The digit of a symbol: `Absent` 0, `Present` 1, `Correct` 2.
    pub open spec fn digit(self) -> nat {
        match self {
            FeedbackSymbol::Absent => 0,
            FeedbackSymbol::Present => 1,
            FeedbackSymbol::Correct => 2,
        }
    }

    /// The digit of a symbol: `Absent` 0, `Present` 1, `Correct` 2.
    pub fn value(self) -> (v: usize)
        ensures
            v == self.digit(),
    {
        match self {
            FeedbackSymbol::Absent => 0,
            FeedbackSymbol::Present => 1,
            FeedbackSymbol::Correct => 2,
        }
    }
}

/// For each position, whether the two words differ there.
pub open spec fn mismatches(secret: Seq<u8>, guess: Seq<u8>) -> Seq<bool> {
    Seq::new(guess.len(), |i: int| secret[i] != guess[i])
}

/// The symbol for position `i` of the guess. A letter at its place in the
/// secret is `Correct`. Any other letter is `Present` as long as the secret
/// holds more misplaced copies of it than the guess has misplaced copies of
/// it to the left of `i`, and `Absent` after that.
pub open spec fn symbol_at(secret: Seq<u8>, guess: Seq<u8>, i: int) -> FeedbackSymbol {
    let open = mismatches(secret, guess);
    if guess[i] == secret[i] {
        FeedbackSymbol::Correct
    } else if tally(guess, open, guess[i], i) < tally(secret, open, guess[i], secret.len() as int) {
        FeedbackSymbol::Present
    } else {
        FeedbackSymbol::Absent
    }
}

/// The feedback for a guess against a secret: one symbol per letter of the
/// guess.
pub open spec fn feedback(secret: Seq<u8>, guess: Seq<u8>) -> Seq<FeedbackSymbol> {
    Seq::new(guess.len(), |i: int| symbol_at(secret, guess, i))
}

/// The feedback of a guess that hit the secret: `Correct` five times.
pub open spec fn all_correct() -> Seq<FeedbackSymbol> {
    Seq::new(WORD_LEN as nat, |i: int| FeedbackSymbol::Correct)
}

/// Scores a guess against a secret. Letters at their place are marked
/// first; each remaining letter of the guess, from left to right, then
/// takes the lowest occurrence of itself in the secret that no letter has
/// taken, if one is left.
pub fn get_word_state(secret_word: &String, guess_word: &String) -> (word_state: Vec<FeedbackSymbol>)
    requires
        letters(secret_word).len() == WORD_LEN,
        letters(guess_word).len() == WORD_LEN,
    ensures
        word_state@ == feedback(letters(secret_word), letters(guess_word)),
{
    let secret_word_assci: Vec<u8> = secret_word.as_str().as_bytes_vec();
    let guess_word_assci: Vec<u8> = guess_word.as_str().as_bytes_vec();
    let ghost secret = letters(secret_word);
    let ghost guess = letters(guess_word);
    let ghost open = mismatches(secret, guess);

    let mut word_state: Vec<FeedbackSymbol> = Vec::new();
    let mut taken: Vec<bool> = Vec::new();
    let mut index: usize = 0;
    while index < WORD_LEN
        invariant
            index <= WORD_LEN,
            secret_word_assci@ == secret,
            guess_word_assci@ == guess,
            secret.len() == WORD_LEN,
            guess.len() == WORD_LEN,
            word_state@.len() == index,
            taken@.len() == index,
            forall|k: int| 0 <= k < index ==> #[trigger] taken@[k] == (secret[k] == guess[k]),
            forall|k: int|
                0 <= k < index ==> #[trigger] word_state@[k] == if secret[k] == guess[k] {
                    FeedbackSymbol::Correct
                } else {
                    FeedbackSymbol::Absent
                },
        decreases WORD_LEN - index,
    {
        if guess_word_assci[index] == secret_word_assci[index] {
            word_state.push(FeedbackSymbol::Correct);
            taken.push(true);
        } else {
            word_state.push(FeedbackSymbol::Absent);
            taken.push(false);
        }
        index += 1;
    }

    proof {
        lemma_claims_start(secret, open, guess, open, taken@);
    }
    let mut index: usize = 0;
    while index < WORD_LEN
        invariant
            index <= WORD_LEN,
            secret_word_assci@ == secret,
            guess_word_assci@ == guess,
            secret.len() == WORD_LEN,
            guess.len() == WORD_LEN,
            open == mismatches(secret, guess),
            word_state@.len() == WORD_LEN,
            claims_cover(secret, open, guess, open, index as int, taken@),
            forall|k: int| 0 <= k < index ==> #[trigger] word_state@[k] == symbol_at(secret, guess, k),
            forall|k: int|
                index <= k < WORD_LEN ==> #[trigger] word_state@[k] == if secret[k] == guess[k] {
                    FeedbackSymbol::Correct
                } else {
                    FeedbackSymbol::Absent
                },
        decreases WORD_LEN - index,
    {
        if guess_word_assci[index] != secret_word_assci[index] {
            let ghost before = taken@;
            let slot = claim_first(&secret_word_assci, &mut taken, guess_word_assci[index]);
            proof {
                lemma_claim_step(secret, open, guess, open, index as int, before, taken@, slot);
            }
            if slot.is_some() {
                word_state[index] = FeedbackSymbol::Present;
            }
        } else {
            proof {
                lemma_claim_skip(secret, open, guess, open, index as int, taken@);
            }
        }
        index += 1;
    }
    word_state
}

/// One entry per letter of the alphabet, `A` first.
pub const ALPHABET_LEN: usize = 26;

/// How much a letter's mark says: nothing known, then `Absent`, `Present`,
/// `Correct`.
pub open spec fn strength(mark: Option<FeedbackSymbol>) -> nat {
    match mark {
        None => 0,
        Some(symbol) => symbol.digit() + 1,
    }
}

/// The mark of a letter once the first `n` positions of a scored guess are
/// taken into account: the strongest of what was `known` and of the symbols
/// that the guess got at the positions where it holds the letter.
pub open spec fn letter_mark(
    known: Option<FeedbackSymbol>,
    guess: Seq<u8>,
    state: Seq<FeedbackSymbol>,
    letter: u8,
    n: int,
) -> Option<FeedbackSymbol>
    decreases n,
{
    if n <= 0 {
        known
    } else {
        let prior = letter_mark(known, guess, state, letter, n - 1);
        if guess[n - 1] == letter && strength(Some(state[n - 1])) > strength(prior) {
            Some(state[n - 1])
        } else {
            prior
        }
    }
}

/// Scores a guess and brings the per-letter marks up to date. Returns
/// whether the guess hit the secret.
pub fn compare_secret_guess(
    secret_word: &String,
    guess_word: &String,
    word_state: &mut Vec<FeedbackSymbol>,
    alphabet_state: &mut Vec<Option<FeedbackSymbol>>,
) -> (hit: bool)
    requires
        letters(secret_word).len() == WORD_LEN,
        is_word(letters(guess_word)),
        old(alphabet_state)@.len() >= ALPHABET_LEN,
    ensures
        final(word_state)@ == feedback(letters(secret_word), letters(guess_word)),
        hit == (final(word_state)@ == all_correct()),
        final(alphabet_state)@.len() == old(alphabet_state)@.len(),
        forall|k: int|
            0 <= k < old(alphabet_state)@.len() ==> #[trigger] final(alphabet_state)@[k] == if k
                < ALPHABET_LEN {
                letter_mark(
                    old(alphabet_state)@[k],
                    letters(guess_word),
                    feedback(letters(secret_word), letters(guess_word)),
                    (65 + k) as u8,
                    WORD_LEN as int,
                )
            } else {
                old(alphabet_state)@[k]
            },
{
    *word_state = get_word_state(secret_word, guess_word);
    let guess_word_assci: Vec<u8> = guess_word.as_str().as_bytes_vec();
    let ghost guess = letters(guess_word);
    let ghost state = word_state@;
    let mut count_equal: usize = 0;
    let mut index: usize = 0;
    while index < WORD_LEN
        invariant
            index <= WORD_LEN,
            guess_word_assci@ == guess,
            is_word(guess),
            word_state@ == state,
            state.len() == WORD_LEN,
            count_equal <= index,
            count_equal == index <==> forall|k: int| 0 <= k < index ==> state[k] == FeedbackSymbol::Correct,
            alphabet_state@.len() == old(alphabet_state)@.len(),
            alphabet_state@.len() >= ALPHABET_LEN,
            forall|k: int|
                0 <= k < alphabet_state@.len() ==> #[trigger] alphabet_state@[k] == if k < ALPHABET_LEN {
                    letter_mark(old(alphabet_state)@[k], guess, state, (65 + k) as u8, index as int)
                } else {
                    old(alphabet_state)@[k]
                },
        decreases WORD_LEN - index,
    {
        let guess_letter = guess_word_assci[index];
        assert(is_letter(guess[index as int]));
        let index_alphabet: usize = (guess_letter - 65) as usize;
        let ghost marks = alphabet_state@;
        match word_state[index] {
            FeedbackSymbol::Correct => {
                count_equal += 1;
                alphabet_state[index_alphabet] = Some(FeedbackSymbol::Correct);
            },
            FeedbackSymbol::Present => {
                match alphabet_state[index_alphabet] {
                    Some(FeedbackSymbol::Correct) => {},
                    _ => {
                        alphabet_state[index_alphabet] = Some(FeedbackSymbol::Present);
                    },
                }
            },
            FeedbackSymbol::Absent => {
                match alphabet_state[index_alphabet] {
                    Some(FeedbackSymbol::Correct) => {},
                    Some(FeedbackSymbol::Present) => {},
                    _ => {
                        alphabet_state[index_alphabet] = Some(FeedbackSymbol::Absent);
                    },
                }
            },
        }
        proof {
            assert forall|k: int| 0 <= k < alphabet_state@.len() implies #[trigger] alphabet_state@[k] == if k
                < ALPHABET_LEN {
                letter_mark(old(alphabet_state)@[k], guess, state, (65 + k) as u8, index + 1)
            } else {
                old(alphabet_state)@[k]
            } by {
                assert(alphabet_state@[k] == if k == index_alphabet {
                    alphabet_state@[index_alphabet as int]
                } else {
                    marks[k]
                });
            }
        }
        index += 1;
    }
    assert(count_equal == WORD_LEN ==> state =~= all_correct());
    count_equal == WORD_LEN
}

/// How many feedback patterns there are: three symbols at five positions.
pub const PATTERN_COUNT: usize = 243;

/// A feedback read as a number in base three, the leftmost symbol most
/// significant, with the digits `Absent` 0, `Present` 1, `Correct` 2.
pub open spec fn pattern_value(state: Seq<FeedbackSymbol>) -> nat
    decreases state.len(),
{
    if state.len() == 0 {
        0
    } else {
        3 * pattern_value(state.drop_last()) + state.last().digit()
    }
}

/// Three to the power `n`.
pub open spec fn pattern_limit(n: nat) -> nat
    decreases n,
{
    if n == 0 {
        1
    } else {
        3 * pattern_limit((n - 1) as nat)
    }
}

/// A feedback of `n` symbols has a value below three to the `n`.
pub proof fn lemma_pattern_value_bound(state: Seq<FeedbackSymbol>)
    ensures
        pattern_value(state) < pattern_limit(state.len()),
    decreases state.len(),
{
    if state.len() > 0 {
        lemma_pattern_value_bound(state.drop_last());
    }
}

/// Feedbacks of one length with one value are the same feedback.
pub proof fn lemma_pattern_value_injective(a: Seq<FeedbackSymbol>, b: Seq<FeedbackSymbol>)
    requires
        a.len() == b.len(),
        pattern_value(a) == pattern_value(b),
    ensures
        a == b,
    decreases a.len(),
{
    if a.len() > 0 {
        assert(a.last().digit() < 3 && b.last().digit() < 3);
        assert(a.last() == b.last());
        lemma_pattern_value_injective(a.drop_last(), b.drop_last());
        assert(a =~= a.drop_last().push(a.last()));
        assert(b =~= b.drop_last().push(b.last()));
    } else {
        assert(a =~= b);
    }
}

/// The number of the pattern that a feedback shows, from 0 to 242.
pub fn pattern_index(word_state: &Vec<FeedbackSymbol>) -> (index: usize)
    requires
        word_state@.len() == WORD_LEN,
    ensures
        index == pattern_value(word_state@),
        index < PATTERN_COUNT,
{
    let mut index: usize = 0;
    let mut i: usize = 0;
    while i < WORD_LEN
        invariant
            i <= WORD_LEN,
            word_state@.len() == WORD_LEN,
            index == pattern_value(word_state@.take(i as int)),
            index < pattern_limit(i as nat),
            pattern_limit(i as nat) <= PATTERN_COUNT,
            i < WORD_LEN ==> 3 * pattern_limit(i as nat) <= PATTERN_COUNT,
        decreases WORD_LEN - i,
    {
        proof {
            let longer = word_state@.take(i + 1);
            assert(longer.drop_last() =~= word_state@.take(i as int));
            assert(longer.last() == word_state@[i as int]);
            reveal_with_fuel(pattern_limit, 7);
        }
        index = index * 3 + word_state[i].value();
        i += 1;
    }
    assert(word_state@.take(WORD_LEN as int) =~= word_state@);
    index
}

/// How often a word holds a letter.
pub open spec fn occurrences(word: Seq<u8>, letter: u8) -> nat {
    tally(word, Seq::new(word.len(), |i: int| true), letter, word.len() as int)
}

/// At how many positions a guess holds a letter and is marked `Correct` or
/// `Present` there.
pub open spec fn marked(state: Seq<FeedbackSymbol>, guess: Seq<u8>, letter: u8) -> nat {
    tally(guess, Seq::new(state.len(), |i: int| state[i] != FeedbackSymbol::Absent), letter, guess.len() as int)
}

/// A secret holds every letter at least as often as the feedback marks it
/// `Correct` or `Present` in the guess.
pub proof fn lemma_marks_within_secret(secret: Seq<u8>, guess: Seq<u8>, letter: u8)
    requires
        secret.len() == guess.len(),
    ensures
        marked(feedback(secret, guess), guess, letter) <= occurrences(secret, letter),
{
    lemma_marks_split(secret, guess, letter, guess.len() as int);
}

/// Up to every position: the guess and the secret hold a letter equally
/// often at the places where they agree; the secret holds it at those
/// places and at the others; and the guess has it marked at those places
/// and, at the others, as often as it holds it there, but no more often
/// than the secret does.
proof fn lemma_marks_split(secret: Seq<u8>, guess: Seq<u8>, letter: u8, n: int)
    requires
        secret.len() == guess.len(),
        0 <= n <= guess.len(),
    ensures
        ({
            let state = feedback(secret, guess);
            let open = mismatches(secret, guess);
            let shut = Seq::new(guess.len(), |i: int| !open[i]);
            let noted = Seq::new(state.len(), |i: int| state[i] != FeedbackSymbol::Absent);
            let whole = Seq::new(secret.len(), |i: int| true);
            let supply = tally(secret, open, letter, secret.len() as int);
            let wanted = tally(guess, open, letter, n);
            &&& tally(guess, shut, letter, n) == tally(secret, shut, letter, n)
            &&& tally(secret, whole, letter, n) == tally(secret, shut, letter, n) + tally(secret, open, letter, n)
            &&& tally(guess, noted, letter, n) == tally(guess, shut, letter, n) + if wanted < supply {
                wanted
            } else {
                supply
            }
        }),
    decreases n,
{
    if n > 0 {
        lemma_marks_split(secret, guess, letter, n - 1);
        lemma_tally_monotone(secret, mismatches(secret, guess), letter, n, secret.len() as int);
    }
}

/// Scoring a word against itself gives `Correct` at every position.
pub proof fn lemma_feedback_of_secret(word: Seq<u8>)
    requires
        word.len() == WORD_LEN,
    ensures
        feedback(word, word) == all_correct(),
{
    assert(feedback(word, word) =~= all_correct());
}

/// Only the secret itself is scored `Correct` at every position.
pub proof fn lemma_all_correct_is_secret(secret: Seq<u8>, guess: Seq<u8>)
    requires
        secret.len() == WORD_LEN,
        guess.len() == WORD_LEN,
        feedback(secret, guess) == all_correct(),
    ensures
        secret == guess,
{
    assert forall|i: int| 0 <= i < WORD_LEN implies secret[i] == guess[i] by {
        assert(feedback(secret, guess)[i] == FeedbackSymbol::Correct);
    }
    assert(secret =~= guess);
}

} // verus!
