//! One round: a secret, the guesses made against it, and how it ends.

use vstd::prelude::*;
use vstd::string::*;
use vstd::utf8::*;
use crate::word::{letters, is_word, all_words, listed, WORD_LEN};
use crate::feedback::{
    FeedbackSymbol, feedback, all_correct, letter_mark, compare_secret_guess, ALPHABET_LEN,
};
use crate::filter::{candidates_left, filter_candidates, lemma_candidates_left_in_pool, lemma_secret_stays};
use crate::vocabulary::is_sublist;
use crate::validate::{hard_mode_ok, check_guess};
use crate::display::{blank_keyboard, new_keyboard};

verus! {

/// A round ends with the guess that hits the secret, or with this many
/// guesses.
pub const GUESS_BUDGET: usize = 6;

/// Where a round stands.
#[derive(Clone, Copy, Debug, PartialEq, Eq, Structural)]
pub enum RoundStatus {
    /// Guesses are taken.
    Playing,
    /// The secret was hit.
    Won,
    /// The guesses are used up.
    Lost,
}

/// An accepted guess with the feedback it got.
#[derive(Clone, Debug, PartialEq, Eq)]
pub struct GuessRecord {
    pub guess: String,
    pub feedback: Vec<FeedbackSymbol>,
}

/// The state of a round.
#[derive(Clone, Debug, PartialEq, Eq)]
pub struct Round {
    /// The word to be found.
    pub secret: String,
    /// The accepted guesses, in order.
    pub history: Vec<GuessRecord>,
    /// The words that can still be the secret.
    pub pool: Vec<String>,
    /// The mark of each letter, `A` first.
    pub keyboard: Vec<Option<FeedbackSymbol>>,
    /// Where the round stands.
    pub status: RoundStatus,
}

/// Where a round stands after a guess with the given feedback, the
/// `count`-th of the round.
pub open spec fn status_after(state: Seq<FeedbackSymbol>, count: int) -> RoundStatus {
    if state == all_correct() {
        RoundStatus::Won
    } else if count >= GUESS_BUDGET {
        RoundStatus::Lost
    } else {
        RoundStatus::Playing
    }
}

impl Round {
    /// The round is sound: the secret has the length of a word, the pool
    /// holds words, every guess of the history is a word and carries the
    /// feedback that the secret gives it, and the status is what the
    /// history makes it.
    pub open spec fn wf(&self) -> bool {
        &&& letters(&self.secret).len() == WORD_LEN
        &&& all_words(self.pool@)
        &&& self.keyboard@.len() == ALPHABET_LEN
        &&& self.history@.len() <= GUESS_BUDGET
        &&& forall|i: int|
            0 <= i < self.history@.len() ==> is_word(letters(&(#[trigger] self.history@[i]).guess))
                && self.history@[i].feedback@ == feedback(letters(&self.secret), letters(&self.history@[i].guess))
        &&& self.status == if self.history@.len() == 0 {
            RoundStatus::Playing
        } else {
            status_after(self.history@.last().feedback@, self.history@.len() as int)
        }
    }

    /// Whether the round takes the word as its next guess: it is being
    /// played, the word is well-formed and in the vocabulary, and in hard
    /// mode the word keeps what the last guess revealed.
    pub open spec fn accepts(&self, word: &String, vocabulary: Seq<String>, hard_mode: bool) -> bool {
        &&& self.status == RoundStatus::Playing
        &&& is_word(letters(word))
        &&& listed(vocabulary, word)
        &&& hard_mode && self.history@.len() > 0 ==> hard_mode_ok(
            letters(word),
            self.history@.last().feedback@,
            letters(&self.history@.last().guess),
        )
    }

    /// A round about to begin: no guess made, every word of the pool
    /// possible.
    pub fn new(secret: String, pool: Vec<String>) -> (round: Round)
        requires
            letters(&secret).len() == WORD_LEN,
            all_words(pool@),
        ensures
            round.wf(),
            round.secret == secret,
            round.pool == pool,
            round.history@.len() == 0,
            round.keyboard@ == blank_keyboard(),
            round.status == RoundStatus::Playing,
    {
        Round { secret, history: Vec::new(), pool, keyboard: new_keyboard(), status: RoundStatus::Playing }
    }

    /// Offers a word as the next guess. A word that the round does not
    /// accept changes nothing, and `None` is returned. An accepted word is
    /// scored against the secret: the guess and its feedback join the
    /// history, the pool keeps the words consistent with them, the marks
    /// of the keyboard are brought up to date, and the round is won with
    /// the guess that hits the secret, lost with the sixth guess that
    /// does not.
    pub fn guess(&mut self, word: &String, vocabulary: &Vec<String>, hard_mode: bool) -> (result: Option<
        Vec<FeedbackSymbol>,
    >)
        requires
            old(self).wf(),
        ensures
            final(self).wf(),
            final(self).secret == old(self).secret,
            result is Some <==> old(self).accepts(word, vocabulary@, hard_mode),
            result is None ==> *final(self) == *old(self),
            final(self).pool@.len() <= old(self).pool@.len(),
            is_sublist(final(self).pool@, old(self).pool@),
            listed(old(self).pool@, &old(self).secret) ==> listed(final(self).pool@, &final(self).secret),
            result matches Some(state) ==> {
                &&& state@ == feedback(letters(&old(self).secret), letters(word))
                &&& final(self).history@.len() == old(self).history@.len() + 1
                &&& forall|i: int|
                    0 <= i < old(self).history@.len() ==> #[trigger] final(self).history@[i] == old(self).history@[i]
                &&& final(self).history@.last().guess@ == word@
                &&& final(self).history@.last().feedback@ == state@
                &&& final(self).pool@ == candidates_left(old(self).pool@, letters(word), state@)
                &&& final(self).status == status_after(state@, final(self).history@.len() as int)
                &&& forall|k: int|
                    0 <= k < ALPHABET_LEN ==> #[trigger] final(self).keyboard@[k] == letter_mark(
                        old(self).keyboard@[k],
                        letters(word),
                        state@,
                        (65 + k) as u8,
                        WORD_LEN as int,
                    )
            },
    {
        proof {
            lemma_pool_in_itself(self.pool@);
        }
        match self.status {
            RoundStatus::Playing => {},
            _ => {
                return None;
            },
        }
        let count = self.history.len();
        let ok = if count == 0 {
            let none = String::new();
            let no_state: Vec<FeedbackSymbol> = Vec::new();
            check_guess(word, vocabulary, hard_mode, &no_state, &none)
        } else {
            let last = &self.history[count - 1];
            proof {
                assert(is_word(letters(&self.history@[count - 1].guess)));
                if last.guess@.len() == 0 {
                    assert(encode_utf8(last.guess@) =~= Seq::<u8>::empty());
                }
            }
            check_guess(word, vocabulary, hard_mode, &last.feedback, &last.guess)
        };
        if !ok {
            return None;
        }
        let mut state: Vec<FeedbackSymbol> = Vec::new();
        let hit = compare_secret_guess(&self.secret, word, &mut state, &mut self.keyboard);
        self.pool = filter_candidates(&self.pool, word, &state);
        let kept = copy_state(&state);
        self.history.push(GuessRecord { guess: word.clone(), feedback: kept });
        self.status = if hit {
            RoundStatus::Won
        } else if self.history.len() >= GUESS_BUDGET {
            RoundStatus::Lost
        } else {
            RoundStatus::Playing
        };
        proof {
            lemma_candidates_left_in_pool(old(self).pool@, letters(word), state@);
            if listed(old(self).pool@, &old(self).secret) {
                lemma_secret_stays(old(self).pool@, &old(self).secret, letters(word));
            }
            assert forall|i: int| 0 <= i < self.history@.len() implies is_word(
                letters(&(#[trigger] self.history@[i]).guess),
            ) && self.history@[i].feedback@ == feedback(letters(&self.secret), letters(&self.history@[i].guess)) by {
                if i < count {
                    assert(self.history@[i] == old(self).history@[i]);
                }
            }
        }
        Some(state)
    }
}

/// A feedback, copied.
pub fn copy_state(state: &Vec<FeedbackSymbol>) -> (copy: Vec<FeedbackSymbol>)
    ensures
        copy@ == state@,
{
    let mut copy: Vec<FeedbackSymbol> = Vec::new();
    let mut index: usize = 0;
    while index < state.len()
        invariant
            index <= state@.len(),
            copy@ == state@.take(index as int),
        decreases state@.len() - index,
    {
        copy.push(state[index]);
        proof {
            assert(copy@ =~= state@.take(index + 1));
        }
        index += 1;
    }
    proof {
        assert(state@.take(state@.len() as int) =~= state@);
    }
    copy
}

/// Every word of a list occurs in the list.
proof fn lemma_pool_in_itself(pool: Seq<String>)
    ensures
        is_sublist(pool, pool),
{
    assert forall|i: int| 0 <= i < pool.len() implies #[trigger] listed(pool, &pool[i]) by {
        assert(pool[i]@ == pool[i]@);
    }
}

} // verus!
