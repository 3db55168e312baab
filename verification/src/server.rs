//! The game's side of a round: the vocabulary, the secret, and the words
//! that can still be the secret.

use vstd::prelude::*;
use vstd::string::*;
use vstd::seq_lib::*;
use crate::cli::Cli;
use crate::word::{letters, is_word, all_words, listed, WORD_LEN};
use crate::feedback::FeedbackSymbol;
use crate::filter::{is_consistent, word_perfect_check, consistent_with_history, candidates_after};
use crate::validate::{is_valid_guess, check_guess};
use crate::recommend::{is_ranking, rank_order};
use crate::shuffle::{seeded_rng, shuffle_words};
use crate::text::{ascii_uppercase, trimmed, trim, make_ascii_uppercase};
use crate::vocabulary::{
    has_duplicate, is_sublist, same_words, ascending, list_fault, checked_order, arranged,
    is_subset, lemma_arranged_same_words, lemma_arranged_duplicates, WordListError,
};

verus! {

/// The vocabulary and the secret of the rounds of a game.
#[derive(Clone, Debug, PartialEq, Eq)]
pub struct Server {
    /// The secret of the round being played.
    pub answer: String,
    /// The words a secret is drawn from, in the order of the days.
    pub final_words: Vec<String>,
    /// The words that may be guessed, in dictionary order.
    pub acceptable_words: Vec<String>,
    /// The day of the next secret to draw, counted from 1.
    pub rounds: i32,
    /// The acceptable words that can still be the secret.
    pub possible_answer: Vec<String>,
}

/// What is wrong with the two word lists of a game.
#[derive(Clone, Copy, Debug, PartialEq, Eq, Structural)]
pub enum VocabularyError {
    /// A final word stands in its list twice.
    FinalDuplicate,
    /// An entry of the final list is not a word.
    FinalMalformed,
    /// An acceptable word stands in its list twice.
    AcceptableDuplicate,
    /// An entry of the acceptable list is not a word.
    AcceptableMalformed,
    /// A final word is not acceptable.
    NotSubset,
}

/// What is wrong with the two word lists, if anything: the final list is
/// judged first, then the acceptable list, then the one against the other.
pub open spec fn vocabulary_fault(final_words: Seq<String>, acceptable_words: Seq<String>) -> Option<
    VocabularyError,
> {
    match list_fault(final_words) {
        Some(WordListError::Duplicate) => Some(VocabularyError::FinalDuplicate),
        Some(WordListError::Malformed) => Some(VocabularyError::FinalMalformed),
        None => match list_fault(acceptable_words) {
            Some(WordListError::Duplicate) => Some(VocabularyError::AcceptableDuplicate),
            Some(WordListError::Malformed) => Some(VocabularyError::AcceptableMalformed),
            None => if is_sublist(final_words, acceptable_words) {
                None
            } else {
                Some(VocabularyError::NotSubset)
            },
        },
    }
}

/// The text that becomes the secret of the next round, before it is put
/// in upper case: the final word of the day in random mode, else the word
/// of the options, else what was typed, trimmed.
pub open spec fn secret_source(server: Server, cli: Cli, typed: Seq<char>) -> Seq<char> {
    if cli.random {
        server.final_words@[server.rounds - 1]@
    } else if cli.word is Some {
        cli.word->0@
    } else {
        trimmed(typed)
    }
}

/// A list that holds the same strings as another, each as often, holds
/// the same words, and what holds of every word of the one holds of every
/// word of the other.
proof fn lemma_shuffled_list(before: Seq<String>, after: Seq<String>)
    requires
        before.to_multiset() == after.to_multiset(),
    ensures
        same_words(after, before),
        all_words(before) ==> all_words(after),
        !has_duplicate(before) ==> !has_duplicate(after),
{
    to_multiset_len(before);
    to_multiset_len(after);
    assert forall|i: int| 0 <= i < after.len() implies before.contains(#[trigger] after[i]) by {
        assert(after.contains(after[i]));
        to_multiset_contains(after, after[i]);
        to_multiset_contains(before, after[i]);
    }
    assert forall|i: int| 0 <= i < before.len() implies after.contains(#[trigger] before[i]) by {
        assert(before.contains(before[i]));
        to_multiset_contains(before, before[i]);
        to_multiset_contains(after, before[i]);
    }
    assert forall|i: int| 0 <= i < after.len() implies #[trigger] listed(before, &after[i]) by {
        let j = choose|j: int| 0 <= j < before.len() && before[j] == after[i];
        assert(before[j]@ == after[i]@);
    }
    assert forall|i: int| 0 <= i < before.len() implies #[trigger] listed(after, &before[i]) by {
        let j = choose|j: int| 0 <= j < after.len() && after[j] == before[i];
        assert(after[j]@ == before[i]@);
    }
    if all_words(before) {
        assert forall|i: int| 0 <= i < after.len() implies is_word(letters(#[trigger] &after[i])) by {
            let j = choose|j: int| 0 <= j < before.len() && before[j] == after[i];
            assert(is_word(letters(&before[j])));
        }
    }
    if !has_duplicate(before) {
        assert forall|i: int, j: int| 0 <= i < before.len() && 0 <= j < before.len() && i != j implies before[i]
            != before[j] by {
            if i < j {
                assert((#[trigger] before[i])@ != (#[trigger] before[j])@);
            } else {
                assert((#[trigger] before[j])@ != (#[trigger] before[i])@);
            }
        }
        before.lemma_multiset_has_no_duplicates();
        after.lemma_multiset_has_no_duplicates_conv();
        if has_duplicate(after) {
            let (p, q) = choose|p: int, q: int|
                0 <= p < q < after.len() && (#[trigger] after[p])@ == (#[trigger] after[q])@;
            let i = choose|i: int| 0 <= i < before.len() && before[i] == after[p];
            let j = choose|j: int| 0 <= j < before.len() && before[j] == after[q];
            assert(after[p] != after[q]);
            if i < j {
                assert((#[trigger] before[i])@ == (#[trigger] before[j])@);
            } else {
                assert((#[trigger] before[j])@ == (#[trigger] before[i])@);
            }
        }
    }
}

/// Lists that hold the same words as a third hold the same words as each
/// other, and a sublist of the one is a sublist of the other.
proof fn lemma_same_words_chain(a: Seq<String>, b: Seq<String>, c: Seq<String>)
    requires
        same_words(a, b),
        same_words(b, c),
    ensures
        same_words(a, c),
{
    assert forall|i: int| 0 <= i < a.len() implies #[trigger] listed(c, &a[i]) by {
        assert(listed(b, &a[i]));
        let j = choose|j: int| 0 <= j < b.len() && (#[trigger] b[j])@ == a[i]@;
        assert(listed(c, &b[j]));
        let k = choose|k: int| 0 <= k < c.len() && (#[trigger] c[k])@ == b[j]@;
        assert(c[k]@ == a[i]@);
    }
    assert forall|i: int| 0 <= i < c.len() implies #[trigger] listed(a, &c[i]) by {
        assert(listed(b, &c[i]));
        let j = choose|j: int| 0 <= j < b.len() && (#[trigger] b[j])@ == c[i]@;
        assert(listed(a, &b[j]));
        let k = choose|k: int| 0 <= k < a.len() && (#[trigger] a[k])@ == b[j]@;
        assert(a[k]@ == c[i]@);
    }
}

/// A list whose words all occur in a second list is a sublist of every
/// list that holds the words of the second.
proof fn lemma_sublist_chain(a: Seq<String>, b: Seq<String>, c: Seq<String>)
    requires
        is_sublist(a, b),
        is_sublist(b, c),
    ensures
        is_sublist(a, c),
{
    assert forall|i: int| 0 <= i < a.len() implies #[trigger] listed(c, &a[i]) by {
        assert(listed(b, &a[i]));
        let j = choose|j: int| 0 <= j < b.len() && (#[trigger] b[j])@ == a[i]@;
        assert(listed(c, &b[j]));
        let k = choose|k: int| 0 <= k < c.len() && (#[trigger] c[k])@ == b[j]@;
        assert(c[k]@ == a[i]@);
    }
}

impl Server {
    /// The vocabulary is sound: every word of the two lists is
    /// well-formed, and every final word is acceptable.
    pub open spec fn wf(&self) -> bool {
        &&& all_words(self.final_words@)
        &&& all_words(self.acceptable_words@)
        &&& is_sublist(self.final_words@, self.acceptable_words@)
    }

    /// A server without words, about to begin with the day of the options.
    pub fn new(cli: &Cli) -> (server: Server)
        requires
            cli.day is Some,
        ensures
            server.answer@.len() == 0,
            server.final_words@.len() == 0,
            server.acceptable_words@.len() == 0,
            server.possible_answer@.len() == 0,
            server.rounds == cli.day->0,
            server.wf(),
    {
        Server {
            answer: String::new(),
            final_words: Vec::new(),
            acceptable_words: Vec::new(),
            rounds: cli.day.unwrap(),
            possible_answer: Vec::new(),
        }
    }

    /// Takes the two word lists of the game. They are checked first: no
    /// word twice, every entry a word, every final word acceptable. Then
    /// both are put in dictionary order, and the final words are shuffled
    /// with the seed of the options.
    pub fn word_list_process(&mut self, cli: &Cli, final_words: &Vec<String>, acceptable_words: &Vec<String>) -> (result:
        Result<(), VocabularyError>)
        requires
            cli.seed is Some,
        ensures
            result == match vocabulary_fault(final_words@, acceptable_words@) {
                Some(e) => Err::<(), VocabularyError>(e),
                None => Ok(()),
            },
            result is Err ==> *final(self) == *old(self),
            result is Ok ==> {
                &&& final(self).wf()
                &&& same_words(final(self).final_words@, final_words@)
                &&& !has_duplicate(final(self).final_words@)
                &&& same_words(final(self).acceptable_words@, acceptable_words@)
                &&& ascending(final(self).acceptable_words@)
                &&& final(self).answer == old(self).answer
                &&& final(self).rounds == old(self).rounds
                &&& final(self).possible_answer == old(self).possible_answer
            },
    {
        let final_order = match checked_order(final_words) {
            Err(WordListError::Duplicate) => {
                return Err(VocabularyError::FinalDuplicate);
            },
            Err(WordListError::Malformed) => {
                return Err(VocabularyError::FinalMalformed);
            },
            Ok(order) => order,
        };
        let acceptable_order = match checked_order(acceptable_words) {
            Err(WordListError::Duplicate) => {
                return Err(VocabularyError::AcceptableDuplicate);
            },
            Err(WordListError::Malformed) => {
                return Err(VocabularyError::AcceptableMalformed);
            },
            Ok(order) => order,
        };
        if !is_subset(final_words, acceptable_words) {
            return Err(VocabularyError::NotSubset);
        }
        let sorted_acceptable = arranged(acceptable_words, &acceptable_order);
        let mut sorted_final = arranged(final_words, &final_order);
        let ghost in_order = sorted_final@;
        proof {
            assert(acceptable_words@.len() == acceptable_words.len());
            assert(final_words@.len() == final_words.len());
            lemma_arranged_same_words(acceptable_words@, acceptable_order@, sorted_acceptable@);
            lemma_arranged_same_words(final_words@, final_order@, sorted_final@);
            lemma_arranged_duplicates(final_words@, final_order@, sorted_final@);
        }
        let mut rng = seeded_rng(cli.seed.unwrap());
        shuffle_words(&mut sorted_final, &mut rng);
        proof {
            lemma_shuffled_list(in_order, sorted_final@);
            lemma_same_words_chain(sorted_final@, in_order, final_words@);
            lemma_sublist_chain(sorted_final@, final_words@, acceptable_words@);
            lemma_sublist_chain(sorted_final@, acceptable_words@, sorted_acceptable@);
        }
        self.acceptable_words = sorted_acceptable;
        self.final_words = sorted_final;
        Ok(())
    }

    /// Whether the secret of the next round has to be typed in: it is
    /// neither drawn nor given by the options.
    pub fn needs_typed_secret(cli: &Cli) -> (needed: bool)
        ensures
            needed == (!cli.random && cli.word is None),
    {
        !cli.random && cli.word.is_none()
    }

    /// Sets the secret of the next round: in random mode the final word of
    /// the day, after which the day advances; else the word of the
    /// options; else the typed text, trimmed. The secret is put in upper
    /// case.
    pub fn init_secret_word(&mut self, cli: &Cli, typed: &String)
        requires
            cli.random ==> 1 <= old(self).rounds <= old(self).final_words@.len() && old(self).rounds < i32::MAX,
        ensures
            final(self).answer@ == ascii_uppercase(secret_source(*old(self), *cli, typed@)),
            final(self).rounds == if cli.random {
                old(self).rounds + 1
            } else {
                old(self).rounds as int
            },
            final(self).final_words == old(self).final_words,
            final(self).acceptable_words == old(self).acceptable_words,
            final(self).possible_answer == old(self).possible_answer,
    {
        if cli.random {
            let day: usize = self.rounds as usize;
            self.answer = self.final_words[day - 1].clone();
            self.rounds += 1;
        } else {
            match &cli.word {
                Some(word) => {
                    self.answer = word.clone();
                },
                None => {
                    self.answer = trim(typed.as_str()).to_owned();
                },
            }
        }
        make_ascii_uppercase(&mut self.answer);
    }

    /// Decides whether a guess is acceptable: a well-formed word of the
    /// vocabulary that, in hard mode, keeps what the last guess revealed.
    /// An empty `last_guess_word` stands for no guess yet.
    pub fn is_valid(
        &self,
        word: &String,
        last_word_state: &Vec<FeedbackSymbol>,
        last_guess_word: &String,
        is_hard: bool,
    ) -> (ok: bool)
        requires
            is_hard && last_guess_word@.len() > 0 ==> letters(last_guess_word).len() == WORD_LEN
                && last_word_state@.len() == WORD_LEN,
        ensures
            ok == is_valid_guess(word, self.acceptable_words@, is_hard, last_word_state@, last_guess_word),
    {
        check_guess(word, &self.acceptable_words, is_hard, last_word_state, last_guess_word)
    }

    /// Works out the acceptable words that can still be the secret: those
    /// consistent with every guess made and the feedback it got.
    pub fn get_all_possible_answers(&mut self, word_states: &Vec<Vec<FeedbackSymbol>>, guess_words: &Vec<String>)
        requires
            all_words(old(self).acceptable_words@),
            guess_words@.len() <= word_states@.len(),
            forall|i: int| 0 <= i < guess_words@.len() ==> letters(#[trigger] &guess_words@[i]).len() == WORD_LEN,
        ensures
            final(self).possible_answer@ == candidates_after(old(self).acceptable_words@, guess_words@, word_states@),
            final(self).answer == old(self).answer,
            final(self).rounds == old(self).rounds,
            final(self).final_words == old(self).final_words,
            final(self).acceptable_words == old(self).acceptable_words,
    {
        let ghost keep = |w: String| consistent_with_history(letters(&w), guess_words@, word_states@);
        let mut possible: Vec<String> = Vec::new();
        let mut index: usize = 0;
        while index < self.acceptable_words.len()
            invariant
                index <= self.acceptable_words@.len(),
                *self == *old(self),
                all_words(self.acceptable_words@),
                guess_words@.len() <= word_states@.len(),
                forall|i: int| 0 <= i < guess_words@.len() ==> letters(#[trigger] &guess_words@[i]).len() == WORD_LEN,
                keep == |w: String| consistent_with_history(letters(&w), guess_words@, word_states@),
                possible@ == self.acceptable_words@.take(index as int).filter(keep),
            decreases self.acceptable_words@.len() - index,
        {
            let acceptable_word = &self.acceptable_words[index];
            let mut all_meet = true;
            let mut i: usize = 0;
            while i < guess_words.len() && all_meet
                invariant
                    i <= guess_words@.len(),
                    guess_words@.len() <= word_states@.len(),
                    letters(acceptable_word).len() == WORD_LEN,
                    forall|k: int|
                        0 <= k < guess_words@.len() ==> letters(#[trigger] &guess_words@[k]).len() == WORD_LEN,
                    all_meet ==> forall|k: int|
                        0 <= k < i ==> is_consistent(
                            letters(acceptable_word),
                            letters(#[trigger] &guess_words@[k]),
                            word_states@[k]@,
                        ),
                    !all_meet ==> !consistent_with_history(letters(acceptable_word), guess_words@, word_states@),
                decreases guess_words@.len() - i,
            {
                if !word_perfect_check(acceptable_word, &word_states[i], &guess_words[i]) {
                    all_meet = false;
                }
                i += 1;
            }
            proof {
                let longer = self.acceptable_words@.take(index + 1);
                assert(longer.drop_last() =~= self.acceptable_words@.take(index as int));
                assert(longer.last() == self.acceptable_words@[index as int]);
                reveal(Seq::filter);
            }
            if all_meet {
                possible.push(acceptable_word.clone());
            }
            index += 1;
        }
        proof {
            assert(self.acceptable_words@.take(self.acceptable_words@.len() as int) =~= self.acceptable_words@);
        }
        self.possible_answer = possible;
    }

    /// Ranks the possible answers by the scores given for them, and
    /// returns the positions of the best of them, best first: as many as
    /// the prompt asks for, all of them if it asks for a negative number,
    /// none without a prompt.
    pub fn recommend_n_possible_answers(&self, scores: &Vec<i64>, prompt: &Option<i32>) -> (picks: Vec<usize>)
        requires
            scores@.len() == self.possible_answer@.len(),
        ensures
            match *prompt {
                Some(n) => is_ranking(
                    self.possible_answer@,
                    scores@,
                    if n < 0 {
                        self.possible_answer@.len() as int
                    } else {
                        n as int
                    },
                    picks@,
                ),
                None => picks@.len() == 0,
            },
    {
        match prompt {
            Some(n) => {
                let limit: usize = if *n < 0 {
                    self.possible_answer.len()
                } else {
                    *n as usize
                };
                rank_order(&self.possible_answer, scores, limit)
            },
            None => Vec::new(),
        }
    }
}

} // verus!
