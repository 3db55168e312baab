//! Narrowing the pool of secrets that are still possible.

use vstd::prelude::*;
use vstd::string::*;
use crate::word::{letters, is_word, all_words, listed, WORD_LEN};
use crate::vocabulary::is_sublist;
use crate::feedback::{FeedbackSymbol, feedback, get_word_state};

verus! {

/// A candidate secret is consistent with a scored guess when scoring the
/// guess against the candidate gives just that feedback.
pub open spec fn is_consistent(candidate: Seq<u8>, guess: Seq<u8>, state: Seq<FeedbackSymbol>) -> bool {
    feedback(candidate, guess) == state
}

/// The words of a pool that are consistent with a scored guess, in the
/// order of the pool.
pub open spec fn candidates_left(pool: Seq<String>, guess: Seq<u8>, state: Seq<FeedbackSymbol>) -> Seq<String> {
    pool.filter(|w: String| is_consistent(letters(&w), guess, state))
}

/// Tells whether a word could be the secret, given a guess and the
/// feedback it got.
pub fn word_perfect_check(word: &String, last_word_state: &Vec<FeedbackSymbol>, last_guess_word: &String) -> (ok:
    bool)
    requires
        letters(word).len() == WORD_LEN,
        letters(last_guess_word).len() == WORD_LEN,
    ensures
        ok == is_consistent(letters(word), letters(last_guess_word), last_word_state@),
{
    let word_state = get_word_state(word, last_guess_word);
    if last_word_state.len() != WORD_LEN {
        return false;
    }
    let mut index: usize = 0;
    while index < WORD_LEN
        invariant
            index <= WORD_LEN,
            word_state@ == feedback(letters(word), letters(last_guess_word)),
            word_state@.len() == WORD_LEN,
            last_word_state@.len() == WORD_LEN,
            forall|k: int| 0 <= k < index ==> word_state@[k] == last_word_state@[k],
        decreases WORD_LEN - index,
    {
        if word_state[index] != last_word_state[index] {
            assert(word_state@[index as int] != last_word_state@[index as int]);
            return false;
        }
        index += 1;
    }
    assert(word_state@ =~= last_word_state@);
    true
}

/// Keeps the words of the pool that are consistent with a scored guess.
pub fn filter_candidates(pool: &Vec<String>, guess: &String, state: &Vec<FeedbackSymbol>) -> (left: Vec<String>)
    requires
        all_words(pool@),
        letters(guess).len() == WORD_LEN,
    ensures
        left@ == candidates_left(pool@, letters(guess), state@),
        left@.len() <= pool@.len(),
        forall|i: int| 0 <= i < left@.len() ==> pool@.contains(#[trigger] left@[i]),
{
    let ghost keep = |w: String| is_consistent(letters(&w), letters(guess), state@);
    let mut left: Vec<String> = Vec::new();
    let mut index: usize = 0;
    while index < pool.len()
        invariant
            index <= pool@.len(),
            all_words(pool@),
            letters(guess).len() == WORD_LEN,
            keep == |w: String| is_consistent(letters(&w), letters(guess), state@),
            left@ == pool@.take(index as int).filter(keep),
        decreases pool@.len() - index,
    {
        proof {
            let longer = pool@.take(index + 1);
            assert(longer.drop_last() =~= pool@.take(index as int));
            assert(longer.last() == pool@[index as int]);
            reveal(Seq::filter);
        }
        if word_perfect_check(&pool[index], state, guess) {
            left.push(pool[index].clone());
        }
        index += 1;
    }
    proof {
        assert(pool@.take(pool@.len() as int) =~= pool@);
        lemma_candidates_left_in_pool(pool@, letters(guess), state@);
        pool@.lemma_filter_len(keep);
    }
    left
}

/// Filtering never adds a word: whatever is left was in the pool.
pub proof fn lemma_candidates_left_in_pool(pool: Seq<String>, guess: Seq<u8>, state: Seq<FeedbackSymbol>)
    ensures
        forall|i: int|
            0 <= i < candidates_left(pool, guess, state).len() ==> pool.contains(
                #[trigger] candidates_left(pool, guess, state)[i],
            ),
        is_sublist(candidates_left(pool, guess, state), pool),
        candidates_left(pool, guess, state).len() <= pool.len(),
        all_words(pool) ==> all_words(candidates_left(pool, guess, state)),
{
    let keep = |w: String| is_consistent(letters(&w), guess, state);
    let left = candidates_left(pool, guess, state);
    pool.lemma_filter_len(keep);
    assert forall|i: int| 0 <= i < left.len() implies pool.contains(#[trigger] left[i]) by {
        assert(left.contains(left[i]));
        pool.lemma_filter_contains_rev(keep, left[i]);
    }
    assert forall|i: int| 0 <= i < left.len() implies #[trigger] listed(pool, &left[i]) by {
        assert(pool.contains(left[i]));
        let j = choose|j: int| 0 <= j < pool.len() && pool[j] == left[i];
        assert(pool[j]@ == left[i]@);
    }
    if all_words(pool) {
        assert forall|i: int| 0 <= i < left.len() implies is_word(letters(#[trigger] &left[i])) by {
            assert(pool.contains(left[i]));
            let j = choose|j: int| 0 <= j < pool.len() && pool[j] == left[i];
            assert(is_word(letters(&pool[j])));
        }
    }
}

/// Every secret is consistent with the feedback that it gives.
pub proof fn lemma_secret_is_consistent(secret: Seq<u8>, guess: Seq<u8>)
    ensures
        is_consistent(secret, guess, feedback(secret, guess)),
{
}

/// Filtering on the feedback that the secret gives never removes the
/// secret: if it was in the pool, it is in what is left.
pub proof fn lemma_secret_stays(pool: Seq<String>, secret: &String, guess: Seq<u8>)
    requires
        listed(pool, secret),
    ensures
        listed(candidates_left(pool, guess, feedback(letters(secret), guess)), secret),
{
    let state = feedback(letters(secret), guess);
    let keep = |w: String| is_consistent(letters(&w), guess, state);
    let left = candidates_left(pool, guess, state);
    let i = choose|i: int| 0 <= i < pool.len() && (#[trigger] pool[i])@ == secret@;
    assert(keep(pool[i]));
    pool.lemma_filter_contains(keep, i);
    let j = choose|j: int| 0 <= j < left.len() && left[j] == pool[i];
    assert(left[j]@ == secret@);
}

/// Filtering by one condition and then by another keeps what meets both.
pub proof fn lemma_filter_twice<A>(list: Seq<A>, first: spec_fn(A) -> bool, second: spec_fn(A) -> bool, both: spec_fn(A) -> bool)
    requires
        forall|x: A| #[trigger] both(x) == (first(x) && second(x)),
    ensures
        list.filter(first).filter(second) == list.filter(both),
    decreases list.len(),
{
    reveal(Seq::filter);
    if list.len() > 0 {
        lemma_filter_twice(list.drop_last(), first, second, both);
        if first(list.last()) {
            let once = list.drop_last().filter(first).push(list.last());
            assert(once.drop_last() =~= list.drop_last().filter(first));
            assert(once.last() == list.last());
        }
    }
}

/// A candidate secret is consistent with a history when it is consistent
/// with every guess of it and the feedback that the guess got.
pub open spec fn consistent_with_history(
    candidate: Seq<u8>,
    guesses: Seq<String>,
    states: Seq<Vec<FeedbackSymbol>>,
) -> bool {
    forall|i: int| 0 <= i < guesses.len() ==> is_consistent(candidate, letters(#[trigger] &guesses[i]), states[i]@)
}

/// The words of a pool that are consistent with a history.
pub open spec fn candidates_after(pool: Seq<String>, guesses: Seq<String>, states: Seq<Vec<FeedbackSymbol>>) -> Seq<
    String,
> {
    pool.filter(|w: String| consistent_with_history(letters(&w), guesses, states))
}

/// Filtering guess by guess gives the words consistent with the whole
/// history: what is left of the candidates after a history, once one more
/// scored guess is filtered on, is the candidates after the longer
/// history.
pub proof fn lemma_filter_follows_history(
    pool: Seq<String>,
    guesses: Seq<String>,
    states: Seq<Vec<FeedbackSymbol>>,
    guess: String,
    state: Vec<FeedbackSymbol>,
)
    requires
        guesses.len() == states.len(),
    ensures
        candidates_left(candidates_after(pool, guesses, states), letters(&guess), state@) == candidates_after(
            pool,
            guesses.push(guess),
            states.push(state),
        ),
        candidates_after(pool, Seq::empty(), Seq::empty()) == pool,
{
    let first = |w: String| consistent_with_history(letters(&w), guesses, states);
    let second = |w: String| is_consistent(letters(&w), letters(&guess), state@);
    let both = |w: String| consistent_with_history(letters(&w), guesses.push(guess), states.push(state));
    assert forall|w: String| #[trigger] both(w) == (first(w) && second(w)) by {
        let longer = guesses.push(guess);
        let marks = states.push(state);
        if first(w) && second(w) {
            assert forall|i: int| 0 <= i < longer.len() implies is_consistent(
                letters(&w),
                letters(#[trigger] &longer[i]),
                marks[i]@,
            ) by {
                if i < guesses.len() {
                    assert(longer[i] == guesses[i] && marks[i] == states[i]);
                }
            }
        }
        if both(w) {
            assert(longer[guesses.len() as int] == guess && marks[guesses.len() as int] == state);
            assert forall|i: int| 0 <= i < guesses.len() implies is_consistent(
                letters(&w),
                letters(#[trigger] &guesses[i]),
                states[i]@,
            ) by {
                assert(longer[i] == guesses[i] && marks[i] == states[i]);
            }
        }
    }
    lemma_filter_twice(pool, first, second, both);
    lemma_filter_all(pool, |w: String| consistent_with_history(letters(&w), Seq::empty(), Seq::empty()));
}

/// Filtering by a condition that everything meets changes nothing.
pub proof fn lemma_filter_all<A>(list: Seq<A>, keep: spec_fn(A) -> bool)
    requires
        forall|x: A| #[trigger] keep(x),
    ensures
        list.filter(keep) == list,
    decreases list.len(),
{
    reveal(Seq::filter);
    if list.len() > 0 {
        lemma_filter_all(list.drop_last(), keep);
        assert(list.drop_last().push(list.last()) =~= list);
    }
}

} // verus!
