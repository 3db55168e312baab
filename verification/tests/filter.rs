use wordle::feedback::FeedbackSymbol::{Absent, Correct, Present};
use wordle::feedback::get_word_state;
use wordle::filter::{filter_candidates, word_perfect_check};

fn w(s: &str) -> String {
    s.to_string()
}

fn list(words: &[&str]) -> Vec<String> {
    words.iter().map(|s| s.to_string()).collect()
}

fn ten_words() -> Vec<String> {
    list(&["CRANE", "SLATE", "TRACE", "CRATE", "REACT", "CARTE", "GRACE", "BRACE", "PLANT", "STEAL"])
}

#[test]
fn consistency_is_equality_of_feedback() {
    let state = vec![Correct, Correct, Correct, Present, Present];
    assert!(word_perfect_check(&w("ABCED"), &state, &w("ABCDE")));
    assert!(!word_perfect_check(&w("ABCDE"), &state, &w("ABCDE")));
    assert!(!word_perfect_check(&w("ABCED"), &vec![Correct; 5], &w("ABCDE")));
    // a feedback of another length fits no word
    assert!(!word_perfect_check(&w("ABCED"), &vec![Correct; 4], &w("ABCDE")));
    assert!(!word_perfect_check(&w("ABCED"), &Vec::new(), &w("ABCDE")));
}

#[test]
fn every_secret_is_consistent_with_its_own_feedback() {
    let words = ten_words();
    for secret in &words {
        for guess in &words {
            let state = get_word_state(secret, guess);
            assert!(word_perfect_check(secret, &state, guess));
        }
    }
}

#[test]
fn absent_mark_of_a_repeated_letter_limits_the_count() {
    // SPEED against EERIE gives two present E and one absent E:
    // a candidate with three E is out, one with two E at other places is in
    let state = vec![Present, Present, Absent, Absent, Absent];
    assert!(word_perfect_check(&w("SPEED"), &state, &w("EERIE")));
    assert!(!word_perfect_check(&w("EERIE"), &state, &w("EERIE")));
    assert!(!word_perfect_check(&w("STEAL"), &state, &w("EERIE")));
}

#[test]
fn filter_keeps_a_part_of_the_pool_in_order() {
    let pool = ten_words();
    let guess = w("SLATE");
    let state = get_word_state(&w("CRANE"), &guess);
    assert_eq!(state, vec![Absent, Absent, Correct, Absent, Correct]);
    let left = filter_candidates(&pool, &guess, &state);
    assert_eq!(left, list(&["CRANE", "GRACE", "BRACE"]));
    for word in &left {
        assert!(pool.contains(word));
    }
}

#[test]
fn filter_never_drops_the_secret() {
    let pool = ten_words();
    for secret in &pool {
        for guess in &pool {
            let state = get_word_state(secret, guess);
            let left = filter_candidates(&pool, guess, &state);
            assert!(left.contains(secret));
            assert!(left.len() <= pool.len());
        }
    }
}

#[test]
fn filtering_twice_gives_the_words_consistent_with_both() {
    let pool = ten_words();
    let secret = w("BRACE");
    let first = w("SLATE");
    let second = w("CRANE");
    let first_state = get_word_state(&secret, &first);
    let second_state = get_word_state(&secret, &second);
    let after_first = filter_candidates(&pool, &first, &first_state);
    let after_second = filter_candidates(&after_first, &second, &second_state);
    assert!(after_first.len() <= pool.len());
    assert!(after_second.len() <= after_first.len());
    let expected: Vec<String> = pool
        .iter()
        .filter(|word| {
            get_word_state(word, &first) == first_state && get_word_state(word, &second) == second_state
        })
        .cloned()
        .collect();
    assert_eq!(after_second, expected);
    assert_eq!(after_second, list(&["GRACE", "BRACE"]));
    // the other order of the two guesses leaves the same words
    let other = filter_candidates(&filter_candidates(&pool, &second, &second_state), &first, &first_state);
    assert_eq!(other, after_second);
}

#[test]
fn filter_of_an_empty_pool_is_empty() {
    let left = filter_candidates(&Vec::new(), &w("CRANE"), &vec![Correct; 5]);
    assert!(left.is_empty());
}

#[test]
fn filter_with_a_feedback_nobody_gives_is_empty() {
    let left = filter_candidates(&ten_words(), &w("CRANE"), &vec![Present; 5]);
    assert!(left.is_empty());
}
