use wordle::feedback::FeedbackSymbol::{Absent, Correct, Present};
use wordle::feedback::{get_word_state, FeedbackSymbol};
use wordle::validate::{check_guess, word_hard_check};
use wordle::word::{bytes_before, word_basic_check};

fn w(s: &str) -> String {
    s.to_string()
}

fn list(words: &[&str]) -> Vec<String> {
    words.iter().map(|s| s.to_string()).collect()
}

#[test]
fn basic_check_wants_five_upper_case_letters() {
    assert!(word_basic_check(&w("ABCDE")));
    assert!(word_basic_check(&w("ZZZZZ")));
    assert!(!word_basic_check(&w("abcde")));
    assert!(!word_basic_check(&w("ABCDe")));
    assert!(!word_basic_check(&w("ABCD")));
    assert!(!word_basic_check(&w("ABCDEF")));
    assert!(!word_basic_check(&w("")));
    assert!(!word_basic_check(&w("ABC1E")));
    assert!(!word_basic_check(&w("AB DE")));
    assert!(!word_basic_check(&w("@BCDE")));
    assert!(!word_basic_check(&w("[BCDE")));
    // five bytes, four characters
    assert!(!word_basic_check(&w("\u{c0}BCD")));
}

#[test]
fn hard_mode_keeps_the_correct_letter_in_place() {
    let vocabulary = list(&["CRANE", "CRAMP", "BRAIN", "TRACE"]);
    let last_state = vec![Correct, Absent, Absent, Absent, Absent];
    let last = w("CRANE");
    assert!(check_guess(&w("CRAMP"), &vocabulary, true, &last_state, &last));
    assert!(!check_guess(&w("BRAIN"), &vocabulary, true, &last_state, &last));
    assert!(!check_guess(&w("TRACE"), &vocabulary, true, &last_state, &last));
    // a word outside the vocabulary is rejected either way
    assert!(!check_guess(&w("SLATE"), &vocabulary, true, &last_state, &last));
    assert!(!check_guess(&w("CLOTH"), &vocabulary, true, &last_state, &last));
    // without hard mode only the vocabulary counts
    assert!(check_guess(&w("BRAIN"), &vocabulary, false, &last_state, &last));
    assert!(!word_hard_check(&w("SLATE"), &last_state, &last));
    assert!(word_hard_check(&w("CLOTH"), &last_state, &last));
}

#[test]
fn hard_mode_wants_present_letters_again() {
    let last = w("CRANE");
    let state = vec![Absent, Present, Absent, Absent, Present];
    assert!(word_hard_check(&w("TIGER"), &state, &last));
    assert!(word_hard_check(&w("REALM"), &state, &last));
    assert!(!word_hard_check(&w("ROAST"), &state, &last));
    assert!(!word_hard_check(&w("STEAL"), &state, &last));
    // the letter may stay where it was
    assert!(word_hard_check(&w("TRUCE"), &state, &last));
}

#[test]
fn hard_mode_counts_repeated_letters() {
    let last = w("LLAMA");
    // both L present: the new word needs two L
    let state = vec![Present, Present, Absent, Absent, Absent];
    assert!(word_hard_check(&w("HELLO"), &state, &last));
    assert!(!word_hard_check(&w("GLOBE"), &state, &last));
    // an L at a correct position is claimed and does not count again
    let state: Vec<FeedbackSymbol> = vec![Correct, Present, Absent, Absent, Absent];
    assert!(!word_hard_check(&w("LOBES"), &state, &last));
    assert!(word_hard_check(&w("LOLLY"), &state, &last));
}

#[test]
fn hard_mode_without_marks_takes_any_word() {
    let state = vec![Absent; 5];
    assert!(word_hard_check(&w("CRANE"), &state, &w("CRANE")));
    assert!(word_hard_check(&w("QUILT"), &state, &w("CRANE")));
}

#[test]
fn guess_gate_without_a_last_guess() {
    let vocabulary = list(&["CRANE", "SLATE"]);
    let none = String::new();
    let no_state: Vec<FeedbackSymbol> = Vec::new();
    assert!(check_guess(&w("CRANE"), &vocabulary, true, &no_state, &none));
    assert!(check_guess(&w("SLATE"), &vocabulary, false, &no_state, &none));
    assert!(!check_guess(&w("BRAIN"), &vocabulary, false, &no_state, &none));
    assert!(!check_guess(&w("crane"), &vocabulary, false, &no_state, &none));
    assert!(!check_guess(&w("CRAN"), &vocabulary, false, &no_state, &none));
    assert!(!check_guess(&w("CRANE"), &Vec::new(), false, &no_state, &none));
}

#[test]
fn dictionary_order_of_bytes() {
    assert!(bytes_before(b"ABCDE", b"ABCDF"));
    assert!(!bytes_before(b"ABCDF", b"ABCDE"));
    assert!(!bytes_before(b"ABCDE", b"ABCDE"));
    assert!(bytes_before(b"ABC", b"ABCD"));
    assert!(!bytes_before(b"ABCD", b"ABC"));
    assert!(bytes_before(b"", b"A"));
    assert!(!bytes_before(b"", b""));
    assert!(bytes_before(b"AZZZZ", b"BAAAA"));
}

#[test]
fn hard_mode_never_rejects_the_secret() {
    let words = ["ABCDE", "EEBAD", "SPEED", "ERASE", "EERIE", "AAAAA", "ABABA", "BABAB", "LLAMA", "ANGEL"];
    for secret in words {
        for guess in words {
            let state = get_word_state(&w(secret), &w(guess));
            assert!(word_hard_check(&w(secret), &state, &w(guess)), "{} {}", secret, guess);
        }
    }
}
