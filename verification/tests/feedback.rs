use wordle::feedback::FeedbackSymbol::{Absent, Correct, Present};
use wordle::feedback::{compare_secret_guess, get_word_state, pattern_index, FeedbackSymbol};
use wordle::matching::{claim_first, vec_search};

fn w(s: &str) -> String {
    s.to_string()
}

fn count_letter(word: &str, letter: u8) -> usize {
    word.bytes().filter(|b| *b == letter).count()
}

#[test]
fn repeated_letter_takes_the_only_copy() {
    let state = get_word_state(&w("ABCDE"), &w("EEBAD"));
    assert_eq!(state, vec![Present, Absent, Present, Present, Present]);
}

#[test]
fn a_word_against_itself_is_all_correct() {
    for word in ["ABCDE", "AAAAA", "SPEED", "ZZZAZ"] {
        assert_eq!(get_word_state(&w(word), &w(word)), vec![Correct; 5]);
    }
}

#[test]
fn transposed_letters_are_present() {
    let state = get_word_state(&w("ABCED"), &w("ABCDE"));
    assert_eq!(state, vec![Correct, Correct, Correct, Present, Present]);
}

#[test]
fn two_copies_in_the_secret_serve_two_letters() {
    assert_eq!(
        get_word_state(&w("SPEED"), &w("ERASE")),
        vec![Present, Absent, Absent, Present, Present]
    );
}

#[test]
fn third_copy_in_the_guess_is_absent() {
    assert_eq!(
        get_word_state(&w("SPEED"), &w("EERIE")),
        vec![Present, Present, Absent, Absent, Absent]
    );
}

#[test]
fn exact_match_is_taken_before_misplaced_letters() {
    assert_eq!(
        get_word_state(&w("ABBEY"), &w("BABES")),
        vec![Present, Present, Correct, Correct, Absent]
    );
    // the only L of the secret is taken by the exact match at the end
    assert_eq!(
        get_word_state(&w("ANGEL"), &w("LLAML")),
        vec![Absent, Absent, Present, Absent, Correct]
    );
}

#[test]
fn nothing_in_common_is_all_absent() {
    assert_eq!(get_word_state(&w("ABCDE"), &w("FGHIJ")), vec![Absent; 5]);
}

#[test]
fn marks_never_exceed_the_letters_of_the_secret() {
    let words = ["ABCDE", "EEBAD", "SPEED", "ERASE", "EERIE", "AAAAA", "ABABA", "BABAB", "LLAMA", "ANGEL"];
    for secret in words {
        for guess in words {
            let state = get_word_state(&w(secret), &w(guess));
            assert_eq!(state.len(), 5);
            for letter in b'A'..=b'Z' {
                let marked = guess
                    .bytes()
                    .zip(state.iter())
                    .filter(|(b, s)| *b == letter && **s != Absent)
                    .count();
                assert!(marked <= count_letter(secret, letter), "{} {} {}", secret, guess, letter);
            }
        }
    }
}

#[test]
fn search_lists_every_position_in_order() {
    let word = w("ABABA").into_bytes();
    assert_eq!(vec_search(&word, b'A'), Some(vec![0, 2, 4]));
    assert_eq!(vec_search(&word, b'B'), Some(vec![1, 3]));
    assert_eq!(vec_search(&word, b'C'), None);
    assert_eq!(vec_search(&Vec::new(), b'A'), None);
}

#[test]
fn claim_takes_the_lowest_free_position() {
    let word = w("ABABA").into_bytes();
    let mut claimed = vec![false; 5];
    assert_eq!(claim_first(&word, &mut claimed, b'A'), Some(0));
    assert_eq!(claim_first(&word, &mut claimed, b'A'), Some(2));
    assert_eq!(claim_first(&word, &mut claimed, b'B'), Some(1));
    assert_eq!(claim_first(&word, &mut claimed, b'A'), Some(4));
    assert_eq!(claim_first(&word, &mut claimed, b'A'), None);
    assert_eq!(claim_first(&word, &mut claimed, b'Z'), None);
    assert_eq!(claimed, vec![true, true, true, false, true]);
}

#[test]
fn symbol_digits() {
    assert_eq!(Absent.value(), 0);
    assert_eq!(Present.value(), 1);
    assert_eq!(Correct.value(), 2);
}

#[test]
fn pattern_numbers_are_base_three_leftmost_first() {
    assert_eq!(pattern_index(&vec![Absent; 5]), 0);
    assert_eq!(pattern_index(&vec![Correct; 5]), 242);
    assert_eq!(pattern_index(&vec![Absent, Absent, Absent, Absent, Present]), 1);
    assert_eq!(pattern_index(&vec![Present, Absent, Absent, Absent, Absent]), 81);
    assert_eq!(pattern_index(&vec![Correct, Correct, Correct, Present, Present]), 238);
    assert_eq!(pattern_index(&vec![Present, Absent, Present, Present, Present]), 94);
}

#[test]
fn pattern_numbers_differ_for_different_feedback() {
    let symbols = [Absent, Present, Correct];
    let mut seen = vec![false; 243];
    for a in symbols {
        for b in symbols {
            for c in symbols {
                for d in symbols {
                    for e in symbols {
                        let index = pattern_index(&vec![a, b, c, d, e]);
                        assert!(!seen[index]);
                        seen[index] = true;
                    }
                }
            }
        }
    }
    assert!(seen.iter().all(|s| *s));
}

#[test]
fn compare_scores_and_marks_the_keyboard() {
    let mut state: Vec<FeedbackSymbol> = Vec::new();
    let mut keys: Vec<Option<FeedbackSymbol>> = vec![None; 26];
    let hit = compare_secret_guess(&w("ABCDE"), &w("EEBAD"), &mut state, &mut keys);
    assert!(!hit);
    assert_eq!(state, vec![Present, Absent, Present, Present, Present]);
    // E is present once and absent once: the stronger mark stays
    assert_eq!(keys[4], Some(Present));
    assert_eq!(keys[0], Some(Present));
    assert_eq!(keys[1], Some(Present));
    assert_eq!(keys[3], Some(Present));
    assert_eq!(keys[2], None);
    assert_eq!(keys[25], None);
}

#[test]
fn compare_never_weakens_a_mark() {
    let mut state: Vec<FeedbackSymbol> = vec![Absent; 5];
    let mut keys: Vec<Option<FeedbackSymbol>> = vec![None; 26];
    keys[0] = Some(Correct);
    keys[1] = Some(Present);
    keys[5] = Some(Absent);
    let hit = compare_secret_guess(&w("CABDE"), &w("ABFGH"), &mut state, &mut keys);
    assert!(!hit);
    assert_eq!(state, vec![Present, Present, Absent, Absent, Absent]);
    assert_eq!(keys[0], Some(Correct));
    assert_eq!(keys[1], Some(Present));
    assert_eq!(keys[5], Some(Absent));
    assert_eq!(keys[6], Some(Absent));
    assert_eq!(keys[7], Some(Absent));
}

#[test]
fn compare_reports_the_hit() {
    let mut state: Vec<FeedbackSymbol> = Vec::new();
    let mut keys: Vec<Option<FeedbackSymbol>> = vec![None; 26];
    assert!(compare_secret_guess(&w("CRANE"), &w("CRANE"), &mut state, &mut keys));
    assert_eq!(state, vec![Correct; 5]);
    for letter in "CRANE".bytes() {
        assert_eq!(keys[(letter - b'A') as usize], Some(Correct));
    }
}
