use wordle::cli::Cli;
use wordle::feedback::FeedbackSymbol::{Absent, Correct, Present};
use wordle::feedback::{get_word_state, FeedbackSymbol};
use wordle::server::{Server, VocabularyError};
use wordle::vocabulary::{
    arranged, check_word_list, checked_order, contains_word, is_subset, word_order, WordListError,
};

fn w(s: &str) -> String {
    s.to_string()
}

fn list(words: &[&str]) -> Vec<String> {
    words.iter().map(|s| s.to_string()).collect()
}

fn options() -> Cli {
    Cli {
        word: None,
        random: false,
        difficult: false,
        stats: false,
        day: Some(1),
        seed: Some(42),
        final_set: None,
        acceptable_set: None,
        state: None,
        config: None,
        prompt: None,
    }
}

fn twenty_words() -> Vec<String> {
    list(&[
        "TRACE", "CRANE", "SLATE", "CRATE", "REACT", "CARTE", "GRACE", "BRACE", "PLANT", "STEAL", "ABOUT",
        "OTHER", "WHICH", "THEIR", "THERE", "FIRST", "WOULD", "THESE", "CLICK", "PRICE",
    ])
}

fn loaded() -> Server {
    let cli = options();
    let mut server = Server::new(&cli);
    let words = twenty_words();
    assert_eq!(server.word_list_process(&cli, &words[..8].to_vec(), &words), Ok(()));
    server
}

#[test]
fn new_server_is_empty() {
    let mut cli = options();
    cli.day = Some(7);
    let server = Server::new(&cli);
    assert_eq!(server.rounds, 7);
    assert!(server.answer.is_empty());
    assert!(server.final_words.is_empty());
    assert!(server.acceptable_words.is_empty());
    assert!(server.possible_answer.is_empty());
}

#[test]
fn word_lists_are_checked() {
    assert_eq!(check_word_list(&list(&["CRANE", "SLATE"])), Ok(()));
    assert_eq!(check_word_list(&Vec::new()), Ok(()));
    assert_eq!(check_word_list(&list(&["CRANE", "SLATE", "CRANE"])), Err(WordListError::Duplicate));
    assert_eq!(check_word_list(&list(&["CRANE", "slate"])), Err(WordListError::Malformed));
    assert_eq!(check_word_list(&list(&["CRANE", "SLAT"])), Err(WordListError::Malformed));
    // a word twice is reported before a malformed entry
    assert_eq!(check_word_list(&list(&["bad", "CRANE", "bad"])), Err(WordListError::Duplicate));
}

#[test]
fn checked_list_comes_with_its_order() {
    assert_eq!(checked_order(&list(&["SLATE", "CRANE", "TRACE"])), Ok(vec![1, 0, 2]));
    assert_eq!(checked_order(&Vec::new()), Ok(Vec::new()));
    assert_eq!(checked_order(&list(&["SLATE", "CRANE", "SLATE"])), Err(WordListError::Duplicate));
    assert_eq!(checked_order(&list(&["SLATE", "Crane"])), Err(WordListError::Malformed));
}

#[test]
fn word_order_is_dictionary_order() {
    let words = list(&["DELTA", "ALPHA", "CHARM", "BRAVO"]);
    let order = word_order(&words);
    assert_eq!(order, vec![1, 3, 2, 0]);
    assert_eq!(arranged(&words, &order), list(&["ALPHA", "BRAVO", "CHARM", "DELTA"]));
}

#[test]
fn subset_and_membership() {
    let whole = list(&["CRANE", "SLATE", "TRACE"]);
    assert!(is_subset(&list(&["TRACE", "CRANE"]), &whole));
    assert!(is_subset(&Vec::new(), &whole));
    assert!(!is_subset(&list(&["TRACE", "OTHER"]), &whole));
    assert!(contains_word(&whole, &w("SLATE")));
    assert!(!contains_word(&whole, &w("OTHER")));
}

#[test]
fn vocabulary_faults_in_order() {
    let cli = options();
    let good = list(&["SLATE", "CRANE", "TRACE"]);
    let cases: Vec<(Vec<String>, Vec<String>, VocabularyError)> = vec![
        (list(&["CRANE", "CRANE"]), good.clone(), VocabularyError::FinalDuplicate),
        (list(&["CRANE", "crane"]), good.clone(), VocabularyError::FinalMalformed),
        (list(&["CRANE"]), list(&["CRANE", "SLATE", "CRANE"]), VocabularyError::AcceptableDuplicate),
        (list(&["CRANE"]), list(&["CRANE", "SLATES"]), VocabularyError::AcceptableMalformed),
        (list(&["CRANE", "OTHER"]), good.clone(), VocabularyError::NotSubset),
        // the final list is judged first
        (list(&["CRANE", "CRANE"]), list(&["x"]), VocabularyError::FinalDuplicate),
    ];
    for (final_words, acceptable_words, fault) in cases {
        let mut server = Server::new(&cli);
        let before = server.clone();
        assert_eq!(server.word_list_process(&cli, &final_words, &acceptable_words), Err(fault));
        assert_eq!(server, before);
    }
}

#[test]
fn vocabulary_is_sorted_and_the_final_words_shuffled() {
    let cli = options();
    let words = twenty_words();
    let mut server = Server::new(&cli);
    assert_eq!(server.word_list_process(&cli, &words, &words), Ok(()));
    let mut sorted = words.clone();
    sorted.sort();
    assert_eq!(server.acceptable_words, sorted);
    // the final words are the same words in another order
    let mut final_sorted = server.final_words.clone();
    final_sorted.sort();
    assert_eq!(final_sorted, sorted);
    assert_ne!(server.final_words, sorted);
    // the same seed gives the same order, whatever the order of the input
    let mut reversed = words.clone();
    reversed.reverse();
    let mut again = Server::new(&cli);
    assert_eq!(again.word_list_process(&cli, &reversed, &reversed), Ok(()));
    assert_eq!(again.final_words, server.final_words);
    // another seed gives another order
    let mut other_cli = options();
    other_cli.seed = Some(7);
    let mut other = Server::new(&other_cli);
    assert_eq!(other.word_list_process(&other_cli, &words, &words), Ok(()));
    assert_ne!(other.final_words, server.final_words);
}

#[test]
fn secret_of_the_day_in_random_mode() {
    let mut cli = options();
    cli.random = true;
    cli.day = Some(3);
    let mut server = Server::new(&cli);
    let words = twenty_words();
    assert_eq!(server.word_list_process(&cli, &words, &words), Ok(()));
    let expected = server.final_words[2].clone();
    server.init_secret_word(&cli, &String::new());
    assert_eq!(server.answer, expected);
    assert_eq!(server.rounds, 4);
    let next = server.final_words[3].clone();
    server.init_secret_word(&cli, &String::new());
    assert_eq!(server.answer, next);
    assert_eq!(server.rounds, 5);
}

#[test]
fn secret_from_the_options_or_the_keyboard() {
    let mut cli = options();
    assert!(Server::needs_typed_secret(&cli));
    let mut server = Server::new(&cli);
    server.init_secret_word(&cli, &w("  crane \n"));
    assert_eq!(server.answer, "CRANE");
    assert_eq!(server.rounds, 1);
    cli.word = Some(w("slate"));
    assert!(!Server::needs_typed_secret(&cli));
    server.init_secret_word(&cli, &w("crane"));
    assert_eq!(server.answer, "SLATE");
    cli.random = true;
    assert!(!Server::needs_typed_secret(&cli));
}

#[test]
fn hard_mode_rejects_another_first_letter() {
    let server = loaded();
    let last_state = vec![Correct, Absent, Absent, Absent, Absent];
    let last = w("CRANE");
    // in the vocabulary, but not starting with C
    assert!(!server.is_valid(&w("SLATE"), &last_state, &last, true));
    assert!(!server.is_valid(&w("TRACE"), &last_state, &last, true));
    // not in the vocabulary and not starting with C
    assert!(!server.is_valid(&w("QUILT"), &last_state, &last, true));
    // starting with C and in the vocabulary
    assert!(server.is_valid(&w("CLICK"), &last_state, &last, true));
    // starting with C, not in the vocabulary
    assert!(!server.is_valid(&w("CLOTH"), &last_state, &last, true));
    // outside hard mode the last guess does not count
    assert!(server.is_valid(&w("SLATE"), &last_state, &last, false));
}

#[test]
fn valid_guess_is_a_word_of_the_vocabulary() {
    let server = loaded();
    let none = String::new();
    let no_state: Vec<FeedbackSymbol> = Vec::new();
    assert!(server.is_valid(&w("CRANE"), &no_state, &none, false));
    assert!(server.is_valid(&w("CRANE"), &no_state, &none, true));
    assert!(!server.is_valid(&w("crane"), &no_state, &none, false));
    assert!(!server.is_valid(&w("QUILT"), &no_state, &none, false));
    assert!(!server.is_valid(&w("CRANES"), &no_state, &none, false));
    assert!(!server.is_valid(&w(""), &no_state, &none, false));
}

#[test]
fn possible_answers_follow_the_history() {
    let mut server = loaded();
    let secret = w("BRACE");
    server.get_all_possible_answers(&Vec::new(), &Vec::new());
    assert_eq!(server.possible_answer, server.acceptable_words);
    let guesses = list(&["SLATE", "CRANE"]);
    let states: Vec<Vec<FeedbackSymbol>> = guesses.iter().map(|g| get_word_state(&secret, g)).collect();
    assert_eq!(states[0], vec![Absent, Absent, Correct, Absent, Correct]);
    assert_eq!(states[1], vec![Present, Correct, Correct, Absent, Correct]);
    server.get_all_possible_answers(&states[..1].to_vec(), &guesses[..1].to_vec());
    assert_eq!(server.possible_answer, list(&["BRACE", "CRANE", "GRACE"]));
    server.get_all_possible_answers(&states, &guesses);
    assert_eq!(server.possible_answer, list(&["BRACE", "GRACE"]));
    // states beyond the guesses are not looked at
    server.get_all_possible_answers(&states, &guesses[..1].to_vec());
    assert_eq!(server.possible_answer.len(), 3);
}

#[test]
fn recommendation_ranks_the_possible_answers() {
    let mut server = loaded();
    server.get_all_possible_answers(&Vec::new(), &Vec::new());
    let count = server.possible_answer.len();
    assert_eq!(count, 20);
    let scores: Vec<i64> = (0..count as i64).map(|i| i % 3).collect();
    assert!(server.recommend_n_possible_answers(&scores, &None).is_empty());
    let top = server.recommend_n_possible_answers(&scores, &Some(4));
    assert_eq!(top, vec![2, 5, 8, 11]);
    assert!(server.recommend_n_possible_answers(&scores, &Some(0)).is_empty());
    assert_eq!(server.recommend_n_possible_answers(&scores, &Some(50)).len(), 20);
    assert_eq!(server.recommend_n_possible_answers(&scores, &Some(-1)).len(), 20);
}
