use wordle::text::{normalize_guess, normalize_words, parse_word_list};

fn w(s: &str) -> String {
    s.to_string()
}

fn list(words: &[&str]) -> Vec<String> {
    words.iter().map(|s| s.to_string()).collect()
}

#[test]
fn typed_word_is_trimmed_and_put_in_upper_case() {
    assert_eq!(normalize_guess(&w("crane")), "CRANE");
    assert_eq!(normalize_guess(&w("  Crane\t\n")), "CRANE");
    assert_eq!(normalize_guess(&w("CRANE")), "CRANE");
    assert_eq!(normalize_guess(&w("")), "");
    assert_eq!(normalize_guess(&w("   ")), "");
    // inner white space stays, other characters stay
    assert_eq!(normalize_guess(&w(" a b1 ")), "A B1");
    // only the letters a to z change
    assert_eq!(normalize_guess(&w("stra\u{df}e")), "STRA\u{df}E");
    assert_eq!(normalize_guess(&w("\u{e9}t\u{e9}")), "\u{e9}T\u{e9}");
}

#[test]
fn entries_are_trimmed_and_put_in_upper_case() {
    assert_eq!(normalize_words(&list(&["crane ", " Slate", "TRACE"])), list(&["CRANE", "SLATE", "TRACE"]));
    assert!(normalize_words(&Vec::new()).is_empty());
    // the upper case of an entry is that of Unicode
    assert_eq!(normalize_words(&list(&["stra\u{df}e"])), list(&["STRASSE"]));
}

#[test]
fn word_list_is_cut_at_line_feeds() {
    assert_eq!(parse_word_list(&w("crane\nslate\ntrace\n")), list(&["CRANE", "SLATE", "TRACE"]));
    assert_eq!(parse_word_list(&w("crane\r\nslate\r\n")), list(&["CRANE", "SLATE"]));
    assert_eq!(parse_word_list(&w("\n\n crane \n\n slate\n\n")), list(&["CRANE", "", "SLATE"]));
    assert_eq!(parse_word_list(&w("crane")), list(&["CRANE"]));
    assert_eq!(parse_word_list(&w("")), list(&[""]));
}
