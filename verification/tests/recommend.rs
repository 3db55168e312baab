use wordle::recommend::{outranks, pattern_counts, rank_order, recommend, sort_order};

fn w(s: &str) -> String {
    s.to_string()
}

fn list(words: &[&str]) -> Vec<String> {
    words.iter().map(|s| s.to_string()).collect()
}

fn entropy(counts: &[usize], total: usize) -> f64 {
    let mut sum = 0.0;
    for count in counts {
        if *count != 0 {
            let p = *count as f64 / total as f64;
            sum -= p * p.log2();
        }
    }
    sum
}

#[test]
fn two_words_split_by_one_guess_give_one_bit() {
    let pool = list(&["ABCDE", "ABCED"]);
    let candidates = list(&["ABCDE"]);
    let counts = pattern_counts(&pool, &candidates[0]);
    assert_eq!(counts.len(), 243);
    assert_eq!(counts[242], 1);
    assert_eq!(counts[238], 1);
    assert_eq!(counts.iter().sum::<usize>(), 2);
    let bits = entropy(&counts, pool.len());
    assert_eq!(bits, 1.0);
    let scores = vec![bits.to_bits() as i64];
    let picks = rank_order(&candidates, &scores, 1);
    assert_eq!(picks, vec![0]);
    assert_eq!(candidates[picks[0]], "ABCDE");
}

#[test]
fn counts_add_up_to_the_pool() {
    let pool = list(&["CRANE", "SLATE", "TRACE", "CRATE", "REACT", "CARTE", "GRACE", "BRACE"]);
    let counts = pattern_counts(&pool, &w("TRACE"));
    assert_eq!(counts.iter().sum::<usize>(), pool.len());
    assert_eq!(counts[242], 1);
    // GRACE and BRACE answer TRACE alike: absent, then four correct
    assert_eq!(counts[2 * 27 + 2 * 9 + 2 * 3 + 2], 2);
}

#[test]
fn counts_of_an_empty_pool_are_zero() {
    let counts = pattern_counts(&Vec::new(), &w("CRANE"));
    assert_eq!(counts, vec![0; 243]);
}

#[test]
fn ranking_is_by_score_then_by_word() {
    let words = list(&["DELTA", "ALPHA", "CHARM", "BRAVO"]);
    let scores = vec![5, 7, 5, 7];
    assert_eq!(rank_order(&words, &scores, 4), vec![1, 3, 2, 0]);
    assert_eq!(rank_order(&words, &scores, 2), vec![1, 3]);
    assert_eq!(rank_order(&words, &scores, 3), vec![1, 3, 2]);
    assert_eq!(rank_order(&words, &scores, 9), vec![1, 3, 2, 0]);
    assert_eq!(rank_order(&words, &scores, 0), Vec::<usize>::new());
    assert_eq!(sort_order(&words, &scores), vec![1, 3, 2, 0]);
}

#[test]
fn ranking_takes_negative_scores() {
    let words = list(&["AAAAA", "BBBBB", "CCCCC"]);
    let scores = vec![-3, i64::MIN, i64::MAX];
    assert_eq!(rank_order(&words, &scores, 3), vec![2, 0, 1]);
}

#[test]
fn equal_entries_keep_their_order() {
    let words = list(&["SAMES", "SAMES", "OTHER"]);
    let scores = vec![1, 1, 1];
    assert_eq!(sort_order(&words, &scores), vec![2, 0, 1]);
    assert!(outranks(&words, &scores, 0, 1));
    assert!(!outranks(&words, &scores, 1, 0));
    assert!(!outranks(&words, &scores, 0, 0));
}

#[test]
fn ranking_of_nothing_is_empty() {
    assert!(rank_order(&Vec::new(), &Vec::new(), 5).is_empty());
    assert!(sort_order(&Vec::new(), &Vec::new()).is_empty());
}

#[test]
fn the_best_of_many_are_found() {
    let mut words = Vec::new();
    let mut scores = Vec::new();
    for i in 0..200u32 {
        let a = (b'A' + (i % 26) as u8) as char;
        let b = (b'A' + ((i / 26) % 26) as u8) as char;
        words.push(format!("{}{}XYZ", a, b));
        scores.push(((i * 37) % 101) as i64);
    }
    let mut expected: Vec<usize> = (0..words.len()).collect();
    expected.sort_by(|x, y| scores[*y].cmp(&scores[*x]).then(words[*x].cmp(&words[*y])));
    assert_eq!(sort_order(&words, &scores), expected);
    assert_eq!(rank_order(&words, &scores, 7), expected[..7].to_vec());
}

#[test]
fn recommendation_is_as_long_as_asked_or_as_the_candidates() {
    let pool = list(&["CRANE", "SLATE"]);
    let candidates = list(&["DELTA", "ALPHA", "CHARM", "BRAVO"]);
    let scores = vec![5, 7, 5, 7];
    assert_eq!(recommend(&pool, &candidates, &scores, 3), vec![1, 3, 2]);
    assert_eq!(recommend(&pool, &candidates, &scores, 10), vec![1, 3, 2, 0]);
    assert_eq!(recommend(&pool, &candidates, &scores, 0), Vec::<usize>::new());
    // an empty pool gives nothing to rank by
    assert_eq!(recommend(&Vec::new(), &candidates, &scores, 3), Vec::<usize>::new());
    assert_eq!(recommend(&pool, &Vec::new(), &Vec::new(), 3), Vec::<usize>::new());
}

#[test]
fn ranking_by_entropy_prefers_the_guess_that_splits_more() {
    let pool = list(&["CRANE", "CRATE", "GRACE", "BRACE"]);
    let bits: Vec<f64> = pool.iter().map(|word| entropy(&pattern_counts(&pool, word), pool.len())).collect();
    // CRANE and CRATE tell all four words apart; GRACE and BRACE leave two alike or tell them apart
    let scores: Vec<i64> = bits.iter().map(|b| (b * 1000.0).round() as i64).collect();
    let picks = recommend(&pool, &pool, &scores, 4);
    for pair in picks.windows(2) {
        let (a, b) = (pair[0], pair[1]);
        assert!(bits[a] > bits[b] || (bits[a] == bits[b] && pool[a] < pool[b]));
    }
    assert_eq!(picks.len(), 4);
}
