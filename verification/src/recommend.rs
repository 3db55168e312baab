//! Ranking next guesses: how a guess splits the pool into feedback
//! patterns, and the order of the guesses by score.

use vstd::prelude::*;
use vstd::string::*;
use crate::word::{
    letters, all_words, comes_before, bytes_before, lemma_order_total, lemma_order_transitive,
    lemma_order_irreflexive, WORD_LEN,
};
use crate::feedback::{
    feedback, get_word_state, pattern_value, pattern_index, pattern_limit, lemma_pattern_value_bound,
    PATTERN_COUNT,
};

verus! {

/// How many of the first `n` words of the pool would, as the secret, answer
/// the guess with the feedback of the given pattern number.
pub open spec fn pattern_tally(pool: Seq<String>, guess: Seq<u8>, pattern: int, n: int) -> nat
    decreases n,
{
    if n <= 0 {
        0
    } else if pattern_value(feedback(letters(&pool[n - 1]), guess)) == pattern {
        pattern_tally(pool, guess, pattern, n - 1) + 1
    } else {
        pattern_tally(pool, guess, pattern, n - 1)
    }
}

/// A pattern is tallied no more often than there are words.
pub proof fn lemma_pattern_tally_bound(pool: Seq<String>, guess: Seq<u8>, pattern: int, n: int)
    requires
        0 <= n,
    ensures
        pattern_tally(pool, guess, pattern, n) <= n,
    decreases n,
{
    if n > 0 {
        lemma_pattern_tally_bound(pool, guess, pattern, n - 1);
    }
}

/// How often the first `n` words of the pool are tallied under the
/// patterns below `patterns`, all together.
pub open spec fn tally_sum(pool: Seq<String>, guess: Seq<u8>, patterns: int, n: int) -> nat
    decreases patterns,
{
    if patterns <= 0 {
        0
    } else {
        tally_sum(pool, guess, patterns - 1, n) + pattern_tally(pool, guess, patterns - 1, n)
    }
}

/// One more word adds one to the tallies of the patterns below a limit
/// if its own pattern is among them, and nothing else.
proof fn lemma_tally_sum_step(pool: Seq<String>, guess: Seq<u8>, patterns: int, n: int)
    requires
        0 <= patterns,
        0 < n,
    ensures
        tally_sum(pool, guess, patterns, n) == tally_sum(pool, guess, patterns, n - 1) + if pattern_value(
            feedback(letters(&pool[n - 1]), guess),
        ) < patterns {
            1nat
        } else {
            0nat
        },
    decreases patterns,
{
    if patterns > 0 {
        lemma_tally_sum_step(pool, guess, patterns - 1, n);
    }
}

/// A guess splits the pool: the tallies of all patterns add up to the
/// number of words.
pub proof fn lemma_patterns_split_pool(pool: Seq<String>, guess: Seq<u8>, n: int)
    requires
        0 <= n <= pool.len(),
        guess.len() == WORD_LEN,
    ensures
        tally_sum(pool, guess, PATTERN_COUNT as int, n) == n,
    decreases n,
{
    if n > 0 {
        lemma_patterns_split_pool(pool, guess, n - 1);
        lemma_tally_sum_step(pool, guess, PATTERN_COUNT as int, n);
        let state = feedback(letters(&pool[n - 1]), guess);
        lemma_pattern_value_bound(state);
        reveal_with_fuel(pattern_limit, 7);
    } else {
        lemma_tally_sum_none(pool, guess, PATTERN_COUNT as int);
    }
}

/// No words, no tallies.
proof fn lemma_tally_sum_none(pool: Seq<String>, guess: Seq<u8>, patterns: int)
    ensures
        tally_sum(pool, guess, patterns, 0) == 0,
    decreases patterns,
{
    if patterns > 0 {
        lemma_tally_sum_none(pool, guess, patterns - 1);
    }
}

/// Splits the pool by the feedback that each of its words would give to
/// the guess: entry `b` of the result counts the words with pattern `b`.
pub fn pattern_counts(pool: &Vec<String>, guess: &String) -> (counts: Vec<usize>)
    requires
        all_words(pool@),
        letters(guess).len() == WORD_LEN,
    ensures
        counts@.len() == PATTERN_COUNT,
        forall|b: int|
            0 <= b < PATTERN_COUNT ==> #[trigger] counts@[b] == pattern_tally(
                pool@,
                letters(guess),
                b,
                pool@.len() as int,
            ),
{
    let mut counts: Vec<usize> = Vec::new();
    let mut b: usize = 0;
    while b < PATTERN_COUNT
        invariant
            b <= PATTERN_COUNT,
            counts@.len() == b,
            forall|k: int| 0 <= k < b ==> #[trigger] counts@[k] == 0,
        decreases PATTERN_COUNT - b,
    {
        counts.push(0);
        b += 1;
    }
    let mut index: usize = 0;
    while index < pool.len()
        invariant
            index <= pool@.len(),
            all_words(pool@),
            letters(guess).len() == WORD_LEN,
            counts@.len() == PATTERN_COUNT,
            forall|k: int|
                0 <= k < PATTERN_COUNT ==> #[trigger] counts@[k] == pattern_tally(
                    pool@,
                    letters(guess),
                    k,
                    index as int,
                ),
        decreases pool@.len() - index,
    {
        let word_state = get_word_state(&pool[index], guess);
        let pattern = pattern_index(&word_state);
        proof {
            lemma_pattern_tally_bound(pool@, letters(guess), pattern as int, index as int);
        }
        let seen = counts[pattern];
        counts[pattern] = seen + 1;
        index += 1;
    }
    counts
}

/// The order of the ranking among the entries of a scored list: the
/// higher score first; among equal scores the word that comes first in
/// dictionary order; among equal words the earlier entry.
pub open spec fn ranks_before(words: Seq<String>, scores: Seq<i64>, a: int, b: int) -> bool {
    ||| scores[a] > scores[b]
    ||| scores[a] == scores[b] && comes_before(letters(&words[a]), letters(&words[b]))
    ||| scores[a] == scores[b] && letters(&words[a]) == letters(&words[b]) && a < b
}

/// Of two different entries one ranks before the other, never both.
pub proof fn lemma_ranking_total(words: Seq<String>, scores: Seq<i64>, a: int, b: int)
    ensures
        a == b || ranks_before(words, scores, a, b) || ranks_before(words, scores, b, a),
        !(ranks_before(words, scores, a, b) && ranks_before(words, scores, b, a)),
        !ranks_before(words, scores, a, a),
{
    lemma_order_total(letters(&words[a]), letters(&words[b]));
    lemma_order_irreflexive(letters(&words[a]));
    lemma_order_irreflexive(letters(&words[b]));
}

/// The ranking is transitive.
pub proof fn lemma_ranking_transitive(words: Seq<String>, scores: Seq<i64>, a: int, b: int, c: int)
    requires
        ranks_before(words, scores, a, b),
        ranks_before(words, scores, b, c),
    ensures
        ranks_before(words, scores, a, c),
{
    let x = letters(&words[a]);
    let y = letters(&words[b]);
    let z = letters(&words[c]);
    if scores[a] == scores[b] && scores[b] == scores[c] {
        if comes_before(x, y) && comes_before(y, z) {
            lemma_order_transitive(x, y, z);
        }
    }
}

/// Tells whether entry `a` ranks before entry `b`.
pub fn outranks(words: &Vec<String>, scores: &Vec<i64>, a: usize, b: usize) -> (before: bool)
    requires
        words@.len() == scores@.len(),
        a < words@.len(),
        b < words@.len(),
    ensures
        before == ranks_before(words@, scores@, a as int, b as int),
{
    if scores[a] != scores[b] {
        return scores[a] > scores[b];
    }
    let x = words[a].as_str().as_bytes();
    let y = words[b].as_str().as_bytes();
    if bytes_before(x, y) {
        return true;
    }
    if bytes_before(y, x) {
        proof {
            lemma_order_total(x@, y@);
        }
        return false;
    }
    proof {
        lemma_order_total(x@, y@);
    }
    a < b
}

/// The best entries among the first `n` of a scored list, best first, at
/// most `limit` of them: the picks are in ranking order, and each of them
/// ranks before every entry below `n` that was not picked.
pub open spec fn ranked_prefix(
    words: Seq<String>,
    scores: Seq<i64>,
    limit: int,
    n: int,
    picks: Seq<usize>,
) -> bool {
    &&& picks.len() == if limit < n { limit } else { n }
    &&& forall|i: int| 0 <= i < picks.len() ==> (#[trigger] picks[i]) < n
    &&& forall|i: int, j: int|
        0 <= i < j < picks.len() ==> ranks_before(words, scores, #[trigger] picks[i] as int, #[trigger] picks[j] as int)
    &&& forall|i: int, k: usize|
        0 <= i < picks.len() && k < n && !picks.contains(k) ==> #[trigger] ranks_before(
            words,
            scores,
            picks[i] as int,
            k as int,
        )
}

/// What `rank_order` returns: the entries that rank first, best first.
pub open spec fn is_ranking(words: Seq<String>, scores: Seq<i64>, limit: int, picks: Seq<usize>) -> bool {
    ranked_prefix(words, scores, limit, words.len() as int, picks)
}

/// While fewer entries are held than the limit allows, every entry seen
/// so far is held.
spec fn holds_all(limit: int, n: int, picks: Seq<usize>) -> bool {
    picks.len() < limit ==> forall|k: usize| k < n ==> picks.contains(k)
}

/// Putting entry `n` at its place among the picks of the first `n`
/// entries gives them in ranking order.
proof fn lemma_insert_keeps_order(
    words: Seq<String>,
    scores: Seq<i64>,
    limit: int,
    n: usize,
    held: Seq<usize>,
    place: int,
)
    requires
        ranked_prefix(words, scores, limit, n as int, held),
        0 <= place <= held.len(),
        forall|i: int| 0 <= i < place ==> !ranks_before(words, scores, n as int, #[trigger] held[i] as int),
        place < held.len() ==> ranks_before(words, scores, n as int, held[place] as int),
    ensures
        forall|i: int, j: int|
            0 <= i < j < held.len() + 1 ==> ranks_before(
                words,
                scores,
                #[trigger] held.insert(place, n)[i] as int,
                #[trigger] held.insert(place, n)[j] as int,
            ),
        forall|i: int| 0 <= i < held.len() + 1 ==> (#[trigger] held.insert(place, n)[i]) <= n,
        forall|k: usize| held.contains(k) ==> held.insert(place, n).contains(k),
        forall|k: usize| held.insert(place, n).contains(k) ==> k == n || held.contains(k),
        held.insert(place, n).contains(n),
{
    let grown = held.insert(place, n);
    let me = n as int;
    assert forall|i: int| 0 <= i < place implies ranks_before(words, scores, #[trigger] held[i] as int, me) by {
        lemma_ranking_total(words, scores, held[i] as int, me);
    }
    assert forall|i: int| place <= i < held.len() implies ranks_before(words, scores, me, #[trigger] held[i] as int) by {
        if i > place {
            lemma_ranking_transitive(words, scores, me, held[place] as int, held[i] as int);
        }
    }
    assert forall|i: int, j: int| 0 <= i < j < held.len() + 1 implies ranks_before(
        words,
        scores,
        #[trigger] grown[i] as int,
        #[trigger] grown[j] as int,
    ) by {
        if i < place && j > place {
            assert(grown[i] == held[i] && grown[j] == held[j - 1]);
        } else if i < place && j == place {
            assert(grown[i] == held[i]);
        } else if i < place {
            assert(grown[i] == held[i] && grown[j] == held[j]);
        } else if i == place {
            assert(grown[j] == held[j - 1]);
        } else {
            assert(grown[i] == held[i - 1] && grown[j] == held[j - 1]);
        }
    }
    assert forall|i: int| 0 <= i < held.len() + 1 implies (#[trigger] grown[i]) <= n by {
        if i < place {
            assert(grown[i] == held[i]);
        } else if i > place {
            assert(grown[i] == held[i - 1]);
        }
    }
    assert forall|k: usize| held.contains(k) implies grown.contains(k) by {
        let at = choose|at: int| 0 <= at < held.len() && held[at] == k;
        if at < place {
            assert(grown[at] == k);
        } else {
            assert(grown[at + 1] == k);
        }
    }
    assert forall|k: usize| grown.contains(k) implies k == n || held.contains(k) by {
        let at = choose|at: int| 0 <= at < grown.len() && grown[at] == k;
        if at < place {
            assert(held[at] == k);
        } else if at > place {
            assert(held[at - 1] == k);
        }
    }
    assert(grown[place] == n);
}

/// One step of the ranking: entry `n` is put at its place among the picks
/// of the first `n` entries, and the last pick is dropped if that makes
/// them more than the limit.
proof fn lemma_rank_step(
    words: Seq<String>,
    scores: Seq<i64>,
    limit: int,
    n: usize,
    held: Seq<usize>,
    place: int,
    kept: Seq<usize>,
)
    requires
        limit > 0,
        ranked_prefix(words, scores, limit, n as int, held),
        holds_all(limit, n as int, held),
        0 <= place <= held.len(),
        forall|i: int| 0 <= i < place ==> !ranks_before(words, scores, n as int, #[trigger] held[i] as int),
        place < held.len() ==> ranks_before(words, scores, n as int, held[place] as int),
        kept == if held.len() + 1 > limit {
            held.insert(place, n).drop_last()
        } else {
            held.insert(place, n)
        },
    ensures
        ranked_prefix(words, scores, limit, n + 1, kept),
        holds_all(limit, n + 1, kept),
{
    let grown = held.insert(place, n);
    lemma_insert_keeps_order(words, scores, limit, n, held, place);
    assert forall|i: int| 0 <= i < kept.len() implies #[trigger] kept[i] == grown[i] by {}
    assert forall|i: int| 0 <= i < kept.len() implies (#[trigger] kept[i]) < n + 1 by {
        assert(kept[i] == grown[i]);
    }
    assert forall|i: int, j: int| 0 <= i < j < kept.len() implies ranks_before(
        words,
        scores,
        #[trigger] kept[i] as int,
        #[trigger] kept[j] as int,
    ) by {
        assert(kept[i] == grown[i] && kept[j] == grown[j]);
    }
    if kept.len() < limit {
        assert forall|k: usize| k < n + 1 implies kept.contains(k) by {
            if k < n {
                assert(held.contains(k));
            }
            assert(grown.contains(k));
        }
    }
    assert forall|i: int, k: usize| 0 <= i < kept.len() && k < n + 1 && !kept.contains(k) implies #[trigger] ranks_before(
        words,
        scores,
        kept[i] as int,
        k as int,
    ) by {
        assert(kept[i] == grown[i]);
        if grown.contains(k) {
            let at = choose|at: int| 0 <= at < grown.len() && grown[at] == k;
            if at < kept.len() {
                assert(kept[at] == k);
            }
            assert(ranks_before(words, scores, grown[i] as int, grown[at] as int));
        } else {
            assert(k < n && !held.contains(k));
            assert(held.len() == limit);
            let last = held[held.len() - 1];
            assert(ranks_before(words, scores, last as int, k as int));
            assert(grown[held.len() as int] == if place == held.len() { n } else { last });
            if i < place {
                assert(grown[i] == held[i]);
            } else if i == place {
                assert(place < held.len());
                if place < held.len() - 1 {
                    lemma_ranking_transitive(words, scores, n as int, held[place] as int, last as int);
                }
                lemma_ranking_transitive(words, scores, n as int, last as int, k as int);
            } else {
                assert(grown[i] == held[i - 1]);
            }
        }
    }
}

/// Finds the place of entry `index` among entries in ranking order: the
/// entries before the place do not rank after it, those from the place on
/// do.
fn find_place(words: &Vec<String>, scores: &Vec<i64>, order: &Vec<usize>, index: usize) -> (place: usize)
    requires
        words@.len() == scores@.len(),
        index < words@.len(),
        forall|i: int| 0 <= i < order@.len() ==> (#[trigger] order@[i]) < index,
        forall|i: int, j: int|
            0 <= i < j < order@.len() ==> ranks_before(
                words@,
                scores@,
                #[trigger] order@[i] as int,
                #[trigger] order@[j] as int,
            ),
    ensures
        place <= order@.len(),
        forall|i: int| 0 <= i < place ==> !ranks_before(words@, scores@, index as int, #[trigger] order@[i] as int),
        place < order@.len() ==> ranks_before(words@, scores@, index as int, order@[place as int] as int),
{
    let mut low: usize = 0;
    let mut high: usize = order.len();
    while low < high
        invariant
            low <= high <= order@.len(),
            words@.len() == scores@.len(),
            index < words@.len(),
            forall|i: int| 0 <= i < order@.len() ==> (#[trigger] order@[i]) < index,
            forall|i: int, j: int|
                0 <= i < j < order@.len() ==> ranks_before(
                    words@,
                    scores@,
                    #[trigger] order@[i] as int,
                    #[trigger] order@[j] as int,
                ),
            forall|i: int| 0 <= i < low ==> ranks_before(words@, scores@, #[trigger] order@[i] as int, index as int),
            forall|i: int|
                high <= i < order@.len() ==> ranks_before(words@, scores@, index as int, #[trigger] order@[i] as int),
        decreases high - low,
    {
        let middle = low + (high - low) / 2;
        if outranks(words, scores, index, order[middle]) {
            proof {
                assert forall|i: int| middle <= i < order@.len() implies ranks_before(
                    words@,
                    scores@,
                    index as int,
                    #[trigger] order@[i] as int,
                ) by {
                    if i > middle {
                        lemma_ranking_transitive(
                            words@,
                            scores@,
                            index as int,
                            order@[middle as int] as int,
                            order@[i] as int,
                        );
                    }
                }
            }
            high = middle;
        } else {
            proof {
                lemma_ranking_total(words@, scores@, order@[middle as int] as int, index as int);
                assert forall|i: int| 0 <= i < middle + 1 implies ranks_before(
                    words@,
                    scores@,
                    #[trigger] order@[i] as int,
                    index as int,
                ) by {
                    if i < middle {
                        lemma_ranking_transitive(
                            words@,
                            scores@,
                            order@[i] as int,
                            order@[middle as int] as int,
                            index as int,
                        );
                    }
                }
            }
            low = middle + 1;
        }
    }
    proof {
        assert forall|i: int| 0 <= i < low implies !ranks_before(
            words@,
            scores@,
            index as int,
            #[trigger] order@[i] as int,
        ) by {
            lemma_ranking_total(words@, scores@, order@[i] as int, index as int);
        }
    }
    low
}

/// Ranks a scored list of words and returns the positions of the best
/// `top_n` entries, best first: by descending score, and among equal
/// scores by ascending word.
pub fn rank_order(words: &Vec<String>, scores: &Vec<i64>, top_n: usize) -> (picks: Vec<usize>)
    requires
        words@.len() == scores@.len(),
    ensures
        is_ranking(words@, scores@, top_n as int, picks@),
{
    let mut picks: Vec<usize> = Vec::new();
    if top_n == 0 {
        return picks;
    }
    let mut index: usize = 0;
    while index < words.len()
        invariant
            index <= words@.len(),
            words@.len() == scores@.len(),
            top_n > 0,
            ranked_prefix(words@, scores@, top_n as int, index as int, picks@),
            holds_all(top_n as int, index as int, picks@),
        decreases words@.len() - index,
    {
        let ghost held = picks@;
        let place = find_place(words, scores, &picks, index);
        picks.insert(place, index);
        if picks.len() > top_n {
            picks.pop();
        }
        proof {
            lemma_rank_step(words@, scores@, top_n as int, index, held, place as int, picks@);
        }
        index += 1;
    }
    picks
}

/// Ranks the candidate guesses for a pool of possible secrets by the
/// scores given for them, and returns the positions of the best `top_n`
/// candidates, best first. With an empty pool there is nothing to tell
/// the candidates apart, and nothing is returned.
pub fn recommend(pool: &Vec<String>, guess_candidates: &Vec<String>, scores: &Vec<i64>, top_n: usize) -> (picks:
    Vec<usize>)
    requires
        guess_candidates@.len() == scores@.len(),
    ensures
        pool@.len() == 0 ==> picks@.len() == 0,
        pool@.len() > 0 ==> is_ranking(guess_candidates@, scores@, top_n as int, picks@),
{
    if pool.len() == 0 {
        return Vec::new();
    }
    rank_order(guess_candidates, scores, top_n)
}

/// The list holds each position below `n` exactly once.
pub open spec fn is_arrangement(order: Seq<usize>, n: int) -> bool {
    &&& order.len() == n
    &&& forall|i: int| 0 <= i < order.len() ==> (#[trigger] order[i]) < n
    &&& forall|i: int, j: int| 0 <= i < j < order.len() ==> #[trigger] order[i] != #[trigger] order[j]
    &&& forall|k: usize| k < n ==> order.contains(k)
}

/// Ranks a whole scored list of words: the positions of all entries, best
/// first.
pub fn sort_order(words: &Vec<String>, scores: &Vec<i64>) -> (order: Vec<usize>)
    requires
        words@.len() == scores@.len(),
    ensures
        is_ranking(words@, scores@, words@.len() as int, order@),
        is_arrangement(order@, words@.len() as int),
{
    let mut order: Vec<usize> = Vec::new();
    let mut index: usize = 0;
    while index < words.len()
        invariant
            index <= words@.len(),
            words@.len() == scores@.len(),
            ranked_prefix(words@, scores@, words@.len() as int, index as int, order@),
            forall|k: usize| k < index ==> order@.contains(k),
        decreases words@.len() - index,
    {
        let ghost held = order@;
        let place = find_place(words, scores, &order, index);
        order.insert(place, index);
        proof {
            lemma_insert_keeps_order(words@, scores@, words@.len() as int, index, held, place as int);
            assert forall|i: int| 0 <= i < order@.len() implies (#[trigger] order@[i]) < index + 1 by {
                assert(order@[i] <= index);
            }
            assert forall|k: usize| k < index + 1 implies order@.contains(k) by {
                if k < index {
                    assert(held.contains(k));
                }
            }
        }
        index += 1;
    }
    proof {
        assert forall|i: int, j: int| 0 <= i < j < order@.len() implies #[trigger] order@[i] != #[trigger] order@[j] by {
            lemma_ranking_total(words@, scores@, order@[i] as int, order@[j] as int);
        }
    }
    order
}

} // verus!
