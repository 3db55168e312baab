//! Word lists: each word once, each of them well-formed, and the list in
//! dictionary order.

use vstd::prelude::*;
use vstd::string::*;
use crate::word::{
    letters, is_word, all_words, listed, comes_before, word_basic_check, lemma_letters_injective,
    lemma_order_total,
};
use crate::recommend::{ranks_before, is_ranking, is_arrangement, sort_order};

verus! {

/// Some word stands in the list twice.
pub open spec fn has_duplicate(list: Seq<String>) -> bool {
    exists|i: int, j: int| 0 <= i < j < list.len() && (#[trigger] list[i])@ == (#[trigger] list[j])@
}

/// Every word of `part` occurs in `whole`.
pub open spec fn is_sublist(part: Seq<String>, whole: Seq<String>) -> bool {
    forall|i: int| 0 <= i < part.len() ==> #[trigger] listed(whole, &part[i])
}

/// Two lists of the same length that hold the same words.
pub open spec fn same_words(a: Seq<String>, b: Seq<String>) -> bool {
    &&& a.len() == b.len()
    &&& is_sublist(a, b)
    &&& is_sublist(b, a)
}

/// The list is in dictionary order, each word before the next.
pub open spec fn ascending(list: Seq<String>) -> bool {
    forall|i: int, j: int|
        0 <= i < j < list.len() ==> comes_before(letters(#[trigger] &list[i]), letters(#[trigger] &list[j]))
}

/// What is wrong with a word list.
#[derive(Clone, Copy, Debug, PartialEq, Eq, Structural)]
pub enum WordListError {
    /// A word stands in the list twice.
    Duplicate,
    /// An entry is not a word of five upper-case letters.
    Malformed,
}

/// What is wrong with a word list, if anything; a word that stands twice
/// is reported before an entry that is no word.
pub open spec fn list_fault(list: Seq<String>) -> Option<WordListError> {
    if has_duplicate(list) {
        Some(WordListError::Duplicate)
    } else if !all_words(list) {
        Some(WordListError::Malformed)
    } else {
        None
    }
}

/// As many zeros as the list has words: a ranking by these is the
/// dictionary order.
fn level_scores(list: &Vec<String>) -> (scores: Vec<i64>)
    ensures
        scores@.len() == list@.len(),
        forall|i: int| 0 <= i < scores@.len() ==> #[trigger] scores@[i] == 0,
{
    let mut scores: Vec<i64> = Vec::new();
    let mut index: usize = 0;
    while index < list.len()
        invariant
            index <= list@.len(),
            scores@.len() == index,
            forall|i: int| 0 <= i < index ==> #[trigger] scores@[i] == 0,
        decreases list@.len() - index,
    {
        scores.push(0);
        index += 1;
    }
    scores
}

/// In a list ranked by its words alone, two entries with the same word
/// have an entry with that word right after the first of them.
proof fn lemma_twin_is_next(list: Seq<String>, scores: Seq<i64>, order: Seq<usize>, p: int, q: int)
    requires
        list.len() == scores.len(),
        forall|i: int| 0 <= i < scores.len() ==> #[trigger] scores[i] == 0,
        is_ranking(list, scores, list.len() as int, order),
        is_arrangement(order, list.len() as int),
        0 <= p < q < order.len(),
        list[order[p] as int]@ == list[order[q] as int]@,
    ensures
        list[order[p] as int]@ == list[order[p + 1] as int]@,
{
    if p + 1 < q {
        let a = order[p] as int;
        let b = order[p + 1] as int;
        let c = order[q] as int;
        assert(ranks_before(list, scores, a, b));
        assert(ranks_before(list, scores, b, c));
        lemma_order_total(letters(&list[a]), letters(&list[b]));
        lemma_order_total(letters(&list[b]), letters(&list[c]));
        lemma_letters_injective(&list[a], &list[b]);
    }
}

/// The positions of a list in the dictionary order of its words.
pub fn word_order(list: &Vec<String>) -> (order: Vec<usize>)
    ensures
        is_arrangement(order@, list@.len() as int),
        forall|p: int, q: int|
            0 <= p < q < order@.len() ==> !comes_before(
                letters(&list@[#[trigger] order@[q] as int]),
                letters(&list@[#[trigger] order@[p] as int]),
            ),
        !has_duplicate(list@) ==> forall|p: int, q: int|
            0 <= p < q < order@.len() ==> comes_before(
                letters(&list@[#[trigger] order@[p] as int]),
                letters(&list@[#[trigger] order@[q] as int]),
            ),
        has_duplicate(list@) <==> exists|p: int|
            0 <= p < order@.len() - 1 && list@[#[trigger] order@[p] as int]@ == list@[order@[p + 1] as int]@,
{
    let scores = level_scores(list);
    let order = sort_order(list, &scores);
    proof {
        assert forall|p: int, q: int| 0 <= p < q < order@.len() implies !comes_before(
            letters(&list@[#[trigger] order@[q] as int]),
            letters(&list@[#[trigger] order@[p] as int]),
        ) by {
            assert(ranks_before(list@, scores@, order@[p] as int, order@[q] as int));
            lemma_order_total(letters(&list@[order@[p] as int]), letters(&list@[order@[q] as int]));
        }
        if has_duplicate(list@) {
            let (i, j) = choose|i: int, j: int|
                0 <= i < j < list@.len() && (#[trigger] list@[i])@ == (#[trigger] list@[j])@;
            assert(list@.len() == list.len());
            let iu = i as usize;
            let ju = j as usize;
            assert(iu == i && ju == j);
            assert(order@.contains(iu) && order@.contains(ju));
            let p = choose|p: int| 0 <= p < order@.len() && order@[p] == iu;
            let q = choose|q: int| 0 <= q < order@.len() && order@[q] == ju;
            assert(list@[order@[p] as int] == list@[i] && list@[order@[q] as int] == list@[j]);
            assert(p != q);
            if p < q {
                lemma_twin_is_next(list@, scores@, order@, p, q);
                assert(list@[order@[p] as int]@ == list@[order@[p + 1] as int]@);
            } else {
                lemma_twin_is_next(list@, scores@, order@, q, p);
                assert(list@[order@[q] as int]@ == list@[order@[q + 1] as int]@);
            }
        } else {
            assert forall|p: int, q: int| 0 <= p < q < order@.len() implies comes_before(
                letters(&list@[#[trigger] order@[p] as int]),
                letters(&list@[#[trigger] order@[q] as int]),
            ) by {
                let a = order@[p] as int;
                let b = order@[q] as int;
                assert(ranks_before(list@, scores@, a, b));
                if letters(&list@[a]) == letters(&list@[b]) {
                    lemma_letters_injective(&list@[a], &list@[b]);
                    if a < b {
                        assert(list@[a]@ == list@[b]@);
                    } else {
                        assert(list@[b]@ == list@[a]@);
                    }
                }
            }
        }
        if exists|p: int|
            0 <= p < order@.len() - 1 && list@[#[trigger] order@[p] as int]@ == list@[order@[p + 1] as int]@ {
            let p = choose|p: int|
                0 <= p < order@.len() - 1 && list@[#[trigger] order@[p] as int]@ == list@[order@[p + 1] as int]@;
            let a = order@[p] as int;
            let b = order@[p + 1] as int;
            assert(a != b);
            if a < b {
                assert(list@[a]@ == list@[b]@);
            } else {
                assert(list@[b]@ == list@[a]@);
            }
        }
    }
    order
}

/// Checks a word list, no word twice and every entry a well-formed word,
/// and gives the positions of its words in dictionary order.
pub fn checked_order(list: &Vec<String>) -> (result: Result<Vec<usize>, WordListError>)
    ensures
        match result {
            Ok(order) => {
                &&& list_fault(list@) is None
                &&& is_arrangement(order@, list@.len() as int)
                &&& forall|p: int, q: int|
                    0 <= p < q < order@.len() ==> comes_before(
                        letters(&list@[#[trigger] order@[p] as int]),
                        letters(&list@[#[trigger] order@[q] as int]),
                    )
            },
            Err(e) => list_fault(list@) == Some(e),
        },
{
    let order = word_order(list);
    let mut place: usize = 1;
    while place < order.len()
        invariant
            1 <= place,
            is_arrangement(order@, list@.len() as int),
            has_duplicate(list@) <==> exists|p: int|
                0 <= p < order@.len() - 1 && list@[#[trigger] order@[p] as int]@ == list@[order@[p + 1] as int]@,
            forall|p: int|
                0 <= p < place - 1 && p < order@.len() - 1 ==> list@[#[trigger] order@[p] as int]@ != list@[order@[p
                    + 1] as int]@,
        decreases order@.len() - place,
    {
        if list[order[place - 1]] == list[order[place]] {
            assert(list@[order@[place - 1] as int]@ == list@[order@[place - 1 + 1] as int]@);
            return Err(WordListError::Duplicate);
        }
        place += 1;
    }
    let mut index: usize = 0;
    while index < list.len()
        invariant
            index <= list@.len(),
            !has_duplicate(list@),
            forall|i: int| 0 <= i < index ==> is_word(letters(#[trigger] &list@[i])),
        decreases list@.len() - index,
    {
        if !word_basic_check(&list[index]) {
            return Err(WordListError::Malformed);
        }
        index += 1;
    }
    Ok(order)
}

/// Checks a word list: no word twice, every entry a well-formed word.
pub fn check_word_list(list: &Vec<String>) -> (result: Result<(), WordListError>)
    ensures
        result == match list_fault(list@) {
            Some(e) => Err::<(), WordListError>(e),
            None => Ok(()),
        },
{
    match checked_order(list) {
        Ok(_) => Ok(()),
        Err(e) => Err(e),
    }
}

/// The words of a list in the given order.
pub fn arranged(list: &Vec<String>, order: &Vec<usize>) -> (out: Vec<String>)
    requires
        forall|p: int| 0 <= p < order@.len() ==> (#[trigger] order@[p]) < list@.len(),
    ensures
        out@.len() == order@.len(),
        forall|p: int| 0 <= p < out@.len() ==> #[trigger] out@[p] == list@[order@[p] as int],
{
    let mut out: Vec<String> = Vec::new();
    let mut place: usize = 0;
    while place < order.len()
        invariant
            place <= order@.len(),
            out@.len() == place,
            forall|p: int| 0 <= p < order@.len() ==> (#[trigger] order@[p]) < list@.len(),
            forall|p: int| 0 <= p < place ==> #[trigger] out@[p] == list@[order@[p] as int],
        decreases order@.len() - place,
    {
        out.push(list[order[place]].clone());
        place += 1;
    }
    out
}

/// A list and its words in the order of an arrangement hold the same
/// words.
pub proof fn lemma_arranged_same_words(list: Seq<String>, order: Seq<usize>, out: Seq<String>)
    requires
        list.len() <= usize::MAX,
        is_arrangement(order, list.len() as int),
        out.len() == order.len(),
        forall|p: int| 0 <= p < out.len() ==> #[trigger] out[p] == list[order[p] as int],
    ensures
        same_words(out, list),
        all_words(list) ==> all_words(out),
{
    assert forall|i: int| 0 <= i < list.len() implies #[trigger] listed(out, &list[i]) by {
        assert(order.contains(i as usize));
        let p = choose|p: int| 0 <= p < order.len() && order[p] == i as usize;
        assert(out[p]@ == list[i]@);
    }
    assert forall|p: int| 0 <= p < out.len() implies #[trigger] listed(list, &out[p]) by {
        assert(list[order[p] as int]@ == out[p]@);
    }
    if all_words(list) {
        assert forall|p: int| 0 <= p < out.len() implies is_word(letters(#[trigger] &out[p])) by {
            assert(is_word(letters(&list[order[p] as int])));
        }
    }
}

/// A list has a word twice exactly if its words in the order of an
/// arrangement have.
pub proof fn lemma_arranged_duplicates(list: Seq<String>, order: Seq<usize>, out: Seq<String>)
    requires
        list.len() <= usize::MAX,
        is_arrangement(order, list.len() as int),
        out.len() == order.len(),
        forall|p: int| 0 <= p < out.len() ==> #[trigger] out[p] == list[order[p] as int],
    ensures
        has_duplicate(out) == has_duplicate(list),
{
    if has_duplicate(out) {
        let (p, q) = choose|p: int, q: int| 0 <= p < q < out.len() && (#[trigger] out[p])@ == (#[trigger] out[q])@;
        let a = order[p] as int;
        let b = order[q] as int;
        assert(order[p] != order[q]);
        assert(out[p] == list[a] && out[q] == list[b]);
        lemma_pair_is_duplicate(list, a, b);
    }
    if has_duplicate(list) {
        let (i, j) = choose|i: int, j: int| 0 <= i < j < list.len() && (#[trigger] list[i])@ == (#[trigger] list[j])@;
        assert(order.contains(i as usize) && order.contains(j as usize));
        let p = choose|p: int| 0 <= p < order.len() && order[p] == i as usize;
        let q = choose|q: int| 0 <= q < order.len() && order[q] == j as usize;
        assert(out[p] == list[i] && out[q] == list[j]);
        lemma_pair_is_duplicate(out, p, q);
    }
}

/// Two entries with one word make a duplicate.
proof fn lemma_pair_is_duplicate(list: Seq<String>, a: int, b: int)
    requires
        0 <= a < list.len(),
        0 <= b < list.len(),
        a != b,
        list[a]@ == list[b]@,
    ensures
        has_duplicate(list),
{
    if a < b {
        assert(list[a]@ == list[b]@);
    } else {
        assert(list[b]@ == list[a]@);
    }
}

/// Tells whether every word of `part` occurs in `whole`.
pub fn is_subset(part: &Vec<String>, whole: &Vec<String>) -> (ok: bool)
    ensures
        ok == is_sublist(part@, whole@),
{
    let mut index: usize = 0;
    while index < part.len()
        invariant
            index <= part@.len(),
            forall|i: int| 0 <= i < index ==> #[trigger] listed(whole@, &part@[i]),
        decreases part@.len() - index,
    {
        if !contains_word(whole, &part[index]) {
            return false;
        }
        index += 1;
    }
    true
}

/// Tells whether the word occurs in the list.
pub fn contains_word(list: &Vec<String>, word: &String) -> (found: bool)
    ensures
        found == listed(list@, word),
{
    let mut index: usize = 0;
    while index < list.len()
        invariant
            index <= list@.len(),
            forall|i: int| 0 <= i < index ==> (#[trigger] list@[i])@ != word@,
        decreases list@.len() - index,
    {
        if list[index] == *word {
            return true;
        }
        index += 1;
    }
    false
}

} // verus!
