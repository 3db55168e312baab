//! Counting letters among the positions that are still open, and the
//! left-to-right claiming of the first free occurrence of a letter.

use vstd::prelude::*;

verus! {

/// How many positions below `n` are open and hold `letter`.
pub open spec fn tally(letters: Seq<u8>, open: Seq<bool>, letter: u8, n: int) -> nat
    decreases n,
{
    if n <= 0 {
        0
    } else if open[n - 1] && letters[n - 1] == letter {
        tally(letters, open, letter, n - 1) + 1
    } else {
        tally(letters, open, letter, n - 1)
    }
}

/// A longer prefix never counts fewer positions.
pub proof fn lemma_tally_monotone(letters: Seq<u8>, open: Seq<bool>, letter: u8, m: int, n: int)
    requires
        m <= n,
    ensures
        tally(letters, open, letter, m) <= tally(letters, open, letter, n),
    decreases n - m,
{
    if m < n {
        lemma_tally_monotone(letters, open, letter, m, n - 1);
    }
}

/// An open position that holds the letter is counted by every longer prefix.
pub proof fn lemma_tally_counts(letters: Seq<u8>, open: Seq<bool>, letter: u8, k: int, n: int)
    requires
        0 <= k < n,
        open[k],
        letters[k] == letter,
    ensures
        tally(letters, open, letter, k) < tally(letters, open, letter, n),
{
    assert(tally(letters, open, letter, k + 1) == tally(letters, open, letter, k) + 1);
    lemma_tally_monotone(letters, open, letter, k + 1, n);
}

/// Below every count that a prefix reaches there is an open position of the
/// letter at which the count stood exactly there.
pub proof fn lemma_tally_position(
    letters: Seq<u8>,
    open: Seq<bool>,
    letter: u8,
    n: int,
    r: int,
) -> (k: int)
    requires
        0 <= r < tally(letters, open, letter, n),
    ensures
        0 <= k < n,
        open[k],
        letters[k] == letter,
        tally(letters, open, letter, k) == r,
    decreases n,
{
    if open[n - 1] && letters[n - 1] == letter && tally(letters, open, letter, n - 1) == r {
        n - 1
    } else {
        lemma_tally_position(letters, open, letter, n - 1, r)
    }
}

/// The list holds, in ascending order, exactly the positions of `letter`.
pub open spec fn lists_positions(list: Seq<usize>, letters: Seq<u8>, letter: u8) -> bool {
    &&& forall|j: int| 0 <= j < list.len() ==> (#[trigger] list[j]) < letters.len() && letters[list[j] as int] == letter
    &&& forall|i: int, j: int| 0 <= i < j < list.len() ==> (#[trigger] list[i]) < (#[trigger] list[j])
    &&& forall|k: int| 0 <= k < letters.len() && #[trigger] letters[k] == letter ==> exists|j: int| 0 <= j < list.len() && #[trigger] list[j] == k
}

/// Finds every position at which the word holds the letter, in ascending
/// order; `None` when it holds the letter nowhere.
pub fn vec_search(secret_word_assci: &Vec<u8>, guess_letter: u8) -> (found: Option<Vec<usize>>)
    ensures
        match found {
            Some(all_index) => all_index@.len() > 0 && lists_positions(all_index@, secret_word_assci@, guess_letter),
            None => forall|k: int| 0 <= k < secret_word_assci@.len() ==> secret_word_assci@[k] != guess_letter,
        },
{
    let len = secret_word_assci.len();
    let mut all_index: Vec<usize> = Vec::new();
    let mut index: usize = 0;
    while index < len
        invariant
            index <= len,
            len == secret_word_assci@.len(),
            lists_positions(all_index@, secret_word_assci@.take(index as int), guess_letter),
        decreases len - index,
    {
        let ghost before = all_index@;
        if secret_word_assci[index] == guess_letter {
            all_index.push(index);
        }
        proof {
            let old_prefix = secret_word_assci@.take(index as int);
            let prefix = secret_word_assci@.take(index + 1);
            assert forall|k: int| 0 <= k < prefix.len() && #[trigger] prefix[k] == guess_letter implies exists|
                j: int,
            | 0 <= j < all_index@.len() && #[trigger] all_index@[j] == k by {
                if k < index {
                    assert(old_prefix[k] == guess_letter);
                    let j = choose|j: int| 0 <= j < before.len() && #[trigger] before[j] == k;
                    assert(all_index@[j] == k);
                } else {
                    assert(all_index@[all_index@.len() - 1] == k);
                }
            }
            assert forall|j: int| 0 <= j < all_index@.len() implies (#[trigger] all_index@[j]) < prefix.len()
                && prefix[all_index@[j] as int] == guess_letter by {
                if j < before.len() {
                    assert(before[j] < old_prefix.len());
                }
            }
            assert forall|i: int, j: int| 0 <= i < j < all_index@.len() implies (#[trigger] all_index@[i]) < (
            #[trigger] all_index@[j]) by {
                if j < before.len() {
                    assert(before[i] < before[j]);
                } else {
                    assert(before[i] < old_prefix.len());
                }
            }
        }
        index += 1;
    }
    assert(secret_word_assci@.take(len as int) == secret_word_assci@);
    if all_index.is_empty() {
        None
    } else {
        Some(all_index)
    }
}

/// What claiming the first free occurrence of `letter` does: `slot` is the
/// lowest position that holds the letter and was not claimed, and only that
/// position changes; with no such position nothing changes.
pub open spec fn first_free_claimed(
    letters: Seq<u8>,
    letter: u8,
    before: Seq<bool>,
    after: Seq<bool>,
    slot: Option<usize>,
) -> bool {
    match slot {
        Some(k) => {
            &&& k < letters.len()
            &&& letters[k as int] == letter
            &&& !before[k as int]
            &&& forall|j: int| 0 <= j < k && letters[j] == letter ==> #[trigger] before[j]
            &&& after == before.update(k as int, true)
        },
        None => {
            &&& forall|j: int| 0 <= j < letters.len() && letters[j] == letter ==> #[trigger] before[j]
            &&& after == before
        },
    }
}

/// Claims the lowest position that holds `letter` and is still free.
pub fn claim_first(letters: &Vec<u8>, claimed: &mut Vec<bool>, letter: u8) -> (slot: Option<usize>)
    requires
        old(claimed)@.len() == letters@.len(),
    ensures
        first_free_claimed(letters@, letter, old(claimed)@, final(claimed)@, slot),
{
    match vec_search(letters, letter) {
        Some(all_index) => {
            let mut j: usize = 0;
            while j < all_index.len()
                invariant
                    j <= all_index@.len(),
                    claimed@ == old(claimed)@,
                    claimed@.len() == letters@.len(),
                    lists_positions(all_index@, letters@, letter),
                    forall|i: int| 0 <= i < j ==> claimed@[(#[trigger] all_index@[i]) as int],
                decreases all_index@.len() - j,
            {
                let k = all_index[j];
                if !claimed[k] {
                    claimed[k] = true;
                    proof {
                        assert forall|p: int| 0 <= p < k && letters@[p] == letter implies #[trigger] old(
                            claimed,
                        )@[p] by {
                            let i = choose|i: int| 0 <= i < all_index@.len() && #[trigger] all_index@[i] == p;
                            if i >= j {
                                if i > j {
                                    assert(all_index@[j as int] < all_index@[i]);
                                }
                            }
                        }
                    }
                    return Some(k);
                }
                j += 1;
            }
            proof {
                assert forall|p: int| 0 <= p < letters@.len() && letters@[p] == letter implies #[trigger] old(
                    claimed,
                )@[p] by {
                    let i = choose|i: int| 0 <= i < all_index@.len() && #[trigger] all_index@[i] == p;
                }
            }
            None
        },
        None => None,
    }
}

/// The state of a left-to-right matching of demands against a supply. Each
/// wanted position below `i` of `demand` has claimed the first free open
/// position of `supply` that holds its letter, if there was one. A position
/// of the supply is then claimed exactly if it is closed, or fewer open
/// positions of its letter precede it than were wanted so far.
pub open spec fn claims_cover(
    supply: Seq<u8>,
    open: Seq<bool>,
    demand: Seq<u8>,
    wanted: Seq<bool>,
    i: int,
    claimed: Seq<bool>,
) -> bool {
    &&& claimed.len() == supply.len()
    &&& forall|k: int|
        0 <= k < supply.len() ==> (#[trigger] claimed[k] <==> (!open[k] || tally(supply, open, supply[k], k)
            < tally(demand, wanted, supply[k], i)))
}

/// Before any demand is served, exactly the closed positions are claimed.
pub proof fn lemma_claims_start(supply: Seq<u8>, open: Seq<bool>, demand: Seq<u8>, wanted: Seq<bool>, claimed: Seq<bool>)
    requires
        claimed.len() == supply.len(),
        forall|k: int| 0 <= k < supply.len() ==> #[trigger] claimed[k] == !open[k],
    ensures
        claims_cover(supply, open, demand, wanted, 0, claimed),
{
}

/// A position that wants nothing leaves the claims as they are.
pub proof fn lemma_claim_skip(
    supply: Seq<u8>,
    open: Seq<bool>,
    demand: Seq<u8>,
    wanted: Seq<bool>,
    i: int,
    claimed: Seq<bool>,
)
    requires
        0 <= i,
        !wanted[i],
        claims_cover(supply, open, demand, wanted, i, claimed),
    ensures
        claims_cover(supply, open, demand, wanted, i + 1, claimed),
{
    assert forall|k: int| 0 <= k < supply.len() implies (#[trigger] claimed[k] <==> (!open[k] || tally(
        supply,
        open,
        supply[k],
        k,
    ) < tally(demand, wanted, supply[k], i + 1))) by {
        assert(tally(demand, wanted, supply[k], i + 1) == tally(demand, wanted, supply[k], i));
    }
}

/// Serving the wanted position `i`: the claim succeeds exactly if fewer
/// positions wanted the letter before than the supply has open positions of
/// it, and the claims then cover the positions up to and including `i`.
pub proof fn lemma_claim_step(
    supply: Seq<u8>,
    open: Seq<bool>,
    demand: Seq<u8>,
    wanted: Seq<bool>,
    i: int,
    before: Seq<bool>,
    after: Seq<bool>,
    slot: Option<usize>,
)
    requires
        0 <= i,
        wanted[i],
        claims_cover(supply, open, demand, wanted, i, before),
        first_free_claimed(supply, demand[i], before, after, slot),
    ensures
        slot is Some <==> tally(demand, wanted, demand[i], i) < tally(
            supply,
            open,
            demand[i],
            supply.len() as int,
        ),
        claims_cover(supply, open, demand, wanted, i + 1, after),
{
    let letter = demand[i];
    let n = supply.len() as int;
    let served = tally(demand, wanted, letter, i);
    assert(tally(demand, wanted, letter, i + 1) == served + 1);
    match slot {
        Some(slot_k) => {
            let k = slot_k as int;
            assert(tally(supply, open, letter, k) >= served);
            if tally(supply, open, letter, k) > served {
                let j = lemma_tally_position(supply, open, letter, k, served as int);
                assert(before[j]);
            }
            lemma_tally_counts(supply, open, letter, k, n);
            assert forall|p: int| 0 <= p < n implies (#[trigger] after[p] <==> (!open[p] || tally(
                supply,
                open,
                supply[p],
                p,
            ) < tally(demand, wanted, supply[p], i + 1))) by {
                if supply[p] != letter {
                    assert(tally(demand, wanted, supply[p], i + 1) == tally(demand, wanted, supply[p], i));
                } else if p < k {
                    if open[p] {
                        lemma_tally_counts(supply, open, letter, p, k);
                    }
                } else if k < p {
                    lemma_tally_counts(supply, open, letter, k, p);
                }
            }
        },
        None => {
            if served < tally(supply, open, letter, n) {
                let j = lemma_tally_position(supply, open, letter, n, served as int);
                assert(before[j]);
            }
            assert forall|p: int| 0 <= p < n implies (#[trigger] after[p] <==> (!open[p] || tally(
                supply,
                open,
                supply[p],
                p,
            ) < tally(demand, wanted, supply[p], i + 1))) by {
                if supply[p] != letter {
                    assert(tally(demand, wanted, supply[p], i + 1) == tally(demand, wanted, supply[p], i));
                }
            }
        },
    }
}

} // verus!
