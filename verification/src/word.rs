//! Words: five bytes, each an upper-case ASCII letter.

use vstd::prelude::*;
use vstd::string::*;
use vstd::utf8::*;

verus! {

/// Every word of the game has this many letters.
pub const WORD_LEN: usize = 5;

/// The bytes that a string is stored as.
pub open spec fn letters(word: &String) -> Seq<u8> {
    encode_utf8(word@)
}

/// An upper-case ASCII letter, `A` to `Z`.
pub open spec fn is_letter(b: u8) -> bool {
    65 <= b <= 90
}

/// A well-formed word: exactly five bytes, each an upper-case letter.
pub open spec fn is_word(w: Seq<u8>) -> bool {
    &&& w.len() == WORD_LEN
    &&& forall|i: int| 0 <= i < w.len() ==> is_letter(#[trigger] w[i])
}

/// Every string of the list is a well-formed word.
pub open spec fn all_words(list: Seq<String>) -> bool {
    forall|i: int| 0 <= i < list.len() ==> is_word(letters(#[trigger] &list[i]))
}

/// The string occurs in the list.
pub open spec fn listed(list: Seq<String>, word: &String) -> bool {
    exists|i: int| 0 <= i < list.len() && (#[trigger] list[i])@ == word@
}

/// Two strings with the same bytes are the same string.
pub proof fn lemma_letters_injective(a: &String, b: &String)
    requires
        letters(a) == letters(b),
    ensures
        a@ == b@,
{
    encode_utf8_decode_utf8(a@);
    encode_utf8_decode_utf8(b@);
}

/// Tells whether a string is a well-formed word.
pub fn word_basic_check(word: &String) -> (ok: bool)
    ensures
        ok == is_word(letters(word)),
{
    let bytes = word.as_str().as_bytes();
    if bytes.len() != WORD_LEN {
        return false;
    }
    let mut i: usize = 0;
    while i < WORD_LEN
        invariant
            i <= WORD_LEN,
            bytes@ == letters(word),
            bytes@.len() == WORD_LEN,
            forall|j: int| 0 <= j < i ==> is_letter(#[trigger] bytes@[j]),
        decreases WORD_LEN - i,
    {
        let b = bytes[i];
        if b < 65 || b > 90 {
            return false;
        }
        i += 1;
    }
    true
}

/// Dictionary order on byte strings: `a` comes strictly before `b`.
pub open spec fn comes_before(a: Seq<u8>, b: Seq<u8>) -> bool
    decreases a.len(),
{
    if b.len() == 0 {
        false
    } else if a.len() == 0 {
        true
    } else if a[0] != b[0] {
        a[0] < b[0]
    } else {
        comes_before(a.drop_first(), b.drop_first())
    }
}

/// No byte string comes before itself.
pub proof fn lemma_order_irreflexive(a: Seq<u8>)
    ensures
        !comes_before(a, a),
    decreases a.len(),
{
    if a.len() > 0 {
        lemma_order_irreflexive(a.drop_first());
    }
}

/// Of two different byte strings one comes before the other.
pub proof fn lemma_order_total(a: Seq<u8>, b: Seq<u8>)
    ensures
        a == b || comes_before(a, b) || comes_before(b, a),
        !(comes_before(a, b) && comes_before(b, a)),
    decreases a.len(),
{
    if a.len() == 0 || b.len() == 0 {
        if a.len() == 0 && b.len() == 0 {
            assert(a =~= b);
        }
    } else if a[0] == b[0] {
        lemma_order_total(a.drop_first(), b.drop_first());
        if a.drop_first() == b.drop_first() {
            assert(a =~= seq![a[0]] + a.drop_first());
            assert(b =~= seq![b[0]] + b.drop_first());
        }
    }
}

/// Dictionary order is transitive.
pub proof fn lemma_order_transitive(a: Seq<u8>, b: Seq<u8>, c: Seq<u8>)
    requires
        comes_before(a, b),
        comes_before(b, c),
    ensures
        comes_before(a, c),
    decreases a.len(),
{
    if a.len() > 0 && a[0] == b[0] && b[0] == c[0] {
        lemma_order_transitive(a.drop_first(), b.drop_first(), c.drop_first());
    }
}

/// Tells whether `a` comes before `b` in dictionary order.
pub fn bytes_before(a: &[u8], b: &[u8]) -> (before: bool)
    ensures
        before == comes_before(a@, b@),
{
    let mut i: usize = 0;
    assert(a@.skip(0) =~= a@ && b@.skip(0) =~= b@);
    while i < a.len() && i < b.len()
        invariant
            i <= a@.len(),
            i <= b@.len(),
            comes_before(a@, b@) == comes_before(a@.skip(i as int), b@.skip(i as int)),
        decreases a@.len() - i,
    {
        proof {
            assert(a@.skip(i as int).drop_first() =~= a@.skip(i + 1));
            assert(b@.skip(i as int).drop_first() =~= b@.skip(i + 1));
        }
        if a[i] != b[i] {
            return a[i] < b[i];
        }
        i += 1;
    }
    a.len() < b.len()
}

} // verus!
