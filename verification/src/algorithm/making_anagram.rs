//! How many letters must be deleted from two texts to leave anagrams of
//! each other.

use crate::algorithm::text::{lemma_letters, lemma_tally_bounded, letter, letter_counts, tally};
use vstd::prelude::*;

verus! {

/// By how much the counts of the first `n` letters of the alphabet differ
/// between `a` and `b`, letter by letter.
pub open spec fn letter_gap(a: Seq<char>, b: Seq<char>, n: nat) -> nat
    decreases n,
{
    if n == 0 {
        0
    } else {
        let k = (n - 1) as int;
        let left = tally(a, letter(k));
        let right = tally(b, letter(k));
        letter_gap(a, b, (n - 1) as nat) + if left >= right {
            (left - right) as nat
        } else {
            (right - left) as nat
        }
    }
}

/// How many of the symbols of `s` are among the first `n` letters.
pub open spec fn letter_total(s: Seq<char>, n: nat) -> nat
    decreases n,
{
    if n == 0 {
        0
    } else {
        letter_total(s, (n - 1) as nat) + tally(s, letter(n - 1))
    }
}

/// One more symbol adds at most one to the letters counted.
proof fn lemma_letter_total_step(s: Seq<char>, n: nat)
    requires
        s.len() > 0,
        n <= 26,
    ensures
        letter_total(s, n) <= letter_total(s.drop_last(), n) + 1,
        (forall|k: int| 0 <= k < n ==> s.last() != #[trigger] letter(k)) ==> letter_total(s, n)
            == letter_total(s.drop_last(), n),
    decreases n,
{
    if n > 0 {
        lemma_letter_total_step(s, (n - 1) as nat);
        let top = (n - 1) as int;
        if s.last() == letter(top) {
            assert forall|k: int| 0 <= k < n - 1 implies s.last() != #[trigger] letter(k) by {
                lemma_letters(k, top);
            }
        }
    }
}

/// No more letters are counted than there are symbols.
pub proof fn lemma_letter_total_bounded(s: Seq<char>, n: nat)
    requires
        n <= 26,
    ensures
        letter_total(s, n) <= s.len(),
    decreases s.len(),
{
    if s.len() > 0 {
        lemma_letter_total_bounded(s.drop_last(), n);
        lemma_letter_total_step(s, n);
    } else {
        assert(s =~= Seq::<char>::empty());
        lemma_letter_total_empty(n);
    }
}

proof fn lemma_letter_total_empty(n: nat)
    ensures
        letter_total(Seq::<char>::empty(), n) == 0,
    decreases n,
{
    if n > 0 {
        lemma_letter_total_empty((n - 1) as nat);
    }
}

/// The counts differ by no more than they add up to.
pub proof fn lemma_letter_gap_bounded(a: Seq<char>, b: Seq<char>, n: nat)
    ensures
        letter_gap(a, b, n) <= letter_total(a, n) + letter_total(b, n),
    decreases n,
{
    if n > 0 {
        lemma_letter_gap_bounded(a, b, (n - 1) as nat);
    }
}

/// The number of lower-case letters to delete from `s1` and `s2` together
/// so that what is left of one is an anagram of what is left of the other.
/// Symbols that are not lower-case letters do not count.
pub fn making_anagrams(s1: &str, s2: &str) -> (answer: i32)
    requires
        s1@.len() + s2@.len() <= i32::MAX,
    ensures
        answer == letter_gap(s1@, s2@, 26),
{
    let left = letter_counts(s1);
    let right = letter_counts(s2);
    let mut answer: i32 = 0;
    let mut index: usize = 0;
    while index < 26
        invariant
            index <= 26,
            left@.len() == 26,
            right@.len() == 26,
            forall|k: int| 0 <= k < 26 ==> #[trigger] left@[k] == tally(s1@, letter(k)),
            forall|k: int| 0 <= k < 26 ==> #[trigger] right@[k] == tally(s2@, letter(k)),
            s1@.len() + s2@.len() <= i32::MAX,
            answer == letter_gap(s1@, s2@, index as nat),
        decreases 26 - index,
    {
        proof {
            lemma_letter_gap_bounded(s1@, s2@, (index + 1) as nat);
            lemma_letter_total_bounded(s1@, (index + 1) as nat);
            lemma_letter_total_bounded(s2@, (index + 1) as nat);
            lemma_tally_bounded(s1@, letter(index as int));
            lemma_tally_bounded(s2@, letter(index as int));
        }
        let diff: usize = if left[index] >= right[index] {
            left[index] - right[index]
        } else {
            right[index] - left[index]
        };
        answer = answer + diff as i32;
        index = index + 1;
    }
    answer
}

} // verus!
