//! The cost of building a text when a symbol already used may be copied
//! for free: the number of distinct symbols.

use crate::algorithm::text::{is_letter, lemma_contains_next, lemma_letters, letter, letter_index};
use vstd::prelude::*;

verus! {

/// Number of positions of `s` whose symbol has not occurred before.
pub open spec fn distinct_symbols(s: Seq<char>) -> nat
    decreases s.len(),
{
    if s.len() == 0 {
        0
    } else {
        distinct_symbols(s.drop_last()) + if s.drop_last().contains(s.last()) {
            0nat
        } else {
            1nat
        }
    }
}

/// Every symbol is a lower-case letter.
pub open spec fn all_letters(s: Seq<char>) -> bool {
    forall|i: int| 0 <= i < s.len() ==> is_letter(#[trigger] s[i])
}

/// Number of `true` entries.
pub open spec fn count_true(seen: Seq<bool>) -> nat
    decreases seen.len(),
{
    if seen.len() == 0 {
        0
    } else {
        count_true(seen.drop_last()) + if seen.last() {
            1nat
        } else {
            0nat
        }
    }
}

pub proof fn lemma_count_true_bounded(seen: Seq<bool>)
    ensures
        count_true(seen) <= seen.len(),
    decreases seen.len(),
{
    if seen.len() > 0 {
        lemma_count_true_bounded(seen.drop_last());
    }
}

pub proof fn lemma_count_true_none(seen: Seq<bool>)
    requires
        forall|k: int| 0 <= k < seen.len() ==> !#[trigger] seen[k],
    ensures
        count_true(seen) == 0,
    decreases seen.len(),
{
    if seen.len() > 0 {
        assert forall|k: int| 0 <= k < seen.drop_last().len() implies !#[trigger] seen.drop_last()[k] by {
            assert(seen.drop_last()[k] == seen[k]);
        }
        lemma_count_true_none(seen.drop_last());
        assert(!seen[seen.len() - 1]);
    }
}

/// Setting one more entry adds one.
pub proof fn lemma_count_true_update(seen: Seq<bool>, at: int)
    requires
        0 <= at < seen.len(),
        !seen[at],
    ensures
        count_true(seen.update(at, true)) == count_true(seen) + 1,
    decreases seen.len(),
{
    let after = seen.update(at, true);
    if at == seen.len() - 1 {
        assert(after.drop_last() =~= seen.drop_last());
    } else {
        lemma_count_true_update(seen.drop_last(), at);
        assert(after.drop_last() =~= seen.drop_last().update(at, true));
    }
}

/// The number of distinct letters of `s`, a text of lower-case letters.
pub fn string_construction(s: &str) -> (cost: i32)
    requires
        all_letters(s@),
    ensures
        cost == distinct_symbols(s@),
        0 <= cost <= 26,
{
    let mut cost: i32 = 0;
    let mut free: Vec<bool> = Vec::new();
    let mut k: usize = 0;
    while k < 26
        invariant
            k <= 26,
            free@.len() == k,
            forall|j: int| 0 <= j < k ==> !(#[trigger] free@[j]),
        decreases 26 - k,
    {
        free.push(false);
        k = k + 1;
    }
    proof {
        assert(s@.take(0) =~= Seq::<char>::empty());
        lemma_count_true_none(free@);
    }
    for ch in it: s.chars()
        invariant
            it.seq() == s@,
            all_letters(s@),
            free@.len() == 26,
            forall|k: int|
                0 <= k < 26 ==> #[trigger] free@[k] == s@.take(it.index()).contains(letter(k)),
            cost == distinct_symbols(s@.take(it.index())),
            cost == count_true(free@),
    {
        let ghost i = it.index();
        let ghost before = free@;
        proof {
            assert(is_letter(s@[i]));
            assert(s@.take(i + 1).drop_last() =~= s@.take(i));
            lemma_count_true_bounded(free@);
        }
        let index = match letter_index(ch) {
            Some(index) => index,
            None => 0,
        };
        if !free[index] {
            free[index] = true;
            cost = cost + 1;
            proof {
                lemma_count_true_update(before, index as int);
                assert(free@ =~= before.update(index as int, true));
            }
        }
        proof {
            assert forall|k: int| 0 <= k < 26 implies #[trigger] free@[k] == s@.take(
                i + 1,
            ).contains(letter(k)) by {
                lemma_contains_next(s@, i, letter(k));
                lemma_letters(index as int, k);
                assert(before[k] == s@.take(i).contains(letter(k)));
            }
        }
    }
    proof {
        assert(s@.take(s@.len() as int) =~= s@);
        lemma_count_true_bounded(free@);
    }
    cost
}

} // verus!
