//! Texts as sequences of symbols, and the lower-case Latin letters.

use vstd::prelude::*;

verus! {

/// The symbols of a text, one by one.
pub fn chars_of(s: &str) -> (v: Vec<char>)
    ensures
        v@ == s@,
{
    let mut v: Vec<char> = Vec::new();
    for c in it: s.chars()
        invariant
            it.seq() == s@,
            v@ == s@.take(it.index()),
    {
        v.push(c);
        assert(v@ =~= s@.take(it.index() + 1));
    }
    assert(v@ =~= s@);
    v
}

/// The `k`-th lower-case letter, counting `a` as letter 0.
pub open spec fn letter(k: int) -> char {
    ((97 + k) as u8) as char
}

/// Whether `c` is one of the 26 lower-case letters.
pub open spec fn is_letter(c: char) -> bool {
    97 <= c as u32 <= 122
}

/// The position of `c` in the alphabet, if it is a lower-case letter.
pub fn letter_index(c: char) -> (res: Option<usize>)
    ensures
        is_letter(c) ==> res is Some && res->Some_0 < 26 && letter(res->Some_0 as int) == c,
        !is_letter(c) ==> res is None,
{
    let code: u32 = c as u32;
    if 97 <= code && code <= 122 {
        Some((code - 97) as usize)
    } else {
        None
    }
}

/// Distinct positions of the alphabet hold distinct letters, all lower-case.
pub proof fn lemma_letters(j: int, k: int)
    requires
        0 <= j < 26,
        0 <= k < 26,
    ensures
        is_letter(letter(k)),
        letter(k) as u32 == 97 + k,
        letter(j) == letter(k) ==> j == k,
{
}

/// A sequence extended by one symbol contains what it contained before,
/// and that symbol.
pub proof fn lemma_contains_next(s: Seq<char>, i: int, x: char)
    requires
        0 <= i < s.len(),
    ensures
        s.take(i + 1).contains(x) <==> (s.take(i).contains(x) || s[i] == x),
{
    let longer = s.take(i + 1);
    let shorter = s.take(i);
    if shorter.contains(x) {
        let j = choose|j: int| 0 <= j < shorter.len() && shorter[j] == x;
        assert(longer[j] == x);
    }
    if s[i] == x {
        assert(longer[i] == x);
    }
    if longer.contains(x) {
        let j = choose|j: int| 0 <= j < longer.len() && longer[j] == x;
        if j < i {
            assert(shorter[j] == x);
        }
    }
}

/// For each letter of the alphabet, whether it occurs in `s`.
pub fn presence(s: &str) -> (seen: Vec<bool>)
    ensures
        seen@.len() == 26,
        forall|k: int| 0 <= k < 26 ==> #[trigger] seen@[k] == s@.contains(letter(k)),
{
    let mut seen: Vec<bool> = Vec::new();
    let mut k: usize = 0;
    while k < 26
        invariant
            k <= 26,
            seen@.len() == k,
            forall|j: int| 0 <= j < k ==> !(#[trigger] seen@[j]),
        decreases 26 - k,
    {
        seen.push(false);
        k = k + 1;
    }
    proof {
        assert(s@.take(0) =~= Seq::<char>::empty());
    }
    for c in it: s.chars()
        invariant
            it.seq() == s@,
            seen@.len() == 26,
            forall|k: int|
                0 <= k < 26 ==> #[trigger] seen@[k] == s@.take(it.index()).contains(letter(k)),
    {
        let ghost i = it.index();
        let ghost before = seen@;
        match letter_index(c) {
            Some(at) => {
                seen[at] = true;
            },
            None => {},
        }
        proof {
            assert forall|k: int| 0 <= k < 26 implies #[trigger] seen@[k] == s@.take(
                i + 1,
            ).contains(letter(k)) by {
                lemma_contains_next(s@, i, letter(k));
                lemma_letters(k, k);
                assert(before[k] == s@.take(i).contains(letter(k)));
                if is_letter(c) {
                    let at = letter_index_of(c);
                    lemma_letters(at, k);
                }
            }
        }
    }
    proof {
        assert(s@.take(s@.len() as int) =~= s@);
    }
    seen
}

/// The position of a lower-case letter in the alphabet.
pub open spec fn letter_index_of(c: char) -> int {
    c as u32 - 97
}

/// Number of times `c` occurs in `s`.
pub open spec fn tally(s: Seq<char>, c: char) -> nat
    decreases s.len(),
{
    if s.len() == 0 {
        0
    } else {
        tally(s.drop_last(), c) + if s.last() == c {
            1nat
        } else {
            0nat
        }
    }
}

pub proof fn lemma_tally_bounded(s: Seq<char>, c: char)
    ensures
        tally(s, c) <= s.len(),
    decreases s.len(),
{
    if s.len() > 0 {
        lemma_tally_bounded(s.drop_last(), c);
    }
}

/// For each letter of the alphabet, how often it occurs in `s`.
pub fn letter_counts(s: &str) -> (counts: Vec<usize>)
    ensures
        counts@.len() == 26,
        forall|k: int| 0 <= k < 26 ==> #[trigger] counts@[k] == tally(s@, letter(k)),
{
    let mut counts: Vec<usize> = Vec::new();
    let mut k: usize = 0;
    while k < 26
        invariant
            k <= 26,
            counts@.len() == k,
            forall|j: int| 0 <= j < k ==> #[trigger] counts@[j] == 0,
        decreases 26 - k,
    {
        counts.push(0);
        k = k + 1;
    }
    proof {
        assert(s@.take(0) =~= Seq::<char>::empty());
    }
    let chars = chars_of(s);
    let mut i: usize = 0;
    while i < chars.len()
        invariant
            i <= chars@.len(),
            chars@ == s@,
            counts@.len() == 26,
            forall|k: int|
                0 <= k < 26 ==> #[trigger] counts@[k] == tally(s@.take(i as int), letter(k)),
        decreases chars@.len() - i,
    {
        let c = chars[i];
        let ghost before = counts@;
        proof {
            assert(s@.take(i + 1).drop_last() =~= s@.take(i as int));
        }
        match letter_index(c) {
            Some(at) => {
                proof {
                    lemma_tally_bounded(s@.take(i as int), c);
                }
                counts[at] = counts[at] + 1;
            },
            None => {},
        }
        proof {
            assert forall|k: int| 0 <= k < 26 implies #[trigger] counts@[k] == tally(
                s@.take(i + 1),
                letter(k),
            ) by {
                lemma_letters(k, k);
                assert(before[k] == tally(s@.take(i as int), letter(k)));
                if is_letter(c) {
                    lemma_letters(letter_index_of(c), k);
                }
            }
        }
        i = i + 1;
    }
    proof {
        assert(s@.take(s@.len() as int) =~= s@);
    }
    counts
}

} // verus!
