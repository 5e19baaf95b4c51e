//! Whether the symbols of a text can be rearranged into a palindrome.

use crate::algorithm::text::{chars_of, tally};
use vstd::prelude::*;

verus! {

/// `c` occurs an odd number of times in `s`.
pub open spec fn odd_in(s: Seq<char>, c: char) -> bool {
    tally(s, c) % 2 == 1
}

/// At most one symbol occurs an odd number of times: exactly then can the
/// symbols be arranged to read the same in both directions.
pub open spec fn can_be_palindrome(s: Seq<char>) -> bool {
    forall|c: char, d: char| odd_in(s, c) && odd_in(s, d) ==> c == d
}

/// The least symbol of `s` is the digit zero.
pub open spec fn least_is_zero(s: Seq<char>) -> bool {
    s.contains('0') && forall|i: int| 0 <= i < s.len() ==> (#[trigger] s[i]) as u32 >= '0' as u32
}

/// A symbol that is counted occurs.
pub proof fn lemma_tally_positive(s: Seq<char>, c: char)
    requires
        tally(s, c) > 0,
    ensures
        s.contains(c),
    decreases s.len(),
{
    if s.last() == c {
        assert(s[s.len() - 1] == c);
    } else {
        lemma_tally_positive(s.drop_last(), c);
        let j = choose|j: int| 0 <= j < s.drop_last().len() && s.drop_last()[j] == c;
        assert(s[j] == c);
    }
}

/// Number of times `c` occurs in `s`.
pub fn count_symbol(s: &Vec<char>, c: char) -> (n: usize)
    ensures
        n == tally(s@, c),
{
    let mut n: usize = 0;
    let mut i: usize = 0;
    while i < s.len()
        invariant
            i <= s@.len(),
            n <= i,
            n == tally(s@.take(i as int), c),
        decreases s@.len() - i,
    {
        proof {
            assert(s@.take(i + 1).drop_last() =~= s@.take(i as int));
        }
        if s[i] == c {
            n = n + 1;
        }
        i = i + 1;
    }
    proof {
        assert(s@.take(s@.len() as int) =~= s@);
    }
    n
}

/// `"YES"` when the symbols of `s` can be rearranged into a palindrome,
/// `"NO"` when they cannot. A text whose least symbol is the digit zero is
/// not taken.
pub fn game_of_thrones(s: &str) -> (answer: String)
    requires
        !least_is_zero(s@),
    ensures
        answer@ == if can_be_palindrome(s@) {
            "YES"@
        } else {
            "NO"@
        },
{
    let chars = chars_of(s);
    let mut odd_one: Option<char> = None;
    let mut i: usize = 0;
    while i < chars.len()
        invariant
            i <= chars@.len(),
            chars@ == s@,
            odd_one matches Some(d) ==> odd_in(s@, d),
            forall|j: int|
                0 <= j < i && odd_in(s@, #[trigger] chars@[j]) ==> odd_one == Some(chars@[j]),
        decreases chars@.len() - i,
    {
        let c = chars[i];
        if count_symbol(&chars, c) % 2 == 1 {
            match odd_one {
                None => {
                    odd_one = Some(c);
                },
                Some(d) => {
                    if d != c {
                        proof {
                            assert(odd_in(s@, c) && odd_in(s@, d));
                        }
                        return "NO".to_owned();
                    }
                },
            }
        }
        i = i + 1;
    }
    proof {
        assert forall|c: char, d: char| odd_in(s@, c) && odd_in(s@, d) implies c == d by {
            lemma_tally_positive(s@, c);
            lemma_tally_positive(s@, d);
            let a = choose|a: int| 0 <= a < s@.len() && s@[a] == c;
            let b = choose|b: int| 0 <= b < s@.len() && s@[b] == d;
            assert(odd_one == Some(chars@[a]));
            assert(odd_one == Some(chars@[b]));
        }
    }
    "YES".to_owned()
}

} // verus!
