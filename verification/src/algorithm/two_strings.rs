//! Whether two texts have a lower-case letter in common.

use crate::algorithm::text::{letter, presence};
use vstd::prelude::*;

verus! {

/// Some lower-case letter occurs in both `a` and `b`.
pub open spec fn share_letter(a: Seq<char>, b: Seq<char>) -> bool {
    exists|k: int| 0 <= k < 26 && a.contains(#[trigger] letter(k)) && b.contains(letter(k))
}

/// `"YES"` when the two texts have a lower-case letter in common, `"NO"`
/// when they have none.
pub fn two_strings(s1: &str, s2: &str) -> (answer: String)
    ensures
        answer@ == if share_letter(s1@, s2@) {
            "YES"@
        } else {
            "NO"@
        },
{
    let left = presence(s1);
    let right = presence(s2);
    let mut index: usize = 0;
    while index < 26
        invariant
            index <= 26,
            left@.len() == 26,
            right@.len() == 26,
            forall|k: int| 0 <= k < 26 ==> #[trigger] left@[k] == s1@.contains(letter(k)),
            forall|k: int| 0 <= k < 26 ==> #[trigger] right@[k] == s2@.contains(letter(k)),
            forall|k: int|
                0 <= k < index ==> !(s1@.contains(#[trigger] letter(k)) && s2@.contains(letter(k))),
        decreases 26 - index,
    {
        if left[index] && right[index] {
            proof {
                assert(s1@.contains(letter(index as int)) && s2@.contains(letter(index as int)));
            }
            return "YES".to_owned();
        }
        index = index + 1;
    }
    "NO".to_owned()
}

} // verus!
