//! Whether the symbols of a text occur equally often, give or take one
//! symbol.

use crate::algorithm::game_of_thrones_i::{count_symbol, least_is_zero};
use crate::algorithm::text::{chars_of, lemma_contains_next, tally};
use vstd::prelude::*;

verus! {

/// How often the symbol at position `i` occurs in `s`.
pub open spec fn frequency(s: Seq<char>, i: int) -> nat {
    tally(s, s[i])
}

/// The symbol at position `i` does not occur before `i`.
pub open spec fn first_at(s: Seq<char>, i: int) -> bool {
    !s.take(i).contains(s[i])
}

/// Number of distinct symbols among the first `n` positions of `s` that
/// occur exactly `f` times in `s`.
pub open spec fn symbols_with(s: Seq<char>, n: nat, f: nat) -> nat
    decreases n,
{
    if n == 0 {
        0
    } else {
        symbols_with(s, (n - 1) as nat, f) + if first_at(s, n - 1) && frequency(s, n - 1) == f {
            1nat
        } else {
            0nat
        }
    }
}

/// All symbols occur equally often.
pub open spec fn one_frequency(s: Seq<char>) -> bool {
    forall|i: int, j: int|
        0 <= i < s.len() && 0 <= j < s.len() ==> #[trigger] frequency(s, i) == #[trigger] frequency(
            s,
            j,
        )
}

/// The frequencies of the symbols are `a` and `b`, and both occur.
pub open spec fn two_frequencies(s: Seq<char>, a: nat, b: nat) -> bool {
    &&& a != b
    &&& exists|i: int| 0 <= i < s.len() && #[trigger] frequency(s, i) == a
    &&& exists|i: int| 0 <= i < s.len() && #[trigger] frequency(s, i) == b
    &&& forall|i: int|
        0 <= i < s.len() ==> #[trigger] frequency(s, i) == a || frequency(s, i) == b
}

/// The frequency `a` belongs to one symbol only, and that symbol occurs
/// once or its frequency is next to `b`.
pub open spec fn stands_out(s: Seq<char>, a: nat, b: nat) -> bool {
    symbols_with(s, s.len(), a) == 1 && (a == 1 || a == b + 1 || b == a + 1)
}

/// All symbols occur equally often, or there are two frequencies and one
/// of them stands out.
pub open spec fn is_valid(s: Seq<char>) -> bool {
    one_frequency(s) || exists|a: nat, b: nat| #[trigger]
        two_frequencies(s, a, b) && stands_out(s, a, b)
}

proof fn lemma_symbols_with_none(s: Seq<char>, n: nat, f: nat)
    requires
        n <= s.len(),
        forall|j: int| 0 <= j < n ==> #[trigger] frequency(s, j) != f,
    ensures
        symbols_with(s, n, f) == 0,
    decreases n,
{
    if n > 0 {
        lemma_symbols_with_none(s, (n - 1) as nat, f);
        assert(frequency(s, n - 1) != f);
    }
}

proof fn lemma_symbols_with_bounded(s: Seq<char>, n: nat, f: nat)
    ensures
        symbols_with(s, n, f) <= n,
    decreases n,
{
    if n > 0 {
        lemma_symbols_with_bounded(s, (n - 1) as nat, f);
    }
}

/// Whether the symbol at position `i` occurs before `i`.
fn occurs_before(chars: &Vec<char>, i: usize) -> (found: bool)
    requires
        i < chars@.len(),
    ensures
        found == !first_at(chars@, i as int),
{
    let c = chars[i];
    let mut j: usize = 0;
    proof {
        assert(chars@.take(0) =~= Seq::<char>::empty());
    }
    while j < i
        invariant
            j <= i,
            i < chars@.len(),
            c == chars@[i as int],
            !chars@.take(j as int).contains(c),
        decreases i - j,
    {
        proof {
            lemma_contains_next(chars@, j as int, c);
        }
        if chars[j] == c {
            proof {
                assert(chars@.take(i as int)[j as int] == c);
            }
            return true;
        }
        j = j + 1;
    }
    false
}

/// `"YES"` when all symbols of `s` occur equally often, or when there are
/// two frequencies and one of them belongs to a single symbol that occurs
/// once or whose frequency is next to the other; `"NO"` otherwise. A text
/// whose least symbol is the digit zero is not taken.
pub fn valid_string(s: &str) -> (answer: String)
    requires
        !least_is_zero(s@),
    ensures
        answer@ == if is_valid(s@) {
            "YES"@
        } else {
            "NO"@
        },
{
    let chars = chars_of(s);
    let n = chars.len();
    let mut kinds: usize = 0;
    let mut a: usize = 0;
    let mut count_a: usize = 0;
    let mut b: usize = 0;
    let mut count_b: usize = 0;
    let ghost mut at_a: int = 0;
    let ghost mut at_b: int = 0;
    let mut i: usize = 0;
    while i < n
        invariant
            i <= n,
            n == chars@.len(),
            chars@ == s@,
            kinds <= 2,
            kinds == 0 <==> i == 0,
            kinds >= 1 ==> 0 <= at_a < i && frequency(s@, at_a) == a,
            kinds == 2 ==> 0 <= at_b < i && frequency(s@, at_b) == b && a != b,
            forall|j: int|
                0 <= j < i ==> #[trigger] frequency(s@, j) == a || (kinds == 2 && frequency(s@, j)
                    == b),
            kinds >= 1 ==> count_a == symbols_with(s@, i as nat, a as nat),
            kinds == 2 ==> count_b == symbols_with(s@, i as nat, b as nat),
        decreases n - i,
    {
        let c = chars[i];
        let ghost f = frequency(s@, i as int);
        proof {
            lemma_symbols_with_bounded(s@, i as nat, a as nat);
            lemma_symbols_with_bounded(s@, i as nat, b as nat);
        }
        if occurs_before(&chars, i) {
            proof {
                let j = choose|j: int|
                    0 <= j < s@.take(i as int).len() && s@.take(i as int)[j] == s@[i as int];
                assert(frequency(s@, j) == f);
            }
        } else {
            let times = count_symbol(&chars, c);
            if kinds == 0 {
                a = times;
                count_a = 1;
                kinds = 1;
                proof {
                    at_a = i as int;
                }
            } else if times == a {
                count_a = count_a + 1;
            } else if kinds == 1 {
                proof {
                    lemma_symbols_with_none(s@, i as nat, times as nat);
                    at_b = i as int;
                }
                b = times;
                count_b = 1;
                kinds = 2;
            } else if times == b {
                count_b = count_b + 1;
            } else {
                proof {
                    assert(!one_frequency(s@)) by {
                        assert(frequency(s@, at_a) != frequency(s@, at_b));
                    }
                    assert forall|x: nat, y: nat| !#[trigger] two_frequencies(s@, x, y) by {
                        if two_frequencies(s@, x, y) {
                            assert(frequency(s@, at_a) == x || frequency(s@, at_a) == y);
                            assert(frequency(s@, at_b) == x || frequency(s@, at_b) == y);
                            assert(frequency(s@, i as int) == x || frequency(s@, i as int) == y);
                        }
                    }
                }
                return "NO".to_owned();
            }
        }
        proof {
            assert(symbols_with(s@, (i + 1) as nat, a as nat) == symbols_with(
                s@,
                i as nat,
                a as nat,
            ) + if first_at(s@, i as int) && frequency(s@, i as int) == a {
                1nat
            } else {
                0nat
            });
            assert(symbols_with(s@, (i + 1) as nat, b as nat) == symbols_with(
                s@,
                i as nat,
                b as nat,
            ) + if first_at(s@, i as int) && frequency(s@, i as int) == b {
                1nat
            } else {
                0nat
            });
            if i == 0 {
                assert(symbols_with(s@, 0, a as nat) == 0);
            }
        }
        i = i + 1;
    }
    if kinds <= 1 {
        proof {
            assert forall|x: int, y: int| 0 <= x < s@.len() && 0 <= y < s@.len() implies #[trigger]
                frequency(s@, x) == #[trigger] frequency(s@, y) by {}
        }
        return "YES".to_owned();
    }
    let next = (a > b && a - b == 1) || (b > a && b - a == 1);
    let fits = (count_a == 1 && (a == 1 || next)) || (count_b == 1 && (b == 1 || next));
    proof {
        assert(two_frequencies(s@, a as nat, b as nat));
        assert(two_frequencies(s@, b as nat, a as nat));
        assert(!one_frequency(s@)) by {
            assert(frequency(s@, at_a) != frequency(s@, at_b));
        }
        if !fits {
            assert forall|x: nat, y: nat| !(#[trigger] two_frequencies(s@, x, y) && stands_out(
                s@,
                x,
                y,
            )) by {
                if two_frequencies(s@, x, y) {
                    assert(frequency(s@, at_a) == x || frequency(s@, at_a) == y);
                    assert(frequency(s@, at_b) == x || frequency(s@, at_b) == y);
                }
            }
        } else if count_a == 1 && (a == 1 || next) {
            assert(stands_out(s@, a as nat, b as nat));
        } else {
            assert(stands_out(s@, b as nat, a as nat));
        }
    }
    if fits {
        "YES".to_owned()
    } else {
        "NO".to_owned()
    }
}

} // verus!
