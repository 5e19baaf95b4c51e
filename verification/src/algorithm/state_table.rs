//! Which states a trie over a list of patterns has, and in which order
//! they come to be: one state for every prefix of a pattern, numbered as
//! the patterns first reach them.

use crate::algorithm::occurrence::Pattern;
use vstd::prelude::*;

verus! {

/// The paths after the first `n` symbols of `x` have been walked from the
/// root: each prefix of `x` that was no path yet is added at the end.
pub open spec fn with_prefixes(paths: Seq<Seq<char>>, x: Seq<char>, n: nat) -> Seq<Seq<char>>
    decreases n,
{
    if n == 0 {
        paths
    } else {
        let before = with_prefixes(paths, x, (n - 1) as nat);
        if before.contains(x.take(n as int)) {
            before
        } else {
            before.push(x.take(n as int))
        }
    }
}

/// The path of every state, in the order of the states: the root alone for
/// no pattern, and for each further pattern its prefixes that are new.
pub open spec fn state_paths(pats: Seq<Pattern>) -> Seq<Seq<char>>
    decreases pats.len(),
{
    if pats.len() == 0 {
        seq![Seq::<char>::empty()]
    } else {
        with_prefixes(
            state_paths(pats.drop_last()),
            pats.last().symbols,
            pats.last().symbols.len(),
        )
    }
}

/// How many of the first `n` non-empty prefixes of `x` are among `paths`.
/// Where `paths` holds every prefix of each of its members, this is the
/// length of the longest prefix of `x` that is a path.
pub open spec fn known(paths: Seq<Seq<char>>, x: Seq<char>, n: nat) -> nat
    decreases n,
{
    if n == 0 {
        0
    } else {
        known(paths, x, (n - 1) as nat) + if paths.contains(x.take(n as int)) {
            1nat
        } else {
            0nat
        }
    }
}

/// `y` is a non-empty prefix of one of the patterns.
pub open spec fn is_pattern_prefix(pats: Seq<Pattern>, y: Seq<char>) -> bool {
    exists|i: int, m: int|
        0 <= i < pats.len() && 0 < m <= pats[i].symbols.len() && y == #[trigger] pats[i].symbols.take(
            m,
        )
}

/// Walking `x` adds its prefixes and nothing else.
pub proof fn lemma_with_prefixes_holds(paths: Seq<Seq<char>>, x: Seq<char>, n: nat, y: Seq<char>)
    requires
        n <= x.len(),
    ensures
        with_prefixes(paths, x, n).contains(y) <==> (paths.contains(y) || exists|m: int|
            0 < m <= n && y == #[trigger] x.take(m)),
    decreases n,
{
    if n > 0 {
        let before = with_prefixes(paths, x, (n - 1) as nat);
        let after = with_prefixes(paths, x, n);
        lemma_with_prefixes_holds(paths, x, (n - 1) as nat, y);
        let top = x.take(n as int);
        if after.contains(y) {
            let j = choose|j: int| 0 <= j < after.len() && after[j] == y;
            if j < before.len() {
                assert(before[j] == y);
            } else {
                assert(y == x.take(n as int));
            }
        }
        if before.contains(y) {
            let j = choose|j: int| 0 <= j < before.len() && before[j] == y;
            assert(after[j] == y);
        }
        if exists|m: int| 0 < m <= n && y == #[trigger] x.take(m) {
            let m = choose|m: int| 0 < m <= n && y == #[trigger] x.take(m);
            if m == n {
                if !before.contains(top) {
                    assert(after[before.len() as int] == top);
                }
            }
        }
    }
}

/// Walking `x` keeps every path in its place, and adds none twice.
pub proof fn lemma_with_prefixes_keeps(paths: Seq<Seq<char>>, x: Seq<char>, n: nat)
    ensures
        paths.len() <= with_prefixes(paths, x, n).len(),
        forall|i: int| 0 <= i < paths.len() ==> with_prefixes(paths, x, n)[i] == paths[i],
        paths.no_duplicates() ==> with_prefixes(paths, x, n).no_duplicates(),
    decreases n,
{
    if n > 0 {
        lemma_with_prefixes_keeps(paths, x, (n - 1) as nat);
        let before = with_prefixes(paths, x, (n - 1) as nat);
        let after = with_prefixes(paths, x, n);
        if paths.no_duplicates() && !before.contains(x.take(n as int)) {
            assert forall|i: int, j: int|
                0 <= i < after.len() && 0 <= j < after.len() && i != j implies after[i]
                != after[j] by {
                if i < before.len() && j < before.len() {
                    assert(before[i] != before[j]);
                } else if i < before.len() {
                    assert(before[i] == after[i]);
                } else {
                    assert(before[j] == after[j]);
                }
            }
        }
    }
}

/// Walking the first `n` symbols of `x` adds one state for each prefix that
/// was no path yet.
pub proof fn lemma_with_prefixes_len(paths: Seq<Seq<char>>, x: Seq<char>, n: nat)
    requires
        n <= x.len(),
    ensures
        with_prefixes(paths, x, n).len() + known(paths, x, n) == paths.len() + n,
    decreases n,
{
    if n > 0 {
        lemma_with_prefixes_len(paths, x, (n - 1) as nat);
        let top = x.take(n as int);
        lemma_with_prefixes_holds(paths, x, (n - 1) as nat, top);
        if exists|m: int| 0 < m <= n - 1 && top == #[trigger] x.take(m) {
            let m = choose|m: int| 0 < m <= n - 1 && top == #[trigger] x.take(m);
            assert(x.take(m).len() == m);
            assert(false);
        }
    }
}

/// The root comes first.
pub proof fn lemma_state_paths_root(pats: Seq<Pattern>)
    ensures
        state_paths(pats).len() >= 1,
        state_paths(pats)[0] == Seq::<char>::empty(),
    decreases pats.len(),
{
    if pats.len() > 0 {
        lemma_state_paths_root(pats.drop_last());
        lemma_with_prefixes_keeps(
            state_paths(pats.drop_last()),
            pats.last().symbols,
            pats.last().symbols.len(),
        );
    }
}

/// No two states share a path.
pub proof fn lemma_state_paths_distinct(pats: Seq<Pattern>)
    ensures
        state_paths(pats).no_duplicates(),
    decreases pats.len(),
{
    if pats.len() > 0 {
        lemma_state_paths_distinct(pats.drop_last());
        lemma_with_prefixes_keeps(
            state_paths(pats.drop_last()),
            pats.last().symbols,
            pats.last().symbols.len(),
        );
    }
}

/// A further pattern leaves the states there are in their places.
pub proof fn lemma_state_paths_grow(pats: Seq<Pattern>, p: Pattern)
    ensures
        state_paths(pats.push(p)) == with_prefixes(state_paths(pats), p.symbols, p.symbols.len()),
        state_paths(pats).len() <= state_paths(pats.push(p)).len(),
        forall|i: int|
            0 <= i < state_paths(pats).len() ==> state_paths(pats.push(p))[i] == state_paths(
                pats,
            )[i],
        state_paths(pats.push(p)).len() + known(state_paths(pats), p.symbols, p.symbols.len())
            == state_paths(pats).len() + p.symbols.len(),
{
    assert(pats.push(p).drop_last() =~= pats);
    lemma_with_prefixes_keeps(state_paths(pats), p.symbols, p.symbols.len());
    lemma_with_prefixes_len(state_paths(pats), p.symbols, p.symbols.len());
}

/// The states are the root and one state for every non-empty prefix of a
/// pattern: no state lies off the patterns.
pub proof fn lemma_state_paths_are_prefixes(pats: Seq<Pattern>, y: Seq<char>)
    ensures
        state_paths(pats).contains(y) <==> (y.len() == 0 || is_pattern_prefix(pats, y)),
    decreases pats.len(),
{
    if pats.len() == 0 {
        let only = state_paths(pats);
        if only.contains(y) {
            let j = choose|j: int| 0 <= j < only.len() && only[j] == y;
            assert(y =~= Seq::<char>::empty());
        }
        if y.len() == 0 {
            assert(only[0] =~= y);
        }
    } else {
        let rest = pats.drop_last();
        let last = pats.len() - 1;
        let x = pats.last().symbols;
        assert(pats[last] == pats.last());
        lemma_state_paths_are_prefixes(rest, y);
        lemma_with_prefixes_holds(state_paths(rest), x, x.len(), y);
        if is_pattern_prefix(rest, y) {
            let (i, m) = choose|i: int, m: int|
                0 <= i < rest.len() && 0 < m <= rest[i].symbols.len() && y
                    == #[trigger] rest[i].symbols.take(m);
            assert(pats[i] == rest[i]);
            assert(y == pats[i].symbols.take(m));
        }
        if exists|m: int| 0 < m <= x.len() && y == #[trigger] x.take(m) {
            let m = choose|m: int| 0 < m <= x.len() && y == #[trigger] x.take(m);
            assert(y == pats[last].symbols.take(m));
        }
        if is_pattern_prefix(pats, y) {
            let (i, m) = choose|i: int, m: int|
                0 <= i < pats.len() && 0 < m <= pats[i].symbols.len() && y
                    == #[trigger] pats[i].symbols.take(m);
            if i < last {
                assert(rest[i] == pats[i]);
                assert(y == rest[i].symbols.take(m));
            } else {
                assert(y == x.take(m));
            }
        }
    }
}

/// Every prefix of a state's path is the path of a state.
pub proof fn lemma_state_paths_closed(pats: Seq<Pattern>, y: Seq<char>, n: int)
    requires
        state_paths(pats).contains(y),
        0 <= n <= y.len(),
    ensures
        state_paths(pats).contains(y.take(n)),
{
    lemma_state_paths_are_prefixes(pats, y);
    lemma_state_paths_are_prefixes(pats, y.take(n));
    if n > 0 {
        let (i, m) = choose|i: int, m: int|
            0 <= i < pats.len() && 0 < m <= pats[i].symbols.len() && y
                == #[trigger] pats[i].symbols.take(m);
        assert(y.take(n) =~= pats[i].symbols.take(n));
    }
}

/// How many of the first `n` prefixes of `x` are paths, where the longest
/// prefix of `x` that is a path has `k` symbols.
proof fn lemma_known_upto(pats: Seq<Pattern>, x: Seq<char>, k: nat, n: nat)
    requires
        k <= x.len(),
        n <= x.len(),
        state_paths(pats).contains(x.take(k as int)),
        k < x.len() ==> !state_paths(pats).contains(x.take(k as int + 1)),
    ensures
        known(state_paths(pats), x, n) == if n <= k {
            n
        } else {
            k
        },
    decreases n,
{
    if n > 0 {
        lemma_known_upto(pats, x, k, (n - 1) as nat);
        let top = x.take(n as int);
        if n <= k {
            lemma_state_paths_closed(pats, x.take(k as int), n as int);
            assert(x.take(k as int).take(n as int) =~= top);
        } else if state_paths(pats).contains(top) {
            lemma_state_paths_closed(pats, top, k as int + 1);
            assert(top.take(k as int + 1) =~= x.take(k as int + 1));
        }
    }
}

/// Where the longest prefix of `x` that is a path has `k` symbols, `k` of
/// the prefixes of `x` are paths: a pattern adds `x.len() - k` states.
pub proof fn lemma_known_is_longest(pats: Seq<Pattern>, x: Seq<char>, k: nat)
    requires
        k <= x.len(),
        state_paths(pats).contains(x.take(k as int)),
        k < x.len() ==> !state_paths(pats).contains(x.take(k as int + 1)),
    ensures
        known(state_paths(pats), x, x.len()) == k,
{
    lemma_known_upto(pats, x, k, x.len());
}

/// The states that a pattern adds lie on the pattern.
pub proof fn lemma_new_states_lie_on_pattern(pats: Seq<Pattern>, p: Pattern, s: int)
    requires
        state_paths(pats).len() <= s < state_paths(pats.push(p)).len(),
    ensures
        0 < state_paths(pats.push(p))[s].len() <= p.symbols.len(),
        state_paths(pats.push(p))[s] == p.symbols.take(state_paths(pats.push(p))[s].len() as int),
        !state_paths(pats).contains(state_paths(pats.push(p))[s]),
{
    let before = state_paths(pats);
    let after = state_paths(pats.push(p));
    let y = after[s];
    lemma_state_paths_grow(pats, p);
    lemma_state_paths_distinct(pats.push(p));
    lemma_with_prefixes_holds(before, p.symbols, p.symbols.len(), y);
    assert(after.contains(y));
    if before.contains(y) {
        let j = choose|j: int| 0 <= j < before.len() && before[j] == y;
        assert(after[j] == y);
        assert(false);
    }
    let m = choose|m: int| 0 < m <= p.symbols.len() && y == #[trigger] p.symbols.take(m);
    assert(y.len() == m);
}

} // verus!
