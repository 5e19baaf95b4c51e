//! Multi-pattern matching over a trie with failure links: building the
//! automaton, streaming a text through it, and summing the weights of the
//! occurrences found.

use crate::algorithm::occurrence::{
    add_wrapping, all_nonempty, emit, emitted, ending, ending_here, ends_at, is_suffix,
    lemma_emit_concat, lemma_emit_matching, lemma_emit_push, lemma_emitted_worth,
    lemma_ending_here_gap, lemma_ending_none, lemma_ending_step, lemma_ends_at_is_suffix,
    lemma_matching_none, lemma_proper_suffix, lemma_share_empty_text, lemma_share_step,
    lemma_suffix_of_suffix, lemma_suffix_pop, lemma_suffix_push, lemma_suffixes_nest,
    lemma_wrapped_add, lemma_wrapped_exact, matching, share, total, weighted_occurrences, wrapped,
    Measure, Pattern,
};
use crate::algorithm::state_table::{
    is_pattern_prefix, known, lemma_new_states_lie_on_pattern, lemma_state_paths_are_prefixes,
    lemma_state_paths_grow, state_paths, with_prefixes,
};
use std::collections::HashMap;
use std::collections::VecDeque;
use vstd::prelude::*;
use vstd::set_lib::{lemma_int_range, lemma_len_subset, set_int_range};
use vstd::std_specs::hash::{axiom_spec_hash_map_iter, spec_hash_map_iter};
use vstd::std_specs::iter::IteratorSpec;

verus! {

/// Why a build or a query was refused.
#[derive(Clone, Copy, Debug, PartialEq, Eq, Structural)]
pub enum DnaError {
    /// A pattern with no symbols was submitted.
    InvalidPattern,
    /// A query's index window is inverted or reaches past the last pattern.
    InvalidRange,
    /// The pattern and weight collections do not line up.
    MalformedInput,
}

/// The key under which a symbol is stored in a state's transition table.
pub open spec fn code(c: char) -> u32 {
    c as u32
}

/// The symbol stored under a key.
spec fn symbol_of(k: u32) -> char {
    choose|c: char| code(c) == k
}

proof fn lemma_code_injective(a: char, b: char)
    requires
        code(a) == code(b),
    ensures
        a == b,
{
    assert(a as u32 == b as u32);
}

proof fn lemma_symbol_of_code(c: char)
    ensures
        symbol_of(code(c)) == c,
{
    assert(code(c) == code(c));
    let d = symbol_of(code(c));
    assert(code(d) == code(c));
}

/// One state of the automaton.
struct TrieNode {
    /// Transitions, keyed by symbol code.
    children: HashMap<u32, usize>,
    /// The failure state; meaningful once the automaton is linked.
    failure: usize,
    /// `(index, weight)` of every pattern that ends exactly here.
    output: Vec<(usize, i64)>,
}

impl TrieNode {
    fn new() -> (node: TrieNode)
        ensures
            node.children@ == Map::<u32, usize>::empty(),
            node.failure == 0,
            node.output@ == Seq::<(usize, i64)>::empty(),
    {
        TrieNode { children: HashMap::new(), failure: 0, output: Vec::new() }
    }
}

/// A trie over the registered patterns. After `build_failure_links` it is a
/// complete matching automaton.
pub struct AhoCorasick {
    trie: Vec<TrieNode>,
    count: usize,
    /// The symbols on the way from the root to each state.
    paths: Ghost<Seq<Seq<char>>>,
    /// The state each non-root state was reached from.
    parents: Ghost<Seq<int>>,
    /// The state at which each pattern ends.
    ends: Ghost<Seq<int>>,
    patterns: Ghost<Seq<Pattern>>,
    linked: Ghost<bool>,
}

impl AhoCorasick {
    /// The registered patterns, in registration order.
    pub closed spec fn patterns(&self) -> Seq<Pattern> {
        self.patterns@
    }

    /// Whether the failure links are in place.
    pub closed spec fn linked(&self) -> bool {
        self.linked@
    }

    /// The number of states. State 0 is the root.
    pub closed spec fn state_count(&self) -> nat {
        self.trie@.len()
    }

    /// The symbols on the way from the root to state `s`.
    pub closed spec fn path_of(&self, s: int) -> Seq<char> {
        self.paths@[s]
    }

    /// The state that state `s` leads to on symbol `c`, if it leads anywhere.
    pub closed spec fn transition(&self, s: int, c: char) -> Option<int> {
        if self.has_edge(s, c) {
            Some(self.edge(s, c))
        } else {
            None
        }
    }

    /// The state from which the one transition into state `s` comes.
    pub closed spec fn parent_of(&self, s: int) -> int {
        self.parents@[s]
    }

    /// The failure state of state `s`.
    pub closed spec fn failure_of(&self, s: int) -> int {
        self.fail(s)
    }

    /// The `(index, weight)` of the patterns that end at state `s`.
    pub closed spec fn outputs_of(&self, s: int) -> Seq<(usize, i64)> {
        self.out(s)
    }

    spec fn size(&self) -> int {
        self.trie@.len() as int
    }

    spec fn path(&self, s: int) -> Seq<char> {
        self.paths@[s]
    }

    spec fn depth(&self, s: int) -> int {
        self.paths@[s].len() as int
    }

    spec fn has_edge(&self, s: int, c: char) -> bool {
        self.trie@[s].children@.contains_key(code(c))
    }

    spec fn edge(&self, s: int, c: char) -> int {
        self.trie@[s].children@[code(c)] as int
    }

    spec fn fail(&self, s: int) -> int {
        self.trie@[s].failure as int
    }

    spec fn out(&self, s: int) -> Seq<(usize, i64)> {
        self.trie@[s].output@
    }

    spec fn parent_ok(&self, t: int) -> bool {
        let p = self.parents@[t];
        &&& 0 <= p < self.size()
        &&& self.path(t).len() > 0
        &&& self.has_edge(p, self.path(t).last())
        &&& self.edge(p, self.path(t).last()) == t
        &&& self.path(p) == self.path(t).drop_last()
    }

    /// The states form a trie: every transition extends the path by its
    /// symbol, every state but the root is the target of a transition, and
    /// no two states share a path.
    spec fn shape(&self) -> bool {
        &&& self.size() >= 1
        &&& self.paths@.len() == self.size()
        &&& self.parents@.len() == self.size()
        &&& self.path(0) == Seq::<char>::empty()
        &&& self.fail(0) == 0
        &&& forall|s: int, k: u32|
            0 <= s < self.size() && #[trigger] self.trie@[s].children@.contains_key(k) ==> code(
                symbol_of(k),
            ) == k
        &&& forall|s: int, c: char|
            0 <= s < self.size() && #[trigger] self.has_edge(s, c) ==> 0 < self.edge(s, c)
                < self.size() && self.path(self.edge(s, c)) == self.path(s).push(c)
        &&& forall|t: int| 0 < t < self.size() ==> #[trigger] self.parent_ok(t)
        &&& forall|s: int, t: int|
            #![trigger self.path(s), self.path(t)]
            0 <= s < self.size() && 0 <= t < self.size() && s != t ==> self.path(s) != self.path(t)
    }

    /// Every pattern ends at a state, and every state lists the patterns
    /// that end there.
    spec fn outputs_ok(&self) -> bool {
        &&& self.count == self.patterns@.len()
        &&& self.ends@.len() == self.patterns@.len()
        &&& all_nonempty(self.patterns@)
        &&& forall|i: int|
            0 <= i < self.patterns@.len() ==> 0 <= #[trigger] self.ends@[i] < self.size()
                && self.path(self.ends@[i]) == self.patterns@[i].symbols
        &&& forall|s: int|
            0 <= s < self.size() ==> #[trigger] self.out(s) == matching(
                self.patterns@,
                self.path(s),
            )
    }

    /// The failure link of `t` leads to the state whose path is the longest
    /// proper suffix of `t`'s path that is the path of any state.
    spec fn link_ok(&self, t: int) -> bool {
        let f = self.fail(t);
        &&& 0 <= f < self.size()
        &&& self.depth(f) < self.depth(t)
        &&& is_suffix(self.path(f), self.path(t))
        &&& forall|s: int|
            0 <= s < self.size() && self.depth(s) < self.depth(t) && is_suffix(
                #[trigger] self.path(s),
                self.path(t),
            ) ==> self.depth(s) <= self.depth(f)
    }

    spec fn links_ok(&self) -> bool {
        forall|t: int| 0 < t < self.size() ==> #[trigger] self.link_ok(t)
    }

    /// The automaton is consistent with the patterns it reports.
    pub closed spec fn wf(&self) -> bool {
        &&& self.shape()
        &&& self.outputs_ok()
        &&& self.paths@ == state_paths(self.patterns@)
        &&& self.linked@ ==> self.links_ok()
    }

    /// The state table is the one that the patterns call for: one state for
    /// the root and for each prefix of a pattern, in the order in which the
    /// patterns first reach them; a transition wherever one path extends
    /// another by a symbol, so that each state but the root has exactly one
    /// transition into it; at each state the patterns that end there.
    pub proof fn lemma_state_table(&self)
        requires
            self.wf(),
        ensures
            self.state_count() == state_paths(self.patterns()).len(),
            forall|s: int|
                0 <= s < self.state_count() ==> #[trigger] self.path_of(s) == state_paths(
                    self.patterns(),
                )[s],
            forall|s: int|
                0 <= s < self.state_count() ==> #[trigger] self.outputs_of(s) == matching(
                    self.patterns(),
                    self.path_of(s),
                ),
            forall|s: int, c: char|
                0 <= s < self.state_count() ==> match #[trigger] self.transition(s, c) {
                    Some(t) => 0 < t < self.state_count() && self.path_of(t) == self.path_of(
                        s,
                    ).push(c),
                    None => !state_paths(self.patterns()).contains(self.path_of(s).push(c)),
                },
            forall|t: int|
                0 < t < self.state_count() ==> 0 <= #[trigger] self.parent_of(t)
                    < self.state_count() && self.transition(
                    self.parent_of(t),
                    self.path_of(t).last(),
                ) == Some(t),
            self.failure_of(0) == 0,
    {
        let paths = state_paths(self.patterns());
        assert forall|s: int, c: char| 0 <= s < self.state_count() implies match #[trigger] self.transition(
            s,
            c,
        ) {
            Some(t) => 0 < t < self.state_count() && self.path_of(t) == self.path_of(s).push(c),
            None => !paths.contains(self.path_of(s).push(c)),
        } by {
            if self.has_edge(s, c) {
            } else if paths.contains(self.path(s).push(c)) {
                let t = choose|t: int| 0 <= t < paths.len() && paths[t] == self.path(s).push(c);
                assert(self.path(t).len() > 0);
                assert(self.parent_ok(t));
                let p = self.parents@[t];
                assert(self.path(s).push(c).drop_last() =~= self.path(s));
                assert(self.path(s).push(c).last() == c);
                if p != s {
                    assert(self.path(p) != self.path(s));
                }
            }
        }
        assert forall|t: int| 0 < t < self.state_count() implies 0 <= #[trigger] self.parent_of(t)
            < self.state_count() && self.transition(self.parent_of(t), self.path_of(t).last())
            == Some(t) by {
            assert(self.parent_ok(t));
        }
    }

    /// The paths of the states are the empty path and the non-empty prefixes
    /// of the patterns: no state lies off the patterns, and no prefix is
    /// without a state.
    pub proof fn lemma_states_are_prefixes(&self, y: Seq<char>)
        requires
            self.wf(),
        ensures
            (exists|s: int| 0 <= s < self.state_count() && #[trigger] self.path_of(s) == y) <==> (
            y.len() == 0 || is_pattern_prefix(self.patterns(), y)),
    {
        let paths = state_paths(self.patterns());
        lemma_state_paths_are_prefixes(self.patterns(), y);
        if paths.contains(y) {
            let s = choose|s: int| 0 <= s < paths.len() && paths[s] == y;
            assert(self.path_of(s) == y);
        }
        if exists|s: int| 0 <= s < self.state_count() && #[trigger] self.path_of(s) == y {
            let s = choose|s: int| 0 <= s < self.state_count() && #[trigger] self.path_of(s) == y;
            assert(paths[s] == y);
        }
    }

    /// Once linked, every state but the root fails to the state whose path
    /// is the longest proper suffix of its own path that is the path of a
    /// state at all.
    pub proof fn lemma_failure_links(&self)
        requires
            self.wf(),
            self.linked(),
        ensures
            forall|t: int|
                0 < t < self.state_count() ==> 0 <= #[trigger] self.failure_of(t)
                    < self.state_count() && self.path_of(self.failure_of(t)).len() < self.path_of(
                    t,
                ).len() && is_suffix(self.path_of(self.failure_of(t)), self.path_of(t)),
            forall|t: int, x: Seq<char>|
                0 < t < self.state_count() && #[trigger] state_paths(self.patterns()).contains(x)
                    && x.len() < self.path_of(t).len() && is_suffix(x, #[trigger] self.path_of(t))
                    ==> x.len() <= self.path_of(self.failure_of(t)).len(),
    {
        let paths = state_paths(self.patterns());
        assert forall|t: int|
            0 < t < self.state_count() implies 0 <= #[trigger] self.failure_of(t)
            < self.state_count() && self.path_of(self.failure_of(t)).len() < self.path_of(t).len()
            && is_suffix(self.path_of(self.failure_of(t)), self.path_of(t)) by {
            assert(self.link_ok(t));
        }
        assert forall|t: int, x: Seq<char>|
            0 < t < self.state_count() && #[trigger] paths.contains(x) && x.len() < self.path_of(
                t,
            ).len() && is_suffix(x, #[trigger] self.path_of(t)) implies x.len() <= self.path_of(
            self.failure_of(t),
        ).len() by {
            assert(self.link_ok(t));
            let s = choose|s: int| 0 <= s < paths.len() && paths[s] == x;
            assert(self.path(s) == x);
        }
    }

    /// Two automata over the same patterns have the same states, with the
    /// same paths, transitions and outputs.
    pub proof fn lemma_same_table(&self, other: &AhoCorasick)
        requires
            self.wf(),
            other.wf(),
            self.patterns() == other.patterns(),
        ensures
            self.state_count() == other.state_count(),
            forall|s: int|
                0 <= s < self.state_count() ==> #[trigger] self.path_of(s) == other.path_of(s),
            forall|s: int|
                0 <= s < self.state_count() ==> #[trigger] self.outputs_of(s) == other.outputs_of(
                    s,
                ),
            forall|s: int, c: char|
                0 <= s < self.state_count() ==> #[trigger] self.transition(s, c)
                    == other.transition(s, c),
    {
        self.lemma_state_table();
        other.lemma_state_table();
        assert forall|s: int, c: char| 0 <= s < self.state_count() implies #[trigger] self.transition(
            s,
            c,
        ) == other.transition(s, c) by {
            let a = self.transition(s, c);
            let b = other.transition(s, c);
            let next = self.path_of(s).push(c);
            if a is Some && b is Some {
                assert(self.path(a->Some_0) == next);
                assert(other.path(b->Some_0) == next);
                if a->Some_0 != b->Some_0 {
                    assert(self.path(a->Some_0) != self.path(b->Some_0));
                }
            } else if a is Some {
                assert(self.path(a->Some_0) == next);
                assert(state_paths(self.patterns())[a->Some_0] == next);
            } else if b is Some {
                assert(other.path(b->Some_0) == next);
                assert(state_paths(self.patterns())[b->Some_0] == next);
            }
        }
    }

    /// Linking is settled by the patterns: two linked automata over the same
    /// patterns have the same failure states, and linking once more changes
    /// nothing.
    pub proof fn lemma_links_unique(&self, other: &AhoCorasick)
        requires
            self.wf(),
            other.wf(),
            self.linked(),
            other.linked(),
            self.patterns() == other.patterns(),
        ensures
            forall|t: int|
                0 <= t < self.state_count() ==> #[trigger] self.failure_of(t) == other.failure_of(
                    t,
                ),
    {
        assert forall|t: int| 0 <= t < self.state_count() implies #[trigger] self.failure_of(t)
            == other.failure_of(t) by {
            if t > 0 {
                let a = self.fail(t);
                let b = other.fail(t);
                assert(self.link_ok(t));
                assert(other.link_ok(t));
                assert(self.path(b) == other.path(b));
                assert(other.path(a) == self.path(a));
                lemma_suffixes_nest(self.path(a), self.path(b), self.path(t));
                lemma_suffixes_nest(self.path(b), self.path(a), self.path(t));
                if a != b {
                    assert(self.path(a) != self.path(b));
                }
            }
        }
    }

    /// The number of states.
    pub fn states(&self) -> (n: usize)
        ensures
            n == self.state_count(),
    {
        self.trie.len()
    }

    /// The state that `state` leads to on `symbol`, if it leads anywhere.
    pub fn next_state(&self, state: usize, symbol: char) -> (next: Option<usize>)
        requires
            state < self.state_count(),
        ensures
            match next {
                Some(t) => self.transition(state as int, symbol) == Some(t as int),
                None => self.transition(state as int, symbol) is None,
            },
    {
        let k: u32 = symbol as u32;
        match self.trie[state].children.get(&k) {
            Some(t) => Some(*t),
            None => None,
        }
    }

    /// The failure state of `state`.
    pub fn failure(&self, state: usize) -> (f: usize)
        requires
            state < self.state_count(),
        ensures
            f == self.failure_of(state as int),
    {
        self.trie[state].failure
    }

    /// The `(index, weight)` of the patterns that end at `state`.
    pub fn outputs(&self, state: usize) -> (outs: Vec<(usize, i64)>)
        requires
            state < self.state_count(),
        ensures
            outs@ == self.outputs_of(state as int),
    {
        let node = &self.trie[state];
        let mut outs: Vec<(usize, i64)> = Vec::new();
        let mut i: usize = 0;
        while i < node.output.len()
            invariant
                i <= node.output@.len(),
                outs@ == node.output@.take(i as int),
            decreases node.output@.len() - i,
        {
            outs.push(node.output[i]);
            proof {
                assert(outs@ =~= node.output@.take(i + 1));
            }
            i = i + 1;
        }
        proof {
            assert(node.output@.take(node.output@.len() as int) =~= node.output@);
        }
        outs
    }

    /// No registered pattern is empty.
    pub proof fn lemma_patterns_nonempty(&self)
        requires
            self.wf(),
        ensures
            all_nonempty(self.patterns()),
    {
    }

    /// An automaton with no patterns: the root state alone.
    pub fn new() -> (ac: AhoCorasick)
        ensures
            ac.wf(),
            ac.patterns() == Seq::<Pattern>::empty(),
            !ac.linked(),
            ac.state_count() == 1,
            ac.path_of(0) == Seq::<char>::empty(),
            ac.failure_of(0) == 0,
            ac.outputs_of(0) == Seq::<(usize, i64)>::empty(),
            forall|c: char| ac.transition(0, c) is None,
    {
        let mut trie: Vec<TrieNode> = Vec::new();
        trie.push(TrieNode::new());
        let ghost paths = Seq::<Seq<char>>::empty().push(Seq::<char>::empty());
        let ghost parents = Seq::<int>::empty().push(0int);
        let ac = AhoCorasick {
            trie,
            count: 0,
            paths: Ghost(paths),
            parents: Ghost(parents),
            ends: Ghost(Seq::empty()),
            patterns: Ghost(Seq::empty()),
            linked: Ghost(false),
        };
        proof {
            assert(ac.out(0) =~= matching(ac.patterns@, ac.path(0)));
            assert(ac.paths@ =~= state_paths(ac.patterns@));
        }
        ac
    }

    /// Registers `pattern` under `gene_index` with weight `health_value`,
    /// creating states along its symbols where none exist yet. An empty
    /// pattern is refused and leaves the automaton as it was. Any failure
    /// links are out of date afterwards.
    pub fn add_pattern(&mut self, pattern: &str, gene_index: usize, health_value: i64) -> (res:
        Result<(), DnaError>)
        requires
            old(self).wf(),
            old(self).patterns().len() < usize::MAX,
        ensures
            final(self).wf(),
            pattern@.len() == 0 ==> res == Err::<(), DnaError>(DnaError::InvalidPattern)
                && final(self).patterns() == old(self).patterns() && final(self).linked() == old(
                self,
            ).linked() && final(self).state_count() == old(self).state_count(),
            pattern@.len() > 0 ==> res is Ok && !final(self).linked() && final(self).patterns()
                == old(self).patterns().push(
                Pattern { symbols: pattern@, index: gene_index, weight: health_value },
            ),
            // one new state for each prefix of the pattern that was no path yet
            pattern@.len() > 0 ==> final(self).state_count() + known(
                state_paths(old(self).patterns()),
                pattern@,
                pattern@.len(),
            ) == old(self).state_count() + pattern@.len(),
            // the states there were keep their paths and their transitions
            forall|s: int|
                0 <= s < old(self).state_count() ==> #[trigger] final(self).path_of(s) == old(
                    self,
                ).path_of(s),
            forall|s: int, c: char|
                0 <= s < old(self).state_count() && old(self).transition(s, c) is Some
                    ==> #[trigger] final(self).transition(s, c) == old(self).transition(s, c),
            // the new states lie on the pattern
            forall|s: int|
                old(self).state_count() <= s < final(self).state_count() ==> 0 < (
                #[trigger] final(self).path_of(s)).len() <= pattern@.len() && final(self).path_of(s)
                    == pattern@.take(final(self).path_of(s).len() as int),
            // the pattern is listed at the state where it ends, and nowhere else
            forall|s: int|
                0 <= s < final(self).state_count() && pattern@.len() > 0 ==> #[trigger] final(self).outputs_of(s) == if final(self).path_of(s) == pattern@ {
                    matching(old(self).patterns(), pattern@).push((gene_index, health_value))
                } else {
                    matching(old(self).patterns(), final(self).path_of(s))
                },
            // the states there were keep their failure states; new states fail to the root
            forall|s: int|
                0 <= s < old(self).state_count() ==> #[trigger] final(self).failure_of(s) == old(
                    self,
                ).failure_of(s),
            forall|s: int|
                old(self).state_count() <= s < final(self).state_count() ==> #[trigger] final(self).failure_of(s) == 0,
    {
        if pattern.is_empty() {
            return Err(DnaError::InvalidPattern);
        }
        let mut current: usize = 0;
        let ghost first = state_paths(old(self).patterns@);
        for ch in it: pattern.chars()
            invariant
                it.seq() == pattern@,
                self.shape(),
                self.outputs_ok(),
                self.patterns@ == old(self).patterns@,
                first == state_paths(old(self).patterns@),
                self.paths@ == with_prefixes(first, pattern@, it.index() as nat),
                old(self).size() <= self.size(),
                forall|s: int| 0 <= s < old(self).size() ==> self.fail(s) == old(self).fail(s),
                forall|s: int| old(self).size() <= s < self.size() ==> self.fail(s) == 0,
                0 <= current < self.trie.len(),
                self.path(current as int) == pattern@.take(it.index()),
        {
            let k: u32 = ch as u32;
            let found: Option<usize> = match self.trie[current].children.get(&k) {
                Some(next) => Some(*next),
                None => None,
            };
            assert(pattern@.take(it.index() + 1) =~= pattern@.take(it.index()).push(ch));
            match found {
                Some(next) => {
                    assert(self.has_edge(current as int, ch));
                    assert(self.paths@[next as int] == pattern@.take(it.index() + 1));
                    current = next;
                },
                None => {
                    assert(!self.has_edge(current as int, ch));
                    let ghost pre = *self;
                    let new_node: usize = self.trie.len();
                    self.trie.push(TrieNode::new());
                    self.trie[current].children.insert(k, new_node);
                    self.paths = Ghost(pre.paths@.push(pre.path(current as int).push(ch)));
                    self.parents = Ghost(pre.parents@.push(current as int));
                    proof {
                        lemma_grow(pre, *self, current as int, ch, new_node);
                        assert forall|s: int| old(self).size() <= s < self.size() implies self.fail(
                            s,
                        ) == 0 by {
                            if s < pre.size() {
                                assert(pre.fail(s) == 0);
                            }
                        }
                        assert forall|s: int| 0 <= s < old(self).size() implies self.fail(s) == old(
                            self,
                        ).fail(s) by {
                            assert(pre.fail(s) == old(self).fail(s));
                        }
                    }
                    current = new_node;
                },
            }
        }
        assert(pattern@.take(pattern@.len() as int) =~= pattern@);
        let ghost pre = *self;
        let ghost p = Pattern { symbols: pattern@, index: gene_index, weight: health_value };
        self.trie[current].output.push((gene_index, health_value));
        self.count = self.count + 1;
        self.patterns = Ghost(pre.patterns@.push(p));
        self.ends = Ghost(pre.ends@.push(current as int));
        self.linked = Ghost(false);
        proof {
            lemma_register(pre, *self, current as int, p);
            lemma_state_paths_grow(old(self).patterns@, p);
            assert forall|s: int| 0 <= s < old(self).size() implies self.fail(s) == old(self).fail(
                s,
            ) by {
                assert(pre.fail(s) == old(self).fail(s));
            }
            assert forall|s: int| old(self).size() <= s < self.size() implies self.fail(s)
                == 0 by {
                assert(pre.fail(s) == 0);
            }
            assert(self.wf());
            self.lemma_state_table();
            old(self).lemma_state_table();
            assert forall|s: int| old(self).state_count() <= s < self.state_count() implies 0 < (
            #[trigger] self.path_of(s)).len() <= pattern@.len() && self.path_of(s) == pattern@.take(
                self.path_of(s).len() as int,
            ) by {
                lemma_new_states_lie_on_pattern(old(self).patterns@, p, s);
            }
            assert forall|s: int| 0 <= s < self.state_count() implies #[trigger] self.outputs_of(s)
                == if self.path_of(s) == pattern@ {
                matching(old(self).patterns(), pattern@).push((gene_index, health_value))
            } else {
                matching(old(self).patterns(), self.path_of(s))
            } by {
                lemma_matching_push(old(self).patterns@, p, self.path_of(s));
            }
            assert forall|s: int, c: char|
                0 <= s < old(self).state_count() && old(self).transition(s, c) is Some implies #[trigger] self.transition(
                s,
                c,
            ) == old(self).transition(s, c) by {
                let t = old(self).transition(s, c)->Some_0;
                assert(self.path(t) == self.path(s).push(c));
                assert(state_paths(self.patterns())[t] == self.path(s).push(c));
                let u = self.transition(s, c)->Some_0;
                if u != t {
                    assert(self.path(u) != self.path(t));
                }
            }
        }
        Ok(())
    }

    /// The transitions out of state `s`, as pairs of symbol code and target.
    fn children_of(&self, s: usize) -> (r: Vec<(u32, usize)>)
        requires
            s < self.trie.len(),
        ensures
            forall|i: int|
                0 <= i < r@.len() ==> self.trie@[s as int].children@.contains_key(
                    #[trigger] r@[i].0,
                ) && self.trie@[s as int].children@[r@[i].0] == r@[i].1,
            forall|k: u32|
                self.trie@[s as int].children@.contains_key(k) ==> exists|i: int|
                    0 <= i < r@.len() && #[trigger] r@[i].0 == k,
            forall|i: int, j: int| 0 <= i < j < r@.len() ==> r@[i].0 != r@[j].0,
    {
        let mut r: Vec<(u32, usize)> = Vec::new();
        let node = &self.trie[s];
        let iter = node.children.iter();
        let ghost all = iter.remaining();
        proof {
            axiom_spec_hash_map_iter(&node.children);
        }
        for kv in it: iter
            invariant
                it.seq() == all,
                all == spec_hash_map_iter(&node.children).remaining(),
                r@.len() == it.index(),
                forall|j: int| 0 <= j < r@.len() ==> #[trigger] r@[j] == (*all[j].0, *all[j].1),
        {
            r.push((*kv.0, *kv.1));
        }
        proof {
            assert forall|k: u32| node.children@.contains_key(k) implies exists|i: int|
                0 <= i < r@.len() && #[trigger] r@[i].0 == k by {
                assert(all.contains((&k, &node.children@[k])));
                let i = choose|i: int| 0 <= i < all.len() && all[i] == (&k, &node.children@[k]);
                assert(r@[i].0 == k);
            }
            assert forall|i: int, j: int| 0 <= i < j < r@.len() implies r@[i].0 != r@[j].0 by {
                assert(r@[i] == (*all[i].0, *all[i].1));
                assert(r@[j] == (*all[j].0, *all[j].1));
                assert(node.children@.contains_key(*all[i].0));
                assert(node.children@.contains_key(*all[j].0));
                assert(all[i] != all[j]);
            }
        }
        r
    }

    /// `self` has the states, transitions, outputs and patterns of `other`;
    /// only failure links may differ.
    spec fn same_trie(&self, other: &AhoCorasick) -> bool {
        &&& self.trie@.len() == other.trie@.len()
        &&& forall|s: int|
            0 <= s < self.size() ==> (#[trigger] self.trie@[s]).children == other.trie@[s].children
                && self.trie@[s].output == other.trie@[s].output
        &&& self.count == other.count
        &&& self.paths@ == other.paths@
        &&& self.parents@ == other.parents@
        &&& self.ends@ == other.ends@
        &&& self.patterns@ == other.patterns@
    }

    proof fn lemma_same_trie(&self, other: &AhoCorasick)
        requires
            other.shape(),
            other.outputs_ok(),
            self.same_trie(other),
            self.fail(0) == 0,
        ensures
            self.shape(),
            self.outputs_ok(),
    {
        assert forall|s: int, k: u32|
            0 <= s < self.size() && #[trigger] self.trie@[s].children@.contains_key(
                k,
            ) implies code(symbol_of(k)) == k by {
            assert(other.trie@[s].children@.contains_key(k));
        }
        assert forall|s: int, c: char| 0 <= s < self.size() && #[trigger] self.has_edge(
            s,
            c,
        ) implies 0 < self.edge(s, c) < self.size() && self.path(self.edge(s, c)) == self.path(
            s,
        ).push(c) by {
            assert(other.has_edge(s, c));
        }
        assert forall|t: int| 0 < t < self.size() implies #[trigger] self.parent_ok(t) by {
            assert(other.parent_ok(t));
        }
        assert forall|s: int, t: int|
            #![trigger self.path(s), self.path(t)]
            0 <= s < self.size() && 0 <= t < self.size() && s != t implies self.path(s)
            != self.path(t) by {
            assert(other.path(s) != other.path(t));
        }
        assert forall|s: int| 0 <= s < self.size() implies #[trigger] self.out(s) == matching(
            self.patterns@,
            self.path(s),
        ) by {
            assert(other.out(s) == matching(other.patterns@, other.path(s)));
        }
        assert forall|i: int| 0 <= i < self.patterns@.len() implies 0 <= #[trigger] self.ends@[i]
            < self.size() && self.path(self.ends@[i]) == self.patterns@[i].symbols by {
            assert(0 <= other.ends@[i] < other.size());
        }
    }

    proof fn lemma_link_frame(&self, other: &AhoCorasick, s: int)
        requires
            self.same_trie(other),
            0 <= s < self.size(),
            self.fail(s) == other.fail(s),
            other.link_ok(s),
        ensures
            self.link_ok(s),
    {
        assert forall|u: int|
            0 <= u < self.size() && self.depth(u) < self.depth(s) && is_suffix(
                #[trigger] self.path(u),
                self.path(s),
            ) implies self.depth(u) <= self.depth(self.fail(s)) by {
            assert(other.path(u) == self.path(u));
        }
    }

    /// Points the failure link of the non-root state `t` at `f`.
    fn set_failure(&mut self, t: usize, f: usize)
        requires
            old(self).shape(),
            old(self).outputs_ok(),
            0 < t < old(self).trie.len(),
        ensures
            final(self).shape(),
            final(self).outputs_ok(),
            final(self).same_trie(old(self)),
            final(self).linked@ == old(self).linked@,
            final(self).fail(t as int) == f,
            forall|s: int|
                0 <= s < old(self).size() && s != t ==> #[trigger] final(self).fail(s) == old(
                    self,
                ).fail(s),
    {
        let ghost pre = *self;
        self.trie[t].failure = f;
        proof {
            self.lemma_same_trie(&pre);
        }
    }

    /// The states in `order` are exactly those with `slot >= 0`, each at its
    /// slot; all of them are correctly linked, and they are listed by
    /// non-decreasing depth.
    spec fn queued(&self, order: Seq<int>, slot: Seq<int>) -> bool {
        &&& slot.len() == self.size()
        &&& forall|a: int|
            0 <= a < order.len() ==> 0 < #[trigger] order[a] < self.size() && slot[order[a]] == a
        &&& forall|t: int|
            0 <= t < self.size() && #[trigger] slot[t] >= 0 ==> slot[t] < order.len()
                && order[slot[t]] == t
        &&& forall|a: int| 0 <= a < order.len() ==> self.link_ok(#[trigger] order[a])
        &&& forall|a: int, b: int|
            0 <= a <= b < order.len() ==> self.depth(#[trigger] order[a]) <= self.depth(
                #[trigger] order[b],
            )
    }

    /// The first `popped` states of `order` have had all their children
    /// linked, and nothing else has been linked but the root's children.
    spec fn frontier(&self, order: Seq<int>, slot: Seq<int>, popped: int) -> bool {
        &&& 0 <= popped <= order.len()
        &&& popped < order.len() ==> self.depth(order[order.len() - 1]) <= self.depth(
            order[popped],
        ) + 1
        &&& forall|t: int|
            0 < t < self.size() && (self.parents@[t] == 0 || 0 <= slot[self.parents@[t]] < popped)
                ==> #[trigger] slot[t] >= 0
        &&& forall|a: int|
            0 <= a < order.len() ==> self.parents@[#[trigger] order[a]] == 0 || 0
                <= slot[self.parents@[order[a]]] < popped
    }

    /// A state that is not linked yet lies strictly deeper than the state at
    /// the front of the queue; in particular the queue is not empty.
    proof fn lemma_unlinked_deeper(&self, order: Seq<int>, slot: Seq<int>, popped: int, t: int)
        requires
            self.shape(),
            self.queued(order, slot),
            self.frontier(order, slot, popped),
            0 < t < self.size(),
            slot[t] < 0,
        ensures
            popped < order.len(),
            self.depth(t) > self.depth(order[popped]),
        decreases self.depth(t),
    {
        assert(self.parent_ok(t));
        let p = self.parents@[t];
        assert(self.depth(p) == self.depth(t) - 1);
        if p != 0 {
            if slot[p] >= 0 {
                assert(order[slot[p]] == p);
                assert(slot[p] >= popped);
                assert(self.depth(order[popped]) <= self.depth(order[slot[p]]));
            } else {
                self.lemma_unlinked_deeper(order, slot, popped, p);
            }
        }
    }

    proof fn lemma_order_bounded(&self, order: Seq<int>, slot: Seq<int>)
        requires
            self.queued(order, slot),
        ensures
            order.len() <= self.size(),
    {
        assert(order.no_duplicates()) by {
            assert forall|a: int, b: int|
                0 <= a < order.len() && 0 <= b < order.len() && a != b implies order[a]
                != order[b] by {
                assert(slot[order[a]] == a);
                assert(slot[order[b]] == b);
            }
        }
        order.unique_seq_to_set();
        lemma_int_range(0, self.size());
        assert(order.to_set().subset_of(set_int_range(0, self.size()))) by {
            assert forall|x: int| order.to_set().contains(x) implies set_int_range(
                0,
                self.size(),
            ).contains(x) by {
                let a = choose|a: int| 0 <= a < order.len() && order[a] == x;
                assert(0 < order[a] < self.size());
            }
        }
        lemma_len_subset(order.to_set(), set_int_range(0, self.size()));
    }

    /// `cur` is the state with the longest path that is a suffix of `t`.
    spec fn deepest(&self, cur: int, t: Seq<char>) -> bool {
        &&& 0 <= cur < self.size()
        &&& is_suffix(self.path(cur), t)
        &&& forall|s: int|
            0 <= s < self.size() && is_suffix(#[trigger] self.path(s), t) ==> self.depth(s)
                <= self.depth(cur)
    }

    /// `cur`'s path is a suffix of `t`, and no state with a longer such path
    /// has a transition on `ch`.
    spec fn leads(&self, cur: int, t: Seq<char>, ch: char) -> bool {
        &&& 0 <= cur < self.size()
        &&& is_suffix(self.path(cur), t)
        &&& forall|s: int|
            0 <= s < self.size() && is_suffix(#[trigger] self.path(s), t) && self.has_edge(s, ch)
                ==> self.depth(s) <= self.depth(cur)
    }

    proof fn lemma_follow_failure(&self, cur: int, t: Seq<char>, ch: char)
        requires
            self.shape(),
            self.link_ok(cur),
            self.leads(cur, t, ch),
            cur != 0,
            !self.has_edge(cur, ch),
        ensures
            self.leads(self.fail(cur), t, ch),
            self.depth(self.fail(cur)) < self.depth(cur),
    {
        let f = self.fail(cur);
        lemma_suffix_of_suffix(self.path(f), self.path(cur), t);
        assert forall|s: int|
            0 <= s < self.size() && is_suffix(#[trigger] self.path(s), t) && self.has_edge(
                s,
                ch,
            ) implies self.depth(s) <= self.depth(f) by {
            assert(s != cur);
            assert(self.path(s) != self.path(cur));
            lemma_suffixes_nest(self.path(s), self.path(cur), t);
        }
    }

    proof fn lemma_advance(&self, cur: int, t: Seq<char>, ch: char, next: int)
        requires
            self.shape(),
            self.leads(cur, t, ch),
            cur == 0 || self.has_edge(cur, ch),
            next == if self.has_edge(cur, ch) {
                self.edge(cur, ch)
            } else {
                cur
            },
        ensures
            self.deepest(next, t.push(ch)),
    {
        let tc = t.push(ch);
        if self.has_edge(cur, ch) {
            lemma_suffix_push(self.path(cur), t, ch);
        } else {
            assert(tc.subrange(tc.len() as int, tc.len() as int) =~= Seq::<char>::empty());
        }
        assert forall|s: int|
            0 <= s < self.size() && is_suffix(#[trigger] self.path(s), tc) implies self.depth(s)
            <= self.depth(next) by {
            if s != 0 {
                assert(self.parent_ok(s));
                let p = self.parents@[s];
                lemma_suffix_pop(self.path(s), t, ch);
                assert(self.has_edge(p, ch));
                assert(is_suffix(self.path(p), t));
                assert(self.depth(p) <= self.depth(cur));
                if !self.has_edge(cur, ch) {
                    assert(self.path(p) =~= self.path(0));
                    assert(p == 0);
                }
            }
        }
    }

    /// No pattern longer than the deepest matching state ends here.
    proof fn lemma_chain_start(&self, m: Measure, cur: int, text: Seq<char>, j: int)
        requires
            self.shape(),
            self.outputs_ok(),
            0 <= j <= text.len(),
            self.deepest(cur, text.take(j)),
        ensures
            total(self.patterns@, ending(m, text, j, self.depth(cur))) == 0,
    {
        let pats = self.patterns@;
        assert forall|i: int|
            0 <= i < pats.len() && ends_at((#[trigger] pats[i]).symbols, text, j) implies pats[i].symbols.len()
            <= self.depth(cur) by {
            let e = self.ends@[i];
            assert(0 <= e < self.size());
            lemma_ends_at_is_suffix(pats[i].symbols, text, j);
            assert(is_suffix(self.path(e), text.take(j)));
        }
        lemma_ending_none(m, pats, text, j, self.depth(cur));
    }

    /// Stepping along a failure link accounts for exactly the outputs of the
    /// state that is left.
    proof fn lemma_chain_step(&self, m: Measure, out: int, text: Seq<char>, j: int)
        requires
            self.shape(),
            self.outputs_ok(),
            self.links_ok(),
            0 < out < self.size(),
            0 <= j <= text.len(),
            is_suffix(self.path(out), text.take(j)),
        ensures
            0 <= self.fail(out) < self.size(),
            self.depth(self.fail(out)) < self.depth(out),
            is_suffix(self.path(self.fail(out)), text.take(j)),
            total(self.patterns@, ending(m, text, j, self.depth(self.fail(out)))) == total(
                self.patterns@,
                ending(m, text, j, self.depth(out)),
            ) + emit(m, self.out(out)),
    {
        let pats = self.patterns@;
        let f = self.fail(out);
        let x = self.path(out);
        assert(self.link_ok(out));
        lemma_suffix_of_suffix(self.path(f), x, text.take(j));
        lemma_ends_at_is_suffix(x, text, j);
        assert forall|i: int|
            0 <= i < pats.len() && ends_at((#[trigger] pats[i]).symbols, text, j) && self.depth(f)
                < pats[i].symbols.len() <= x.len() implies pats[i].symbols == x by {
            let e = self.ends@[i];
            assert(0 <= e < self.size());
            lemma_ends_at_is_suffix(pats[i].symbols, text, j);
            lemma_suffixes_nest(self.path(e), x, text.take(j));
            if self.depth(e) < self.depth(out) {
                assert(is_suffix(self.path(e), self.path(out)));
                assert(self.depth(e) <= self.depth(f));
            }
        }
        lemma_ending_step(m, pats, text, j, x, self.depth(f));
        lemma_emit_matching(m, pats, x);
        assert(self.out(out) == matching(pats, self.path(out)));
    }

    /// A state whose failure link leads to the deepest state matching its
    /// path without the first symbol is correctly linked.
    proof fn lemma_link_from_deepest(&self, t: int)
        requires
            self.shape(),
            0 < t < self.size(),
            self.deepest(self.fail(t), self.path(t).drop_first()),
        ensures
            self.link_ok(t),
    {
        let f = self.fail(t);
        assert(self.parent_ok(t));
        lemma_proper_suffix(self.path(f), self.path(t));
        assert forall|s: int|
            0 <= s < self.size() && self.depth(s) < self.depth(t) && is_suffix(
                #[trigger] self.path(s),
                self.path(t),
            ) implies self.depth(s) <= self.depth(f) by {
            lemma_proper_suffix(self.path(s), self.path(t));
        }
    }

    /// The failure state for the child that `current` reaches on the symbol
    /// `ch`: found by following `current`'s failure chain to the first state
    /// with a transition on `ch`.
    fn failure_target(&self, current: usize, k: u32, Ghost(ch): Ghost<char>) -> (f: usize)
        requires
            self.shape(),
            0 < current < self.trie.len(),
            k == code(ch),
            self.has_edge(current as int, ch),
            forall|s: int|
                0 < s < self.size() && self.depth(s) <= self.depth(current as int)
                    ==> #[trigger] self.link_ok(s),
        ensures
            self.deepest(f as int, self.path(self.edge(current as int, ch)).drop_first()),
    {
        let ghost x = self.path(current as int);
        let ghost t = x.drop_first();
        let mut failure: usize = self.trie[current].failure;
        proof {
            assert(self.parent_ok(current as int));
            assert(self.link_ok(current as int));
            lemma_proper_suffix(self.path(failure as int), x);
            assert forall|s: int|
                0 <= s < self.size() && is_suffix(#[trigger] self.path(s), t) && self.has_edge(
                    s,
                    ch,
                ) implies self.depth(s) <= self.depth(failure as int) by {
                lemma_proper_suffix(self.path(s), x);
            }
        }
        while failure != 0 && !self.trie[failure].children.contains_key(&k)
            invariant
                self.shape(),
                k == code(ch),
                0 < current < self.trie.len(),
                failure < self.trie.len(),
                self.leads(failure as int, t, ch),
                self.depth(failure as int) < self.depth(current as int),
                forall|s: int|
                    0 < s < self.size() && self.depth(s) <= self.depth(current as int)
                        ==> #[trigger] self.link_ok(s),
            decreases self.depth(failure as int),
        {
            proof {
                assert(self.link_ok(failure as int));
                self.lemma_follow_failure(failure as int, t, ch);
            }
            failure = self.trie[failure].failure;
        }
        let ghost before = failure as int;
        match self.trie[failure].children.get(&k) {
            Some(next) => {
                failure = *next;
            },
            None => {},
        }
        proof {
            self.lemma_advance(before, t, ch, failure as int);
            assert(self.path(self.edge(current as int, ch)).drop_first() =~= t.push(ch));
        }
        failure
    }

    /// Sets every state's failure link, breadth first: the root's children
    /// fail to the root, and each deeper state fails to the state reached by
    /// its symbol from the nearest state on its parent's failure chain that
    /// has such a transition.
    pub fn build_failure_links(&mut self)
        requires
            old(self).wf(),
        ensures
            final(self).wf(),
            final(self).linked(),
            final(self).patterns() == old(self).patterns(),
            // states, transitions and outputs are as they were
            final(self).state_count() == old(self).state_count(),
            forall|s: int|
                0 <= s < old(self).state_count() ==> #[trigger] final(self).path_of(s) == old(
                    self,
                ).path_of(s),
            forall|s: int|
                0 <= s < old(self).state_count() ==> #[trigger] final(self).outputs_of(s) == old(
                    self,
                ).outputs_of(s),
            forall|s: int, c: char|
                0 <= s < old(self).state_count() ==> #[trigger] final(self).transition(s, c)
                    == old(self).transition(s, c),
    {
        let ghost n = self.size();
        let ghost mut order = Seq::<int>::empty();
        let ghost mut slot = Seq::<int>::new(n as nat, |t: int| -1int);
        let mut queue: VecDeque<usize> = VecDeque::new();
        self.linked = Ghost(false);
        proof {
            self.lemma_same_trie(old(self));
        }
        let roots = self.children_of(0);
        let ghost root_map = self.trie@[0].children@;
        let mut i: usize = 0;
        while i < roots.len()
            invariant
                i <= roots.len(),
                self.shape(),
                self.outputs_ok(),
                self.same_trie(old(self)),
                !self.linked@,
                n == self.size(),
                root_map == self.trie@[0].children@,
                forall|a: int|
                    0 <= a < roots@.len() ==> root_map.contains_key(#[trigger] roots@[a].0)
                        && root_map[roots@[a].0] == roots@[a].1,
                forall|a: int, b: int| 0 <= a < b < roots@.len() ==> roots@[a].0 != roots@[b].0,
                self.queued(order, slot),
                order.len() == i,
                queue@.len() == i,
                forall|a: int| 0 <= a < i ==> #[trigger] order[a] == roots@[a].1,
                forall|a: int| 0 <= a < i ==> #[trigger] queue@[a] == order[a],
                forall|a: int| 0 <= a < i ==> self.parents@[#[trigger] order[a]] == 0,
                forall|a: int| 0 <= a < i ==> self.depth(#[trigger] order[a]) == 1,
            decreases roots.len() - i,
        {
            let (k, child) = roots[i];
            let ghost ch = symbol_of(k);
            let ghost pre = *self;
            proof {
                assert(root_map.contains_key(roots@[i as int].0));
                assert(self.trie@[0].children@.contains_key(k));
                assert(self.has_edge(0, ch));
                assert(self.edge(0, ch) == child);
                self.lemma_root_child(ch);
                if slot[child as int] >= 0 {
                    let a = slot[child as int];
                    assert(order[a] == child);
                    let other = symbol_of(roots@[a].0);
                    assert(root_map.contains_key(roots@[a].0));
                    assert(self.trie@[0].children@.contains_key(roots@[a].0));
                    assert(self.has_edge(0, other));
                    assert(self.path(child as int) == self.path(0).push(other));
                    assert(self.path(0).push(other).last() == other);
                    assert(self.path(0).push(ch).last() == ch);
                    assert(false);
                }
            }
            self.set_failure(child, 0);
            queue.push_back(child);
            proof {
                let ghost at = order.len() as int;
                let ghost old_order = order;
                order = order.push(child as int);
                slot = slot.update(child as int, at);
                self.lemma_link_root_child(child as int);
                assert forall|a: int| 0 <= a < order.len() implies self.link_ok(
                    #[trigger] order[a],
                ) by {
                    if a < at {
                        assert(pre.link_ok(old_order[a]));
                        self.lemma_link_frame(&pre, order[a]);
                    }
                }
            }
            i = i + 1;
        }
        let ghost mut popped: int = 0;
        proof {
            assert forall|t: int| 0 < t < self.size() && self.parents@[t] == 0 implies #[trigger] slot[t]
                >= 0 by {
                assert(self.parent_ok(t));
                let c = self.path(t).last();
                assert(root_map.contains_key(code(c)));
                let a = choose|a: int| 0 <= a < roots@.len() && #[trigger] roots@[a].0 == code(c);
                assert(order[a] == t);
            }
            if 0 < order.len() {
                assert(self.depth(order[order.len() - 1]) == 1);
                assert(self.depth(order[0]) == 1);
            }
        }
        while queue.len() > 0
            invariant
                self.shape(),
                self.outputs_ok(),
                self.same_trie(old(self)),
                !self.linked@,
                n == self.size(),
                self.queued(order, slot),
                self.frontier(order, slot, popped),
                queue@.len() == order.len() - popped,
                forall|q: int| 0 <= q < queue@.len() ==> #[trigger] queue@[q] == order[popped + q],
            decreases n - popped,
        {
            let current = queue.pop_front().unwrap();
            let ghost cur = current as int;
            let ghost len0 = order.len() as int;
            proof {
                assert(queue@.len() == len0 - popped - 1);
                self.lemma_order_bounded(order, slot);
                assert(cur == order[popped]);
                assert forall|s: int|
                    0 < s < self.size() && self.depth(s) <= self.depth(cur) implies #[trigger] slot[s]
                    >= 0 by {
                    if slot[s] < 0 {
                        self.lemma_unlinked_deeper(order, slot, popped, s);
                    }
                }
            }
            let children = self.children_of(current);
            let ghost kid_map = self.trie@[cur].children@;
            let mut i: usize = 0;
            while i < children.len()
                invariant
                    i <= children.len(),
                    self.shape(),
                    self.outputs_ok(),
                    self.same_trie(old(self)),
                    !self.linked@,
                    n == self.size(),
                    0 < cur < n,
                    cur == current,
                    kid_map == self.trie@[cur].children@,
                    forall|a: int|
                        0 <= a < children@.len() ==> kid_map.contains_key(
                            #[trigger] children@[a].0,
                        ) && kid_map[children@[a].0] == children@[a].1,
                    forall|a: int, b: int|
                        0 <= a < b < children@.len() ==> children@[a].0 != children@[b].0,
                    self.queued(order, slot),
                    0 <= popped < len0,
                    cur == order[popped],
                    order.len() == len0 + i,
                    forall|a: int|
                        0 <= a < len0 ==> self.parents@[#[trigger] order[a]] == 0 || 0
                            <= slot[self.parents@[order[a]]] < popped,
                    forall|a: int|
                        len0 <= a < order.len() ==> #[trigger] order[a] == children@[a - len0].1,
                    forall|a: int|
                        len0 <= a < order.len() ==> self.parents@[#[trigger] order[a]] == cur,
                    forall|a: int|
                        0 <= a < order.len() ==> self.depth(#[trigger] order[a]) <= self.depth(cur)
                            + 1,
                    forall|t: int|
                        0 < t < self.size() && (self.parents@[t] == 0 || 0
                            <= slot[self.parents@[t]] < popped) ==> #[trigger] slot[t] >= 0,
                    forall|s: int|
                        0 < s < self.size() && self.depth(s) <= self.depth(cur)
                            ==> #[trigger] slot[s] >= 0,
                    queue@.len() == order.len() - popped - 1,
                    forall|q: int|
                        0 <= q < queue@.len() ==> #[trigger] queue@[q] == order[popped + 1 + q],
                decreases children.len() - i,
            {
                let (k, child) = children[i];
                let ghost ch = symbol_of(k);
                let ghost pre = *self;
                proof {
                    assert(kid_map.contains_key(children@[i as int].0));
                    assert(self.trie@[cur].children@.contains_key(k));
                    assert(self.has_edge(cur, ch));
                    assert(self.edge(cur, ch) == child);
                    self.lemma_child(cur, ch);
                    assert forall|s: int|
                        0 < s < self.size() && self.depth(s) <= self.depth(
                            cur,
                        ) implies #[trigger] self.link_ok(s) by {
                        assert(slot[s] >= 0);
                        assert(order[slot[s]] == s);
                    }
                    if slot[child as int] >= 0 {
                        let a = slot[child as int];
                        assert(order[a] == child);
                        if a < len0 {
                            assert(slot[cur] == popped);
                            assert(false);
                        } else {
                            let other = symbol_of(children@[a - len0].0);
                            assert(kid_map.contains_key(children@[a - len0].0));
                            assert(self.trie@[cur].children@.contains_key(children@[a - len0].0));
                            assert(self.has_edge(cur, other));
                            assert(self.path(child as int) == self.path(cur).push(other));
                            assert(self.path(cur).push(other).last() == other);
                            assert(self.path(cur).push(ch).last() == ch);
                            assert(false);
                        }
                    }
                }
                let failure = self.failure_target(current, k, Ghost(ch));
                self.set_failure(child, failure);
                queue.push_back(child);
                proof {
                    let ghost at = order.len() as int;
                    let ghost old_order = order;
                    order = order.push(child as int);
                    slot = slot.update(child as int, at);
                    assert(self.path(child as int) == pre.path(child as int));
                    assert(self.deepest(failure as int, self.path(child as int).drop_first())) by {
                        self.lemma_deepest_frame(&pre, failure as int, pre.path(child as int).drop_first());
                    }
                    self.lemma_link_from_deepest(child as int);
                    assert forall|a: int| 0 <= a < order.len() implies self.link_ok(
                        #[trigger] order[a],
                    ) by {
                        if a < at {
                            assert(pre.link_ok(old_order[a]));
                            self.lemma_link_frame(&pre, order[a]);
                        }
                    }
                    assert forall|a: int, b: int| 0 <= a <= b < order.len() implies self.depth(
                        #[trigger] order[a],
                    ) <= self.depth(#[trigger] order[b]) by {
                        if b < at {
                            assert(pre.depth(old_order[a]) <= pre.depth(old_order[b]));
                        } else if a < at {
                            assert(self.depth(old_order[a]) <= self.depth(cur) + 1);
                        }
                    }
                    assert forall|a: int| 0 <= a < len0 implies self.parents@[#[trigger] order[a]]
                        == 0 || 0 <= slot[self.parents@[order[a]]] < popped by {
                        assert(order[a] == old_order[a]);
                        assert(self.parent_ok(order[a]));
                    }
                    assert forall|t: int|
                        0 < t < self.size() && (self.parents@[t] == 0 || 0
                            <= slot[self.parents@[t]] < popped) implies #[trigger] slot[t]
                        >= 0 by {
                        assert(self.parent_ok(t));
                    }
                }
                i = i + 1;
            }
            proof {
                assert forall|t: int|
                    0 < t < self.size() && (self.parents@[t] == 0 || 0 <= slot[self.parents@[t]]
                        < popped + 1) implies #[trigger] slot[t] >= 0 by {
                    let p = self.parents@[t];
                    assert(self.parent_ok(t));
                    if p != 0 && slot[p] == popped {
                        assert(order[slot[p]] == p);
                        let c = self.path(t).last();
                        assert(kid_map.contains_key(code(c)));
                        let a = choose|a: int|
                            0 <= a < children@.len() && #[trigger] children@[a].0 == code(c);
                        assert(order[len0 + a] == t);
                    }
                }
                if popped + 1 < order.len() {
                    assert(self.depth(order[popped]) <= self.depth(order[popped + 1]));
                    assert(self.depth(order[order.len() - 1]) <= self.depth(cur) + 1);
                }
                assert forall|a: int| 0 <= a < order.len() implies self.parents@[#[trigger] order[a]]
                    == 0 || 0 <= slot[self.parents@[order[a]]] < popped + 1 by {
                    assert(self.parent_ok(order[a]));
                    if a >= len0 {
                        assert(self.parents@[order[a]] == cur);
                        assert(slot[cur] == popped);
                    }
                }
                popped = popped + 1;
            }
        }
        proof {
            assert forall|t: int| 0 < t < self.size() implies #[trigger] self.link_ok(t) by {
                if slot[t] < 0 {
                    self.lemma_unlinked_deeper(order, slot, popped, t);
                }
                assert(order[slot[t]] == t);
            }
        }
        let ghost pre = *self;
        self.linked = Ghost(true);
        proof {
            self.lemma_same_trie(&pre);
            assert forall|t: int| 0 < t < self.size() implies #[trigger] self.link_ok(t) by {
                assert(pre.link_ok(t));
                self.lemma_link_frame(&pre, t);
            }
        }
    }

    /// The target of a transition has the source as its parent.
    proof fn lemma_child(&self, s: int, c: char)
        requires
            self.shape(),
            0 <= s < self.size(),
            self.has_edge(s, c),
        ensures
            0 < self.edge(s, c) < self.size(),
            self.parents@[self.edge(s, c)] == s,
            self.depth(self.edge(s, c)) == self.depth(s) + 1,
            self.path(self.edge(s, c)) == self.path(s).push(c),
    {
        let t = self.edge(s, c);
        assert(self.parent_ok(t));
        let p = self.parents@[t];
        assert(self.path(t).drop_last() =~= self.path(s));
        if p != s {
            assert(self.path(p) != self.path(s));
        }
    }

    proof fn lemma_root_child(&self, c: char)
        requires
            self.shape(),
            self.has_edge(0, c),
        ensures
            0 < self.edge(0, c) < self.size(),
            self.parents@[self.edge(0, c)] == 0,
            self.depth(self.edge(0, c)) == 1,
            self.path(self.edge(0, c)) == self.path(0).push(c),
    {
        self.lemma_child(0, c);
    }

    /// A state directly below the root is correctly linked to the root.
    proof fn lemma_link_root_child(&self, t: int)
        requires
            self.shape(),
            0 < t < self.size(),
            self.depth(t) == 1,
            self.fail(t) == 0,
        ensures
            self.link_ok(t),
    {
        let x = self.path(t);
        assert(x.subrange(x.len() as int, x.len() as int) =~= self.path(0));
    }

    proof fn lemma_deepest_frame(&self, other: &AhoCorasick, f: int, t: Seq<char>)
        requires
            self.same_trie(other),
            other.deepest(f, t),
        ensures
            self.deepest(f, t),
    {
        assert forall|s: int|
            0 <= s < self.size() && is_suffix(#[trigger] self.path(s), t) implies self.depth(s)
            <= self.depth(f) by {
            assert(other.path(s) == self.path(s));
        }
    }

    /// The sum of the weights of all occurrences in `text` of the patterns
    /// whose index lies in `[start_gene, end_gene]`. Overlapping and nested
    /// occurrences each count. The sum is taken in 64 bits: one that fits
    /// is returned as it is, one that does not wraps around.
    pub fn search(&self, text: &str, start_gene: usize, end_gene: usize) -> (total_health: i64)
        requires
            self.wf(),
            self.linked(),
        ensures
            total_health == wrapped(
                weighted_occurrences(self.patterns(), text@, start_gene, end_gene),
            ),
            i64::MIN <= weighted_occurrences(self.patterns(), text@, start_gene, end_gene)
                <= i64::MAX ==> total_health == weighted_occurrences(
                self.patterns(),
                text@,
                start_gene,
                end_gene,
            ),
    {
        let ghost m = Measure::Window(start_gene, end_gene);
        let ghost pats = self.patterns@;
        let mut current: usize = 0;
        let mut total_health: i64 = 0;
        proof {
            assert(text@.take(0) =~= Seq::<char>::empty());
            lemma_share_empty_text(m, pats);
            lemma_wrapped_exact(0);
            assert(self.path(0).len() == 0);
            assert(text@.take(0).subrange(0, 0) =~= self.path(0));
            assert forall|s: int|
                0 <= s < self.size() && is_suffix(
                    #[trigger] self.path(s),
                    text@.take(0),
                ) implies self.depth(s) <= self.depth(0) by {}
        }
        for ch in it: text.chars()
            invariant
                it.seq() == text@,
                self.wf(),
                self.linked@,
                pats == self.patterns@,
                m == Measure::Window(start_gene, end_gene),
                current < self.trie.len(),
                self.deepest(current as int, text@.take(it.index())),
                total_health == wrapped(total(pats, share(m, text@.take(it.index())))),
        {
            let ghost j = it.index();
            let ghost t = text@.take(j);
            assert(text@.take(j + 1) =~= t.push(ch));
            let k: u32 = ch as u32;
            while current != 0 && !self.trie[current].children.contains_key(&k)
                invariant
                    self.wf(),
                    self.linked@,
                    k == code(ch),
                    current < self.trie.len(),
                    self.leads(current as int, t, ch),
                decreases self.depth(current as int),
            {
                proof {
                    assert(self.link_ok(current as int));
                    self.lemma_follow_failure(current as int, t, ch);
                }
                current = self.trie[current].failure;
            }
            let ghost before = current as int;
            match self.trie[current].children.get(&k) {
                Some(next) => {
                    current = *next;
                },
                None => {},
            }
            let ghost base = total(pats, share(m, t));
            proof {
                self.lemma_advance(before, t, ch, current as int);
                lemma_share_step(m, pats, text@, j);
                self.lemma_chain_start(m, current as int, text@, j + 1);
            }
            let mut output_node: usize = current;
            while output_node != 0
                invariant
                    self.wf(),
                    self.linked@,
                    pats == self.patterns@,
                    m == Measure::Window(start_gene, end_gene),
                    output_node < self.trie.len(),
                    0 <= j < text@.len(),
                    is_suffix(self.path(output_node as int), text@.take(j + 1)),
                    total_health == wrapped(
                        base + total(
                            pats,
                            ending(m, text@, j + 1, self.depth(output_node as int)),
                        ),
                    ),
                decreases self.depth(output_node as int),
            {
                let node = &self.trie[output_node];
                let ghost outs = node.output@;
                let ghost d = self.depth(output_node as int);
                let ghost mid = base + total(pats, ending(m, text@, j + 1, d));
                proof {
                    self.lemma_chain_step(m, output_node as int, text@, j + 1);
                    assert(outs == self.out(output_node as int));
                    assert(outs.take(0) =~= Seq::<(usize, i64)>::empty());
                }
                let mut i: usize = 0;
                while i < node.output.len()
                    invariant
                        i <= node.output.len(),
                        outs == node.output@,
                        m == Measure::Window(start_gene, end_gene),
                        total_health == wrapped(mid + emit(m, outs.take(i as int))),
                    decreases node.output.len() - i,
                {
                    let (gene_index, health_value) = node.output[i];
                    proof {
                        assert(outs.take(i + 1) =~= outs.take(i as int).push(outs[i as int]));
                        lemma_emit_push(m, outs.take(i as int), outs[i as int]);
                        lemma_wrapped_add(mid + emit(m, outs.take(i as int)), health_value as int);
                    }
                    if gene_index >= start_gene && gene_index <= end_gene {
                        total_health = add_wrapping(total_health, health_value);
                    }
                    i = i + 1;
                }
                proof {
                    assert(outs.take(i as int) =~= outs);
                }
                output_node = node.failure;
            }
        }
        proof {
            assert(text@.take(text@.len() as int) =~= text@);
            let sum = weighted_occurrences(self.patterns(), text@, start_gene, end_gene);
            if i64::MIN <= sum <= i64::MAX {
                lemma_wrapped_exact(sum);
            }
        }
        total_health
    }

    /// The outputs of the states on the failure chain from `out` are those
    /// of the patterns of at most `out`'s depth that end at offset `j`.
    proof fn lemma_chain_outputs(&self, out: int, text: Seq<char>, j: int)
        requires
            self.shape(),
            self.outputs_ok(),
            self.links_ok(),
            0 < out < self.size(),
            0 <= j <= text.len(),
            is_suffix(self.path(out), text.take(j)),
        ensures
            ending_here(self.patterns@, text, j, self.depth(out)) == self.out(out) + ending_here(
                self.patterns@,
                text,
                j,
                self.depth(self.fail(out)),
            ),
    {
        let pats = self.patterns@;
        let f = self.fail(out);
        let x = self.path(out);
        let d = self.depth(out);
        assert(self.link_ok(out));
        lemma_ends_at_is_suffix(x, text, j);
        assert(text.subrange(j - d, j) == x);
        assert forall|i: int|
            0 <= i < pats.len() && ends_at((#[trigger] pats[i]).symbols, text, j) implies !(
        self.depth(f) < pats[i].symbols.len() <= d - 1) by {
            let e = self.ends@[i];
            assert(0 <= e < self.size());
            lemma_ends_at_is_suffix(pats[i].symbols, text, j);
            if pats[i].symbols.len() <= d - 1 {
                lemma_suffixes_nest(self.path(e), x, text.take(j));
                assert(self.depth(e) <= self.depth(f));
            }
        }
        lemma_ending_here_gap(pats, text, j, self.depth(f), d - 1);
        assert(self.out(out) == matching(pats, x));
    }

    /// Nothing longer than the deepest matching state ends at offset `j`.
    proof fn lemma_chain_outputs_start(&self, cur: int, text: Seq<char>, j: int)
        requires
            self.shape(),
            self.outputs_ok(),
            0 <= j <= text.len(),
            self.deepest(cur, text.take(j)),
        ensures
            ending_here(self.patterns@, text, j, j) == ending_here(
                self.patterns@,
                text,
                j,
                self.depth(cur),
            ),
    {
        let pats = self.patterns@;
        assert forall|i: int|
            0 <= i < pats.len() && ends_at((#[trigger] pats[i]).symbols, text, j) implies !(
        self.depth(cur) < pats[i].symbols.len() <= j) by {
            let e = self.ends@[i];
            assert(0 <= e < self.size());
            lemma_ends_at_is_suffix(pats[i].symbols, text, j);
            assert(is_suffix(self.path(e), text.take(j)));
        }
        lemma_ending_here_gap(pats, text, j, self.depth(cur), j);
    }

    /// Streams `text` through the automaton and lists, for each position,
    /// the `(index, weight)` of every pattern occurrence that ends there:
    /// longest patterns first, patterns of the same symbols in registration
    /// order. Nothing is filtered or summed.
    pub fn find_matches(&self, text: &str) -> (found: Vec<Vec<(usize, i64)>>)
        requires
            self.wf(),
            self.linked(),
        ensures
            found@.len() == text@.len(),
            forall|j: int|
                0 <= j < text@.len() ==> (#[trigger] found@[j])@ == ending_here(
                    self.patterns(),
                    text@,
                    j + 1,
                    j + 1,
                ),
    {
        let ghost pats = self.patterns@;
        let mut found: Vec<Vec<(usize, i64)>> = Vec::new();
        let mut current: usize = 0;
        proof {
            assert(text@.take(0).subrange(0, 0) =~= self.path(0));
            assert forall|s: int|
                0 <= s < self.size() && is_suffix(
                    #[trigger] self.path(s),
                    text@.take(0),
                ) implies self.depth(s) <= self.depth(0) by {}
        }
        for ch in it: text.chars()
            invariant
                it.seq() == text@,
                self.wf(),
                self.linked@,
                pats == self.patterns@,
                current < self.trie.len(),
                self.deepest(current as int, text@.take(it.index())),
                found@.len() == it.index(),
                forall|j: int|
                    0 <= j < it.index() ==> (#[trigger] found@[j])@ == ending_here(
                        pats,
                        text@,
                        j + 1,
                        j + 1,
                    ),
        {
            let ghost j = it.index();
            let ghost t = text@.take(j);
            assert(text@.take(j + 1) =~= t.push(ch));
            let k: u32 = ch as u32;
            while current != 0 && !self.trie[current].children.contains_key(&k)
                invariant
                    self.wf(),
                    self.linked@,
                    k == code(ch),
                    current < self.trie.len(),
                    self.leads(current as int, t, ch),
                decreases self.depth(current as int),
            {
                proof {
                    assert(self.link_ok(current as int));
                    self.lemma_follow_failure(current as int, t, ch);
                }
                current = self.trie[current].failure;
            }
            let ghost before = current as int;
            match self.trie[current].children.get(&k) {
                Some(next) => {
                    current = *next;
                },
                None => {},
            }
            proof {
                self.lemma_advance(before, t, ch, current as int);
                self.lemma_chain_outputs_start(current as int, text@, j + 1);
            }
            let mut here: Vec<(usize, i64)> = Vec::new();
            let mut output_node: usize = current;
            while output_node != 0
                invariant
                    self.wf(),
                    self.linked@,
                    pats == self.patterns@,
                    output_node < self.trie.len(),
                    0 <= j < text@.len(),
                    is_suffix(self.path(output_node as int), text@.take(j + 1)),
                    here@ + ending_here(pats, text@, j + 1, self.depth(output_node as int))
                        == ending_here(pats, text@, j + 1, j + 1),
                decreases self.depth(output_node as int),
            {
                let node = &self.trie[output_node];
                let ghost collected = here@;
                proof {
                    self.lemma_chain_outputs(output_node as int, text@, j + 1);
                    assert(self.link_ok(output_node as int));
                    lemma_suffix_of_suffix(
                        self.path(self.fail(output_node as int)),
                        self.path(output_node as int),
                        text@.take(j + 1),
                    );
                }
                let mut i: usize = 0;
                while i < node.output.len()
                    invariant
                        i <= node.output@.len(),
                        here@ == collected + node.output@.take(i as int),
                    decreases node.output@.len() - i,
                {
                    here.push(node.output[i]);
                    proof {
                        assert(here@ =~= collected + node.output@.take(i + 1));
                    }
                    i = i + 1;
                }
                proof {
                    assert(node.output@.take(node.output@.len() as int) =~= node.output@);
                    assert((collected + node.output@) + ending_here(
                        pats,
                        text@,
                        j + 1,
                        self.depth(self.fail(output_node as int)),
                    ) =~= collected + (node.output@ + ending_here(
                        pats,
                        text@,
                        j + 1,
                        self.depth(self.fail(output_node as int)),
                    )));
                }
                output_node = node.failure;
            }
            proof {
                assert(here@ + Seq::<(usize, i64)>::empty() =~= here@);
            }
            found.push(here);
        }
        found
    }

    /// What a query must return: the sum over the window, as 64 bits hold
    /// it, or a refusal when the window is inverted or reaches past the last
    /// pattern.
    pub open spec fn answers(
        &self,
        start_index: usize,
        end_index: usize,
        text: Seq<char>,
        res: Result<i64, DnaError>,
    ) -> bool {
        if valid_range(start_index, end_index, self.patterns().len()) {
            res is Ok && res->Ok_0 == wrapped(
                weighted_occurrences(self.patterns(), text, start_index, end_index),
            )
        } else {
            res == Err::<i64, DnaError>(DnaError::InvalidRange)
        }
    }

    /// Answers one query. The window is checked before any matching is done.
    pub fn evaluate(&self, start_index: usize, end_index: usize, text: &str) -> (res: Result<
        i64,
        DnaError,
    >)
        requires
            self.wf(),
            self.linked(),
        ensures
            self.answers(start_index, end_index, text@, res),
    {
        if start_index > end_index || end_index >= self.count {
            return Err(DnaError::InvalidRange);
        }
        Ok(self.search(text, start_index, end_index))
    }
}

/// All that was found, position after position.
pub open spec fn flattened(found: Seq<Vec<(usize, i64)>>) -> Seq<(usize, i64)>
    decreases found.len(),
{
    if found.len() == 0 {
        Seq::empty()
    } else {
        flattened(found.drop_last()) + found.last()@
    }
}

/// What `find_matches` returns is, put end to end, what a matcher emits.
pub proof fn lemma_found_is_emitted(
    pats: Seq<Pattern>,
    text: Seq<char>,
    found: Seq<Vec<(usize, i64)>>,
    n: int,
)
    requires
        0 <= n <= text.len(),
        found.len() == text.len(),
        forall|j: int|
            0 <= j < text.len() ==> (#[trigger] found[j])@ == ending_here(pats, text, j + 1, j + 1),
    ensures
        flattened(found.take(n)) == emitted(pats, text, n),
    decreases n,
{
    if n > 0 {
        lemma_found_is_emitted(pats, text, found, n - 1);
        assert(found.take(n).drop_last() =~= found.take(n - 1));
        assert(found.take(n).last() == found[n - 1]);
    }
}

/// The weights found for the patterns of a window add up to the sum, over
/// every pattern of the window and every offset at which it occurs in the
/// text, of the pattern's weight.
pub proof fn lemma_found_sums_to_answer(
    pats: Seq<Pattern>,
    text: Seq<char>,
    found: Seq<Vec<(usize, i64)>>,
    lo: usize,
    hi: usize,
)
    requires
        all_nonempty(pats),
        found.len() == text.len(),
        forall|j: int|
            0 <= j < text.len() ==> (#[trigger] found[j])@ == ending_here(pats, text, j + 1, j + 1),
    ensures
        emit(Measure::Window(lo, hi), flattened(found)) == weighted_occurrences(pats, text, lo, hi),
{
    let n = text.len() as int;
    lemma_found_is_emitted(pats, text, found, n);
    assert(found.take(n) =~= found);
    assert(text.take(n) =~= text);
    lemma_emitted_worth(Measure::Window(lo, hi), pats, text, n);
}

/// Adds up the weights of the matches whose pattern index lies in
/// `[start, end]`, in 64 bits.
pub fn aggregate(found: &Vec<Vec<(usize, i64)>>, start: usize, end: usize) -> (sum: i64)
    ensures
        sum == wrapped(emit(Measure::Window(start, end), flattened(found@))),
{
    let ghost m = Measure::Window(start, end);
    let mut sum: i64 = 0;
    let mut j: usize = 0;
    proof {
        assert(found@.take(0) =~= Seq::<Vec<(usize, i64)>>::empty());
        lemma_wrapped_exact(0);
    }
    while j < found.len()
        invariant
            j <= found@.len(),
            m == Measure::Window(start, end),
            sum == wrapped(emit(m, flattened(found@.take(j as int)))),
        decreases found@.len() - j,
    {
        let here = &found[j];
        let ghost before = flattened(found@.take(j as int));
        let ghost base = emit(m, before);
        proof {
            assert(found@.take(j + 1).drop_last() =~= found@.take(j as int));
            assert(found@.take(j + 1).last() == found@[j as int]);
            lemma_emit_concat(m, before, here@);
            assert(here@.take(0) =~= Seq::<(usize, i64)>::empty());
        }
        let mut i: usize = 0;
        while i < here.len()
            invariant
                i <= here@.len(),
                m == Measure::Window(start, end),
                sum == wrapped(base + emit(m, here@.take(i as int))),
            decreases here@.len() - i,
        {
            let (index, weight) = here[i];
            proof {
                assert(here@.take(i + 1) =~= here@.take(i as int).push(here@[i as int]));
                lemma_emit_push(m, here@.take(i as int), here@[i as int]);
                lemma_wrapped_add(base + emit(m, here@.take(i as int)), weight as int);
            }
            if index >= start && index <= end {
                sum = add_wrapping(sum, weight);
            }
            i = i + 1;
        }
        proof {
            assert(here@.take(here@.len() as int) =~= here@);
        }
        j = j + 1;
    }
    proof {
        assert(found@.take(found@.len() as int) =~= found@);
    }
    sum
}

/// A window `[start, end]` over `count` patterns: not inverted, and within
/// the patterns.
pub open spec fn valid_range(start: usize, end: usize, count: nat) -> bool {
    start <= end && end < count
}

/// Two automata over the same patterns answer every query alike.
pub proof fn lemma_rebuild_agrees(
    first: AhoCorasick,
    second: AhoCorasick,
    start_index: usize,
    end_index: usize,
    text: Seq<char>,
    first_res: Result<i64, DnaError>,
    second_res: Result<i64, DnaError>,
)
    requires
        first.patterns() == second.patterns(),
        first.answers(start_index, end_index, text, first_res),
        second.answers(start_index, end_index, text, second_res),
    ensures
        first_res == second_res,
{
}

/// The patterns that a list of `(symbols, weight)` pairs stands for, each
/// under its position as index.
pub open spec fn weighted(patterns: Seq<(String, i64)>) -> Seq<Pattern> {
    Seq::new(
        patterns.len(),
        |i: int| Pattern { symbols: patterns[i].0@, index: i as usize, weight: patterns[i].1 },
    )
}

/// Builds the linked automaton over `patterns`. Fails when any pattern is
/// empty.
pub fn build(patterns: &Vec<(String, i64)>) -> (res: Result<AhoCorasick, DnaError>)
    ensures
        all_nonempty(weighted(patterns@)) ==> res is Ok && res->Ok_0.wf() && res->Ok_0.linked()
            && res->Ok_0.patterns() == weighted(patterns@),
        !all_nonempty(weighted(patterns@)) ==> res is Err && res->Err_0
            == DnaError::InvalidPattern,
{
    let ghost all = weighted(patterns@);
    let mut ac = AhoCorasick::new();
    let mut i: usize = 0;
    while i < patterns.len()
        invariant
            i <= patterns.len(),
            all == weighted(patterns@),
            ac.wf(),
            ac.patterns() == all.take(i as int),
        decreases patterns.len() - i,
    {
        let symbols = patterns[i].0.as_str();
        match ac.add_pattern(symbols, i, patterns[i].1) {
            Ok(_) => {},
            Err(e) => {
                proof {
                    assert(all[i as int].symbols.len() == 0);
                }
                return Err(e);
            },
        }
        proof {
            assert(all.take(i + 1) =~= all.take(i as int).push(all[i as int]));
        }
        i = i + 1;
    }
    proof {
        assert(all.take(patterns.len() as int) =~= all);
        assert(ac.outputs_ok());
    }
    ac.build_failure_links();
    Ok(ac)
}

/// Adding a fresh state below `cur` on symbol `ch` keeps the trie a trie.
proof fn lemma_grow(pre: AhoCorasick, post: AhoCorasick, cur: int, ch: char, fresh_id: usize)
    requires
        pre.shape(),
        pre.outputs_ok(),
        0 <= cur < pre.size(),
        fresh_id == pre.size(),
        !pre.has_edge(cur, ch),
        post.trie@.len() == pre.trie@.len() + 1,
        forall|s: int| 0 <= s < pre.size() && s != cur ==> post.trie@[s] == pre.trie@[s],
        post.trie@[cur].children@ == pre.trie@[cur].children@.insert(code(ch), fresh_id),
        post.trie@[cur].failure == pre.trie@[cur].failure,
        post.trie@[cur].output == pre.trie@[cur].output,
        post.trie@[pre.size()].children@ == Map::<u32, usize>::empty(),
        post.trie@[pre.size()].failure == 0,
        post.trie@[pre.size()].output@ == Seq::<(usize, i64)>::empty(),
        post.paths@ == pre.paths@.push(pre.path(cur).push(ch)),
        post.parents@ == pre.parents@.push(cur),
        post.count == pre.count,
        post.ends@ == pre.ends@,
        post.patterns@ == pre.patterns@,
    ensures
        post.shape(),
        post.outputs_ok(),
        !pre.paths@.contains(pre.path(cur).push(ch)),
{
    let n = pre.size();
    let fresh = pre.path(cur).push(ch);
    assert forall|s: int| 0 <= s < n implies post.path(s) == pre.path(s) by {}
    assert(post.path(n) == fresh);
    // No existing state already has the fresh path.
    assert forall|t: int| 0 <= t < n implies pre.path(t) != fresh by {
        if pre.path(t) == fresh {
            assert(t != 0);
            assert(pre.parent_ok(t));
            let p = pre.parents@[t];
            assert(fresh.drop_last() =~= pre.path(cur));
            assert(fresh.last() == ch);
            assert(pre.path(p) == pre.path(cur));
            assert(p == cur);
        }
    }
    assert forall|s: int, k: u32|
        0 <= s < post.size() && #[trigger] post.trie@[s].children@.contains_key(k) implies code(
        symbol_of(k),
    ) == k by {
        if s == cur && k == code(ch) {
            lemma_symbol_of_code(ch);
        } else if s == cur {
            assert(pre.trie@[s].children@.contains_key(k));
        } else if s < n {
            assert(pre.trie@[s].children@.contains_key(k));
        }
    }
    assert forall|s: int, c: char| 0 <= s < post.size() && #[trigger] post.has_edge(s, c) implies 0
        < post.edge(s, c) < post.size() && post.path(post.edge(s, c)) == post.path(s).push(c) by {
        if s == cur && code(c) == code(ch) {
            lemma_code_injective(c, ch);
        } else if s == cur {
            assert(pre.has_edge(s, c));
        } else if s < n {
            assert(pre.has_edge(s, c));
        }
    }
    assert forall|t: int| 0 < t < post.size() implies #[trigger] post.parent_ok(t) by {
        if t < n {
            assert(pre.parent_ok(t));
            let p = pre.parents@[t];
            let last = pre.path(t).last();
            assert(pre.has_edge(p, last));
            if p == cur {
                assert(code(last) != code(ch));
            }
        } else {
            assert(fresh.drop_last() =~= pre.path(cur));
            assert(fresh.last() == ch);
        }
    }
    assert forall|s: int, t: int|
        #![trigger post.path(s), post.path(t)]
        0 <= s < post.size() && 0 <= t < post.size() && s != t implies post.path(s) != post.path(
        t,
    ) by {
        if s < n && t < n {
            assert(pre.path(s) != pre.path(t));
        }
    }
    assert forall|i: int| 0 <= i < post.patterns@.len() implies 0 <= #[trigger] post.ends@[i]
        < post.size() && post.path(post.ends@[i]) == post.patterns@[i].symbols by {
        assert(0 <= pre.ends@[i] < n);
    }
    assert forall|s: int| 0 <= s < post.size() implies #[trigger] post.out(s) == matching(
        post.patterns@,
        post.path(s),
    ) by {
        if s < n {
            assert(pre.out(s) == matching(pre.patterns@, pre.path(s)));
        } else {
            assert forall|i: int| 0 <= i < pre.patterns@.len() implies (
            #[trigger] pre.patterns@[i]).symbols != fresh by {
                assert(0 <= pre.ends@[i] < n);
            }
            lemma_matching_none(pre.patterns@, fresh);
        }
    }
    if pre.paths@.contains(fresh) {
        let t = choose|t: int| 0 <= t < pre.paths@.len() && pre.paths@[t] == fresh;
        assert(pre.path(t) != fresh);
    }
}

/// Recording a pattern at the state its symbols lead to keeps every state's
/// outputs in step with the patterns.
proof fn lemma_register(pre: AhoCorasick, post: AhoCorasick, cur: int, p: Pattern)
    requires
        pre.shape(),
        pre.outputs_ok(),
        0 <= cur < pre.size(),
        pre.path(cur) == p.symbols,
        p.symbols.len() > 0,
        post.trie@.len() == pre.trie@.len(),
        forall|s: int| 0 <= s < pre.size() && s != cur ==> post.trie@[s] == pre.trie@[s],
        post.trie@[cur].children == pre.trie@[cur].children,
        post.trie@[cur].failure == pre.trie@[cur].failure,
        post.trie@[cur].output@ == pre.trie@[cur].output@.push((p.index, p.weight)),
        post.paths@ == pre.paths@,
        post.parents@ == pre.parents@,
        post.count == pre.count + 1,
        post.ends@ == pre.ends@.push(cur),
        post.patterns@ == pre.patterns@.push(p),
    ensures
        post.shape(),
        post.outputs_ok(),
{
    assert forall|s: int, k: u32|
        0 <= s < post.size() && #[trigger] post.trie@[s].children@.contains_key(k) implies code(
        symbol_of(k),
    ) == k by {
        assert(pre.trie@[s].children@.contains_key(k));
    }
    assert forall|s: int, c: char| 0 <= s < post.size() && #[trigger] post.has_edge(s, c) implies 0
        < post.edge(s, c) < post.size() && post.path(post.edge(s, c)) == post.path(s).push(c) by {
        assert(pre.has_edge(s, c));
    }
    assert forall|t: int| 0 < t < post.size() implies #[trigger] post.parent_ok(t) by {
        assert(pre.parent_ok(t));
    }
    assert forall|s: int, t: int|
        #![trigger post.path(s), post.path(t)]
        0 <= s < post.size() && 0 <= t < post.size() && s != t implies post.path(s) != post.path(
        t,
    ) by {
        assert(pre.path(s) != pre.path(t));
    }
    assert forall|i: int| 0 <= i < post.patterns@.len() implies 0 <= #[trigger] post.ends@[i]
        < post.size() && post.path(post.ends@[i]) == post.patterns@[i].symbols by {
        if i < pre.patterns@.len() {
            assert(0 <= pre.ends@[i] < pre.size());
        }
    }
    assert forall|s: int| 0 <= s < post.size() implies #[trigger] post.out(s) == matching(
        post.patterns@,
        post.path(s),
    ) by {
        assert(pre.out(s) == matching(pre.patterns@, pre.path(s)));
        lemma_matching_push(pre.patterns@, p, pre.path(s));
        if s != cur {
            assert(pre.path(s) != pre.path(cur));
        }
    }
    assert forall|i: int| 0 <= i < post.patterns@.len() implies (#[trigger] post.patterns@[i]).symbols.len() > 0 by {
        if i < pre.patterns@.len() {
            assert(pre.patterns@[i].symbols.len() > 0);
        }
    }
}

proof fn lemma_matching_push(pats: Seq<Pattern>, p: Pattern, x: Seq<char>)
    ensures
        matching(pats.push(p), x) == if p.symbols == x {
            matching(pats, x).push((p.index, p.weight))
        } else {
            matching(pats, x)
        },
{
    assert(pats.push(p).drop_last() =~= pats);
}

} // verus!
