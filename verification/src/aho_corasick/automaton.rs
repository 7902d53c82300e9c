//! The automaton: a trie of the patterns in one arena of states, overlaid
//! with failure links. This file holds the data and what has to hold of it;
//! the two passes that build it and the transition function have files of
//! their own.

use super::suffix::begins_with;
use super::suffix::ends_with;
use super::suffix::lemma_push_is_injective;
use super::suffix::lemma_suffix_chain;
use super::suffix::lemma_suffix_pop;
use super::suffix::lemma_trivial_suffixes;
use std::collections::HashMap;
use vstd::prelude::*;
use vstd::std_specs::hash::spec_hash_map_iter;
use vstd::std_specs::iter::IteratorSpec;

verus! {

/// One node of the trie. States refer to each other by their index in the
/// automaton's arena; index 0 is the root.
pub struct State {
    /// The symbol on the edge that leads here (`'\0'` at the root).
    pub value: char,
    /// Where to go on when no edge fits: the state of the longest proper
    /// suffix of this state's word that is itself a state.
    pub fail_state: usize,
    /// The trie edges, keyed by the symbol's scalar value.
    pub next_states: HashMap<u32, usize>,
    /// The patterns that end here, by their number: this state's own pattern
    /// and, once the state is linked, those of its failure chain.
    pub output: Vec<usize>,
    /// The symbols on the path from the root to this state.
    pub word: Ghost<Seq<char>>,
    /// The state one symbol up the trie.
    pub parent: Ghost<int>,
    /// Whether the failure link and the inherited output are in place.
    pub linked: Ghost<bool>,
    /// The number of a pattern that begins with this state's word: the one
    /// for which the state was made.
    pub serves: Ghost<int>,
}

/// The trie with its failure links, together with the patterns it was built
/// from: each distinct pattern once, numbered in the order of arrival.
pub struct Automaton {
    pub states: Vec<State>,
    pub patterns: Vec<String>,
    /// The number of symbols of each pattern.
    pub lengths: Vec<usize>,
    /// The state at which each pattern ends.
    pub terminals: Ghost<Seq<int>>,
}

impl Automaton {
    /// `s` is the index of a state.
    pub open spec fn is_state(&self, s: int) -> bool {
        0 <= s < self.states.len()
    }

    /// The word that state `s` spells: the symbols on its path from the root.
    pub open spec fn word(&self, s: int) -> Seq<char> {
        self.states[s].word@
    }

    /// The length of the word of state `s`.
    pub open spec fn depth(&self, s: int) -> int {
        self.word(s).len() as int
    }

    /// The state that state `s` hangs on.
    pub open spec fn parent(&self, s: int) -> int {
        self.states[s].parent@
    }

    /// The symbol on the edge that leads to state `s`.
    pub open spec fn symbol(&self, s: int) -> char {
        self.states[s].value
    }

    /// The edges that leave state `s`.
    pub open spec fn edges(&self, s: int) -> Map<u32, usize> {
        self.states[s].next_states@
    }

    /// State `s` has an edge on `c`.
    pub open spec fn has_child(&self, s: int, c: char) -> bool {
        self.edges(s).contains_key(c as u32)
    }

    /// Where the edge of state `s` on `c` leads.
    pub open spec fn child(&self, s: int, c: char) -> int {
        self.edges(s)[c as u32] as int
    }

    /// Where the failure link of state `s` points.
    pub open spec fn fail(&self, s: int) -> int {
        self.states[s].fail_state as int
    }

    /// State `s` is marked as linked.
    pub open spec fn is_linked(&self, s: int) -> bool {
        self.states[s].linked@
    }

    /// The number of the pattern for which state `s` was made.
    pub open spec fn serves(&self, s: int) -> int {
        self.states[s].serves@
    }

    /// Some state spells `w`.
    pub open spec fn spells(&self, w: Seq<char>) -> bool {
        exists|s: int| self.is_state(s) && #[trigger] self.word(s) == w
    }

    /// State `s` is there for a reason: it is the root, or its word is the
    /// beginning of the pattern that it serves. The trie holds no state that
    /// no pattern asks for.
    pub open spec fn needed(&self, s: int) -> bool {
        s == 0 || (0 <= self.serves(s) < self.patterns.len() && begins_with(
            self.patterns[self.serves(s)]@,
            self.word(s),
        ))
    }

    /// The distinct patterns, in the order of their numbers.
    pub open spec fn keys(&self) -> Seq<Seq<char>> {
        Seq::new(self.patterns.len() as nat, |j: int| self.patterns[j]@)
    }

    /// The states form a trie: the root stands for the empty word, each edge
    /// appends its symbol, every other state hangs on its parent's edge, and
    /// no word has two states.
    pub open spec fn trie(&self) -> bool {
        &&& self.states.len() >= 1
        &&& self.word(0) == Seq::<char>::empty()
        &&& forall|s: int, k: u32|
            self.is_state(s) && #[trigger] self.edges(s).contains_key(k) ==> {
                let t = self.edges(s)[k] as int;
                &&& 0 < t < self.states.len()
                &&& self.parent(t) == s
                &&& k == self.symbol(t) as u32
            }
        &&& forall|t: int|
            0 < t < self.states.len() ==> {
                let p = #[trigger] self.parent(t);
                &&& self.is_state(p)
                &&& self.has_child(p, self.symbol(t))
                &&& self.child(p, self.symbol(t)) == t
                &&& self.word(t) == self.word(p).push(self.symbol(t))
            }
        &&& forall|s: int, t: int|
            self.is_state(s) && self.is_state(t) && #[trigger] self.word(s) == #[trigger] self.word(
                t,
            ) ==> s == t
    }

    /// The bookkeeping of the patterns: no pattern twice, and for each one
    /// its length and the state that spells it.
    pub open spec fn keyed(&self) -> bool {
        &&& self.lengths.len() == self.patterns.len()
        &&& self.terminals@.len() == self.patterns.len()
        &&& forall|j: int|
            0 <= j < self.patterns.len() ==> {
                let t = #[trigger] self.terminals@[j];
                &&& self.is_state(t)
                &&& self.word(t) == self.patterns[j]@
                &&& self.lengths[j] == self.patterns[j]@.len()
            }
        &&& forall|i: int, j: int|
            0 <= i < j < self.patterns.len() ==> self.patterns[i]@ != self.patterns[j]@
    }

    /// `out` names, each once, the patterns that are equal to `w`.
    pub open spec fn lists_exact(&self, out: Seq<usize>, w: Seq<char>) -> bool {
        &&& out.no_duplicates()
        &&& forall|j: usize| #[trigger]
            out.contains(j) <==> j < self.patterns.len() && self.patterns[j as int]@ == w
    }

    /// `out` names, each once, the patterns that `w` ends with.
    pub open spec fn lists_suffixes(&self, out: Seq<usize>, w: Seq<char>) -> bool {
        &&& out.no_duplicates()
        &&& forall|j: usize| #[trigger]
            out.contains(j) <==> j < self.patterns.len() && ends_with(w, self.patterns[j as int]@)
    }

    /// State `s` spells a suffix of `w`.
    pub open spec fn suffix_state(&self, w: Seq<char>, s: int) -> bool {
        self.is_state(s) && ends_with(w, self.word(s))
    }

    /// Among the states that spell a suffix of `w` of at most `bound`
    /// symbols, `s` spells the longest.
    pub open spec fn longest_suffix_state(&self, w: Seq<char>, bound: int, s: int) -> bool {
        &&& self.suffix_state(w, s)
        &&& self.depth(s) <= bound
        &&& forall|t: int| #[trigger]
            self.suffix_state(w, t) && self.depth(t) <= bound ==> self.depth(t) <= self.depth(s)
    }

    /// State `s` is as the insertion pass leaves it.
    pub open spec fn fresh(&self, s: int) -> bool {
        &&& self.fail(s) == 0
        &&& self.lists_exact(self.states[s].output@, self.word(s))
    }

    /// State `s` is as the linking pass leaves it.
    pub open spec fn linked(&self, s: int) -> bool {
        &&& self.is_state(self.fail(s))
        &&& if s == 0 {
            self.fail(s) == 0
        } else {
            self.longest_suffix_state(self.word(s), self.depth(s) - 1, self.fail(s))
        }
        &&& self.lists_suffixes(self.states[s].output@, self.word(s))
    }

    /// The invariant of the insertion pass.
    pub open spec fn building(&self) -> bool {
        &&& self.trie()
        &&& self.keyed()
        &&& forall|s: int| self.is_state(s) ==> #[trigger] self.fresh(s)
        &&& forall|s: int| self.is_state(s) ==> (#[trigger] self.is_linked(s) <==> s == 0)
        &&& forall|s: int| self.is_state(s) ==> #[trigger] self.needed(s)
    }

    /// Every state that is marked as linked is linked, and so is the state
    /// that its failure link points to.
    pub open spec fn links_sound(&self) -> bool {
        &&& forall|s: int| self.is_state(s) && #[trigger] self.is_linked(s) ==> self.linked(s)
        &&& forall|s: int| self.is_state(s) && self.is_linked(s) ==> #[trigger] self.falls_on_linked(s)
    }

    /// The failure link of `s` points to a state that is marked as linked.
    pub open spec fn falls_on_linked(&self, s: int) -> bool {
        self.is_linked(self.fail(s))
    }

    /// The finished automaton.
    pub open spec fn complete(&self) -> bool {
        &&& self.trie()
        &&& self.keyed()
        &&& self.links_sound()
        &&& forall|s: int| self.is_state(s) ==> #[trigger] self.is_linked(s)
        &&& forall|s: int| self.is_state(s) ==> #[trigger] self.needed(s)
    }

    /// `other` has the trie and the patterns of `self`; failure links and
    /// outputs may differ.
    pub open spec fn same_shape(&self, other: &Automaton) -> bool {
        &&& other.states.len() == self.states.len()
        &&& other.patterns == self.patterns
        &&& other.lengths == self.lengths
        &&& other.terminals == self.terminals
        &&& forall|s: int| self.is_state(s) ==> #[trigger] other.word(s) == self.word(s)
        &&& forall|s: int| self.is_state(s) ==> #[trigger] other.parent(s) == self.parent(s)
        &&& forall|s: int| self.is_state(s) ==> #[trigger] other.symbol(s) == self.symbol(s)
        &&& forall|s: int| self.is_state(s) ==> #[trigger] other.edges(s) == self.edges(s)
        &&& forall|s: int| self.is_state(s) ==> #[trigger] other.serves(s) == self.serves(s)
    }

    /// State `s` has in `other` the failure link and the output that it has
    /// in `self`.
    pub open spec fn same_links(&self, other: &Automaton, s: int) -> bool {
        &&& other.fail(s) == self.fail(s)
        &&& other.states[s].output@ == self.states[s].output@
        &&& other.is_linked(s) == self.is_linked(s)
    }

    /// A state whose word is `w` followed by `c` can only be the child of the
    /// state of `w` on `c`.
    pub proof fn lemma_extension(&self, s: int, c: char, t: int)
        requires
            self.trie(),
            self.is_state(s),
            self.is_state(t),
            self.word(t) == self.word(s).push(c),
        ensures
            self.has_child(s, c),
            self.child(s, c) == t,
            self.parent(t) == s,
            self.symbol(t) == c,
    {
        assert(self.word(t).len() > 0);
        assert(t != 0);
        let p = self.parent(t);
        lemma_push_is_injective(self.word(p), self.symbol(t), self.word(s), c);
    }

    /// A state that spells a suffix of `w` followed by `c` hangs, unless it
    /// is the root, on a state that spells a suffix of `w`, on the edge `c`.
    pub proof fn lemma_prefix_state(&self, w: Seq<char>, c: char, t: int)
        requires
            self.trie(),
            self.suffix_state(w.push(c), t),
            self.depth(t) >= 1,
        ensures
            t != 0,
            self.suffix_state(w, self.parent(t)),
            self.depth(self.parent(t)) == self.depth(t) - 1,
            self.symbol(t) == c,
            self.has_child(self.parent(t), c),
            self.child(self.parent(t), c) == t,
    {
        let p = self.parent(t);
        lemma_suffix_pop(w, c, self.word(t));
        lemma_push_is_injective(
            self.word(p),
            self.symbol(t),
            self.word(t).drop_last(),
            self.word(t).last(),
        );
    }

    /// `other` has the states of `self`, each with its word, its place in
    /// the trie and its edges.
    pub open spec fn same_trie(&self, other: &Automaton) -> bool {
        &&& other.states.len() == self.states.len()
        &&& forall|s: int| self.is_state(s) ==> #[trigger] other.word(s) == self.word(s)
        &&& forall|s: int| self.is_state(s) ==> #[trigger] other.parent(s) == self.parent(s)
        &&& forall|s: int| self.is_state(s) ==> #[trigger] other.symbol(s) == self.symbol(s)
        &&& forall|s: int| self.is_state(s) ==> #[trigger] other.edges(s) == self.edges(s)
    }

    /// An automaton with the same states, words and edges is a trie too.
    pub proof fn lemma_same_trie(&self, other: &Automaton)
        requires
            self.trie(),
            self.same_trie(other),
        ensures
            other.trie(),
    {
        assert forall|s: int, k: u32|
            other.is_state(s) && #[trigger] other.edges(s).contains_key(k) implies ({
            let t = other.edges(s)[k] as int;
            &&& 0 < t < other.states.len()
            &&& other.parent(t) == s
            &&& k == other.symbol(t) as u32
        }) by {
            assert(self.edges(s).contains_key(k));
        }
        assert forall|t: int| 0 < t < other.states.len() implies ({
            let p = #[trigger] other.parent(t);
            &&& other.is_state(p)
            &&& other.has_child(p, other.symbol(t))
            &&& other.child(p, other.symbol(t)) == t
            &&& other.word(t) == other.word(p).push(other.symbol(t))
        }) by {
            let p = self.parent(t);
            assert(self.has_child(p, self.symbol(t)));
        }
        assert forall|s: int, t: int|
            other.is_state(s) && other.is_state(t) && #[trigger] other.word(s)
                == #[trigger] other.word(t) implies s == t by {
            assert(self.word(s) == self.word(t));
        }
    }

    /// What is stated of the trie alone carries over to an automaton of the
    /// same shape.
    pub proof fn lemma_same_shape(&self, other: &Automaton)
        requires
            self.trie(),
            self.keyed(),
            self.same_shape(other),
        ensures
            other.trie(),
            other.keyed(),
            other.keys() == self.keys(),
            forall|w: Seq<char>, s: int| #[trigger]
                other.suffix_state(w, s) == self.suffix_state(w, s),
            forall|w: Seq<char>, bound: int, s: int| #[trigger]
                other.longest_suffix_state(w, bound, s) == self.longest_suffix_state(w, bound, s),
            forall|s: int|
                self.is_state(s) && self.same_links(other, s) ==> (#[trigger] other.linked(s))
                    == self.linked(s),
            forall|s: int|
                self.is_state(s) && self.same_links(other, s) ==> (#[trigger] other.fresh(s))
                    == self.fresh(s),
            forall|s: int| self.is_state(s) ==> (#[trigger] other.needed(s)) == self.needed(s),
    {
        assert(other.keys() =~= self.keys());
        self.lemma_same_trie(other);
        assert(other.keyed()) by {
            assert forall|j: int| 0 <= j < other.patterns.len() implies ({
                let t = #[trigger] other.terminals@[j];
                &&& other.is_state(t)
                &&& other.word(t) == other.patterns[j]@
                &&& other.lengths[j] == other.patterns[j]@.len()
            }) by {
                assert(self.is_state(self.terminals@[j]));
            }
        }
        assert forall|w: Seq<char>, s: int| #[trigger]
            other.suffix_state(w, s) == self.suffix_state(w, s) by {}
        assert forall|w: Seq<char>, bound: int, s: int| #[trigger]
            other.longest_suffix_state(w, bound, s) == self.longest_suffix_state(w, bound, s) by {
            if self.longest_suffix_state(w, bound, s) {
                assert forall|t: int| #[trigger]
                    other.suffix_state(w, t) && other.depth(t) <= bound implies other.depth(t)
                    <= other.depth(s) by {
                    assert(self.suffix_state(w, t));
                }
            }
            if other.longest_suffix_state(w, bound, s) {
                assert forall|t: int| #[trigger]
                    self.suffix_state(w, t) && self.depth(t) <= bound implies self.depth(t)
                    <= self.depth(s) by {
                    assert(other.suffix_state(w, t));
                }
            }
        }
    }

    /// Every beginning of a state's word is spelled by a state.
    pub proof fn lemma_ancestor(&self, t: int, k: int)
        requires
            self.trie(),
            self.is_state(t),
            0 <= k <= self.depth(t),
        ensures
            self.spells(self.word(t).take(k)),
        decreases self.depth(t),
    {
        if k == self.depth(t) {
            assert(self.word(t).take(k) =~= self.word(t));
        } else {
            let p = self.parent(t);
            assert(self.word(t) == self.word(p).push(self.symbol(t)));
            assert(self.word(t).take(k) =~= self.word(p).take(k));
            self.lemma_ancestor(p, k);
        }
    }

    /// The states of the trie are the beginnings of the patterns: the root
    /// for the empty word, and one state for each beginning of a pattern,
    /// none besides.
    pub proof fn states_are_the_beginnings(&self, w: Seq<char>)
        requires
            self.building() || self.complete(),
        ensures
            self.spells(w) <==> w.len() == 0 || exists|j: int|
                0 <= j < self.keys().len() && begins_with(#[trigger] self.keys()[j], w),
    {
        if self.spells(w) && w.len() > 0 {
            let s = choose|s: int| self.is_state(s) && #[trigger] self.word(s) == w;
            assert(self.needed(s));
            assert(begins_with(self.keys()[self.serves(s)], w));
        }
        if w.len() == 0 {
            assert(self.word(0) =~= w);
        }
        if exists|j: int| 0 <= j < self.keys().len() && begins_with(#[trigger] self.keys()[j], w) {
            let j = choose|j: int|
                0 <= j < self.keys().len() && begins_with(#[trigger] self.keys()[j], w);
            let t = self.terminals@[j];
            assert(self.word(t) == self.keys()[j]);
            self.lemma_ancestor(t, w.len() as int);
        }
    }

    /// In the finished automaton every failure link leads to a state of
    /// smaller depth (the root's to the root itself), and every state's
    /// output holds the output of the state that its failure link points to.
    pub proof fn failure_links_ascend(&self, s: int)
        requires
            self.complete(),
            self.is_state(s),
        ensures
            self.is_state(self.fail(s)),
            s == 0 ==> self.fail(s) == 0,
            s != 0 ==> self.depth(self.fail(s)) < self.depth(s),
            ends_with(self.word(s), self.word(self.fail(s))),
            forall|j: usize|
                self.states[self.fail(s)].output@.contains(j) ==> #[trigger] self.states[s].output@.contains(
                    j,
                ),
    {
        let f = self.fail(s);
        assert(self.is_linked(s));
        assert(self.linked(s));
        assert(self.is_linked(f));
        assert(self.linked(f));
        lemma_trivial_suffixes(self.word(s));
        assert forall|j: usize| self.states[f].output@.contains(j) implies #[trigger] self.states[s].output@.contains(
            j,
        ) by {
            lemma_suffix_chain(self.word(s), self.word(f), self.patterns[j as int]@);
        }
    }

    /// The child of `state` on `value`, if the trie has that edge.
    pub fn child_of(&self, state: usize, value: char) -> (next: Option<usize>)
        requires
            self.is_state(state as int),
        ensures
            next == (if self.has_child(state as int, value) {
                Some(self.edges(state as int)[value as u32])
            } else {
                None::<usize>
            }),
    {
        match self.states[state].next_states.get(&(value as u32)) {
            Some(next) => Some(*next),
            None => None,
        }
    }

    /// The children of `state` in the trie, each once, in no particular
    /// order.
    pub fn children_of(&self, state: usize) -> (children: Vec<usize>)
        requires
            self.trie(),
            self.is_state(state as int),
        ensures
            children@.no_duplicates(),
            forall|t: usize| #[trigger]
                children@.contains(t) <==> 0 < t < self.states.len() && self.parent(t as int)
                    == state,
    {
        let mut children: Vec<usize> = Vec::new();
        let edges = &self.states[state].next_states;
        let ghost pairs = spec_hash_map_iter(edges).remaining();
        for pair in it: edges.iter()
            invariant
                it.seq() == pairs,
                pairs == spec_hash_map_iter(edges).remaining(),
                pairs.no_duplicates(),
                children.len() == it.index(),
                forall|i: int| 0 <= i < children.len() ==> children[i] == *(#[trigger] pairs[i]).1,
        {
            children.push(*pair.1);
        }
        proof {
            assert(edges@ == self.edges(state as int));
            assert forall|i: int, j: int|
                0 <= i < children.len() && 0 <= j < children.len() && i != j implies children[i]
                != children[j] by {
                if children[i] == children[j] {
                    assert(edges@.contains_key(*pairs[i].0));
                    assert(edges@.contains_key(*pairs[j].0));
                    assert(pairs[i] == pairs[j]);
                }
            }
            assert forall|t: usize| #[trigger]
                children@.contains(t) <==> 0 < t < self.states.len() && self.parent(t as int)
                    == state by {
                if children@.contains(t) {
                    let i = choose|i: int| 0 <= i < children.len() && children[i] == t;
                    assert(edges@.contains_key(*pairs[i].0));
                }
                if 0 < t < self.states.len() && self.parent(t as int) == state {
                    let k = self.symbol(t as int) as u32;
                    assert(self.has_child(self.parent(t as int), self.symbol(t as int)));
                    assert(pairs.contains((&k, &edges@[k])));
                    let i = choose|i: int| 0 <= i < pairs.len() && pairs[i] == (&k, &edges@[k]);
                    assert(children[i] == t);
                }
            }
        }
        children
    }
}

} // verus!
