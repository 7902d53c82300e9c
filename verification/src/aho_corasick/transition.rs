//! The transition function of the automaton, and why a scan that follows
//! it always stands at the state of the longest suffix of what it has read.

use super::automaton::Automaton;
use super::occurrences::occurs_at;
use super::suffix::ends_with;
use super::suffix::lemma_full_suffix;
use super::suffix::lemma_occurrence_is_suffix;
use super::suffix::lemma_suffix_chain;
use super::suffix::lemma_suffix_of_suffix;
use super::suffix::lemma_suffix_push;
use super::suffix::lemma_symbol_of_scalar;
use super::suffix::lemma_trivial_suffixes;
use vstd::prelude::*;

verus! {

impl Automaton {
    /// No state spells a suffix of `w` that is more than one symbol longer
    /// than the word of `s`.
    pub open spec fn covers(&self, w: Seq<char>, s: int) -> bool {
        forall|t: int| #[trigger] self.suffix_state(w, t) ==> self.depth(t) - 1 <= self.depth(s)
    }

    /// Where the search for an edge on `value` gives up on `current` and goes
    /// on from its failure link, nothing is lost.
    pub proof fn lemma_fall_back(&self, origin: int, value: char, current: int)
        requires
            self.trie(),
            self.is_state(origin),
            self.is_state(current),
            current != 0,
            self.linked(current),
            ends_with(self.word(origin), self.word(current)),
            !self.has_child(current, value),
            self.covers(self.word(origin).push(value), current),
        ensures
            ends_with(self.word(origin), self.word(self.fail(current))),
            self.depth(self.fail(current)) < self.depth(current),
            self.covers(self.word(origin).push(value), self.fail(current)),
    {
        let f = self.fail(current);
        let target = self.word(origin).push(value);
        lemma_suffix_chain(self.word(origin), self.word(current), self.word(f));
        assert forall|t: int| #[trigger] self.suffix_state(target, t) implies self.depth(t) - 1
            <= self.depth(f) by {
            if self.depth(t) >= 1 {
                let p = self.parent(t);
                self.lemma_prefix_state(self.word(origin), value, t);
                assert(self.depth(p) <= self.depth(current));
                lemma_suffix_of_suffix(self.word(origin), self.word(p), self.word(current));
                if self.depth(p) == self.depth(current) {
                    lemma_full_suffix(self.word(current), self.word(p));
                    assert(self.word(p) == self.word(current));
                    assert(p == current);
                    assert(false);
                }
                assert(self.suffix_state(self.word(current), p));
            }
        }
    }

    /// The edge on `value` that the search finds at `current` leads to the
    /// state of the longest suffix.
    pub proof fn lemma_found(&self, origin: int, value: char, current: int)
        requires
            self.trie(),
            self.is_state(origin),
            self.is_state(current),
            ends_with(self.word(origin), self.word(current)),
            self.has_child(current, value),
            self.covers(self.word(origin).push(value), current),
        ensures
            self.longest_suffix_state(
                self.word(origin).push(value),
                self.depth(origin) + 1,
                self.child(current, value),
            ),
            self.parent(self.child(current, value)) == current,
    {
        let next = self.child(current, value);
        let target = self.word(origin).push(value);
        assert(self.edges(current).contains_key(value as u32));
        assert(self.parent(next) == current);
        lemma_symbol_of_scalar(self.symbol(next), value);
        lemma_suffix_push(self.word(origin), self.word(current), value);
        assert forall|t: int| #[trigger]
            self.suffix_state(target, t) && self.depth(t) <= self.depth(origin)
                + 1 implies self.depth(t) <= self.depth(next) by {}
    }

    /// Where not even the root has an edge on `value`, the root it is.
    pub proof fn lemma_root_absorbs(&self, origin: int, value: char)
        requires
            self.trie(),
            self.is_state(origin),
            !self.has_child(0, value),
            self.covers(self.word(origin).push(value), 0),
        ensures
            self.longest_suffix_state(self.word(origin).push(value), self.depth(origin) + 1, 0),
    {
        let target = self.word(origin).push(value);
        lemma_trivial_suffixes(target);
        assert forall|t: int| #[trigger]
            self.suffix_state(target, t) && self.depth(t) <= self.depth(origin)
                + 1 implies self.depth(t) <= self.depth(0) by {
            if self.depth(t) >= 1 {
                let p = self.parent(t);
                self.lemma_prefix_state(self.word(origin), value, t);
                assert(self.depth(p) == 0);
                assert(self.word(p) =~= self.word(0));
                assert(p == 0);
            }
        }
    }

    /// The transition of the automaton: from `state`, on `value`, to the
    /// state of the longest suffix of the word of `state` followed by `value`
    /// that the trie holds. It takes the edge of `state` if there is one and
    /// else tries the states of its failure chain in turn, down to the root,
    /// which takes every symbol.
    pub fn next_state(&self, state: usize, value: char) -> (next: usize)
        requires
            self.trie(),
            self.links_sound(),
            self.is_state(state as int),
            self.is_linked(state as int),
        ensures
            self.longest_suffix_state(
                self.word(state as int).push(value),
                self.depth(state as int) + 1,
                next as int,
            ),
            next == 0 || (self.is_linked(self.parent(next as int)) && self.depth(
                self.parent(next as int),
            ) <= self.depth(state as int)),
    {
        let mut current = state;
        proof {
            lemma_trivial_suffixes(self.word(state as int));
        }
        loop
            invariant
                self.trie(),
                self.links_sound(),
                self.is_state(state as int),
                self.is_state(current as int),
                self.is_linked(current as int),
                ends_with(self.word(state as int), self.word(current as int)),
                self.covers(self.word(state as int).push(value), current as int),
            decreases self.depth(current as int),
        {
            match self.child_of(current, value) {
                Some(next) => {
                    proof {
                        self.lemma_found(state as int, value, current as int);
                    }
                    return next;
                },
                None => {
                    if current == 0 {
                        proof {
                            self.lemma_root_absorbs(state as int, value);
                        }
                        return 0;
                    }
                    proof {
                        self.lemma_fall_back(state as int, value, current as int);
                        assert(self.falls_on_linked(current as int));
                    }
                    current = self.states[current].fail_state;
                },
            }
        }
    }

    /// Before the first symbol a scan stands at the root.
    pub proof fn lemma_scan_begins(&self, text: Seq<char>)
        requires
            self.trie(),
        ensures
            self.longest_suffix_state(text.take(0), 0, 0),
    {
        lemma_trivial_suffixes(text.take(0));
    }

    /// One step of a scan: where `state` is the state of the longest suffix
    /// of what has been read, the transition on the next symbol leads to the
    /// state of the longest suffix of what has then been read.
    pub proof fn lemma_step(&self, read: Seq<char>, state: int, value: char, next: int)
        requires
            self.trie(),
            self.longest_suffix_state(read, read.len() as int, state),
            self.longest_suffix_state(self.word(state).push(value), self.depth(state) + 1, next),
        ensures
            self.longest_suffix_state(read.push(value), read.len() as int + 1, next),
    {
        let target = read.push(value);
        lemma_suffix_push(read, self.word(state), value);
        lemma_suffix_chain(target, self.word(state).push(value), self.word(next));
        assert forall|t: int| #[trigger]
            self.suffix_state(target, t) && self.depth(t) <= read.len() + 1 implies self.depth(t)
            <= self.depth(next) by {
            if self.depth(t) >= 1 {
                let p = self.parent(t);
                self.lemma_prefix_state(read, value, t);
                assert(self.suffix_state(read, p));
                lemma_suffix_of_suffix(read, self.word(p), self.word(state));
                lemma_suffix_push(self.word(state), self.word(p), value);
                assert(self.word(t) == self.word(p).push(value));
                assert(self.suffix_state(self.word(state).push(value), t));
            }
        }
    }

    /// The output of the state that a scan has reached names exactly the
    /// patterns that end where the scan stands.
    pub proof fn lemma_output(&self, text: Seq<char>, end: int, state: int, id: usize)
        requires
            self.complete(),
            0 <= end <= text.len(),
            self.longest_suffix_state(text.take(end), end, state),
            id < self.patterns.len(),
        ensures
            self.states[state].output@.contains(id) <==> occurs_at(
                self.keys()[id as int],
                text,
                end - self.keys()[id as int].len(),
            ),
            self.states[state].output@.contains(id) ==> self.lengths[id as int] <= end,
            self.lengths[id as int] == self.keys()[id as int].len(),
    {
        let key = self.keys()[id as int];
        let read = text.take(end);
        assert(self.is_linked(state));
        assert(self.linked(state));
        lemma_occurrence_is_suffix(key, text, end);
        let t = self.terminals@[id as int];
        assert(self.word(t) == key);
        if ends_with(read, key) {
            assert(self.suffix_state(read, t));
            lemma_suffix_of_suffix(read, key, self.word(state));
        }
        if ends_with(self.word(state), key) {
            lemma_suffix_chain(read, self.word(state), key);
        }
    }
}

} // verus!
