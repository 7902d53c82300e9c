//! The first pass of the build: the patterns enter the trie.

use super::automaton::Automaton;
use super::automaton::State;
use super::suffix::begins_with;
use super::suffix::lemma_symbol_of_scalar;
use std::collections::HashMap;
use vstd::prelude::*;

verus! {

impl Automaton {
    /// State `s` is needed, or it was made for `pattern`, which has no
    /// number yet.
    pub open spec fn placed(&self, s: int, pattern: Seq<char>) -> bool {
        self.needed(s) || (self.serves(s) == self.patterns.len() && begins_with(
            pattern,
            self.word(s),
        ))
    }

    /// The invariant while `pattern` enters the trie: that of the insertion
    /// pass, but for the states that were made for `pattern`.
    pub open spec fn entering(&self, pattern: Seq<char>) -> bool {
        &&& self.trie()
        &&& self.keyed()
        &&& forall|s: int| self.is_state(s) ==> #[trigger] self.fresh(s)
        &&& forall|s: int| self.is_state(s) ==> (#[trigger] self.is_linked(s) <==> s == 0)
        &&& forall|s: int| self.is_state(s) ==> #[trigger] self.placed(s, pattern)
    }

    /// Whatever `self` holds, `after` holds too: every state with its word
    /// and its place in the trie, every edge, every entry of every output.
    pub open spec fn kept_in(&self, after: &Automaton) -> bool {
        &&& after.states.len() >= self.states.len()
        &&& forall|s: int| self.is_state(s) ==> #[trigger] after.word(s) == self.word(s)
        &&& forall|s: int| self.is_state(s) ==> #[trigger] after.parent(s) == self.parent(s)
        &&& forall|s: int| self.is_state(s) ==> #[trigger] after.symbol(s) == self.symbol(s)
        &&& forall|s: int| self.is_state(s) ==> self.edges(s).submap_of(#[trigger] after.edges(s))
        &&& forall|s: int, j: usize|
            self.is_state(s) && self.states[s].output@.contains(j)
                ==> #[trigger] after.states[s].output@.contains(j)
    }

    /// What `after` holds beyond `self` are the states that the path of
    /// `pattern` lacked in `self`, one for each symbol behind the longest
    /// beginning of `pattern` that `self` spells, in the order of the path.
    pub open spec fn path_added(&self, after: &Automaton, pattern: Seq<char>) -> bool {
        let created = after.states.len() - self.states.len();
        let shared = pattern.len() - created;
        &&& 0 <= created <= pattern.len()
        &&& self.spells(pattern.take(shared))
        &&& created > 0 ==> !self.spells(pattern.take(shared + 1))
        &&& forall|j: int|
            0 <= j < created ==> #[trigger] after.word(self.states.len() + j) == pattern.take(
                shared + 1 + j,
            )
    }

    /// `after` is `self` with one more state, which hangs on `state` on the
    /// edge `value` and is made for the pattern that gets the next number.
    pub open spec fn grown_into(&self, after: &Automaton, state: int, value: char) -> bool {
        let next = self.states.len() as int;
        &&& after.states.len() == next + 1
        &&& after.patterns == self.patterns
        &&& after.lengths == self.lengths
        &&& after.terminals == self.terminals
        &&& forall|s: int| self.is_state(s) && s != state ==> #[trigger] after.states[s] == self.states[s]
        &&& after.word(state) == self.word(state)
        &&& after.parent(state) == self.parent(state)
        &&& after.symbol(state) == self.symbol(state)
        &&& after.serves(state) == self.serves(state)
        &&& after.fail(state) == self.fail(state)
        &&& after.is_linked(state) == self.is_linked(state)
        &&& after.states[state].output@ == self.states[state].output@
        &&& after.edges(state) == self.edges(state).insert(value as u32, next as usize)
        &&& after.word(next) == self.word(state).push(value)
        &&& after.parent(next) == state
        &&& after.symbol(next) == value
        &&& after.serves(next) == self.patterns.len()
        &&& after.fail(next) == 0
        &&& !after.is_linked(next)
        &&& after.states[next].output@ == Seq::<usize>::empty()
        &&& after.edges(next) == Map::<u32, usize>::empty()
    }

    /// `after` is `self` with `pattern` as one more pattern, which ends at
    /// `state`.
    pub open spec fn marked_into(&self, after: &Automaton, state: int, pattern: Seq<char>) -> bool {
        let id = self.patterns.len() as int;
        &&& self.same_trie(after)
        &&& forall|s: int| self.is_state(s) ==> #[trigger] after.serves(s) == self.serves(s)
        &&& forall|s: int| self.is_state(s) ==> #[trigger] after.fail(s) == self.fail(s)
        &&& forall|s: int| self.is_state(s) ==> #[trigger] after.is_linked(s) == self.is_linked(s)
        &&& forall|s: int|
            self.is_state(s) && s != state ==> (#[trigger] after.states[s]).output@
                == self.states[s].output@
        &&& after.states[state].output@ == self.states[state].output@.push(id as usize)
        &&& after.patterns@.len() == id + 1
        &&& forall|j: int| 0 <= j < id ==> #[trigger] after.patterns[j] == self.patterns[j]
        &&& after.patterns[id]@ == pattern
        &&& after.lengths@.len() == id + 1
        &&& forall|j: int| 0 <= j < id ==> #[trigger] after.lengths[j] == self.lengths[j]
        &&& after.lengths[id] == pattern.len()
        &&& after.terminals@ == self.terminals@.push(state)
    }

    /// Keeping is transitive.
    pub proof fn lemma_kept_on(&self, middle: &Automaton, after: &Automaton)
        requires
            self.kept_in(middle),
            middle.kept_in(after),
        ensures
            self.kept_in(after),
    {
        assert forall|s: int| self.is_state(s) implies self.edges(s).submap_of(
            #[trigger] after.edges(s),
        ) by {
            let first = self.edges(s);
            let second = middle.edges(s);
            let third = after.edges(s);
            assert(first.submap_of(second));
            assert(second.submap_of(third));
            assert forall|k: u32| #[trigger] first.dom().contains(k) implies third.dom().contains(
                k,
            ) && first[k] == third[k] by {
                assert(second.dom().contains(k));
            }
        }
        assert forall|s: int, j: usize|
            self.is_state(s) && self.states[s].output@.contains(j)
                implies #[trigger] after.states[s].output@.contains(j) by {
            assert(middle.states[s].output@.contains(j));
        }
        assert forall|s: int| self.is_state(s) implies #[trigger] after.word(s) == self.word(s) by {
            assert(middle.word(s) == self.word(s));
        }
        assert forall|s: int| self.is_state(s) implies #[trigger] after.parent(s) == self.parent(
            s,
        ) by {
            assert(middle.parent(s) == self.parent(s));
        }
        assert forall|s: int| self.is_state(s) implies #[trigger] after.symbol(s) == self.symbol(
            s,
        ) by {
            assert(middle.symbol(s) == self.symbol(s));
        }
    }

    /// A state that `state` has no edge to is spelled by no state.
    pub proof fn lemma_not_spelled(&self, state: int, value: char)
        requires
            self.trie(),
            self.is_state(state),
            !self.has_child(state, value),
        ensures
            !self.spells(self.word(state).push(value)),
    {
        if self.spells(self.word(state).push(value)) {
            let t = choose|t: int|
                self.is_state(t) && #[trigger] self.word(t) == self.word(state).push(value);
            self.lemma_extension(state, value, t);
        }
    }

    /// Hanging a new state on the path of the pattern that enters keeps the
    /// invariant of the pass and everything that was there.
    pub proof fn lemma_grown(&self, after: &Automaton, state: int, value: char, pattern: Seq<char>)
        requires
            self.entering(pattern),
            self.is_state(state),
            !self.has_child(state, value),
            self.grown_into(after, state, value),
            begins_with(pattern, self.word(state).push(value)),
        ensures
            after.entering(pattern),
            self.kept_in(after),
    {
        let next = self.states.len() as int;
        let word = self.word(state).push(value);
        self.lemma_not_spelled(state, value);
        assert forall|s: int| self.is_state(s) implies after.word(s) == self.word(s)
            && after.parent(s) == self.parent(s) && after.symbol(s) == self.symbol(s)
            && after.serves(s) == self.serves(s) && after.states[s].output@
            == self.states[s].output@ && after.fail(s) == self.fail(s) && after.is_linked(s)
            == self.is_linked(s) && (s != state ==> after.edges(s) == self.edges(s)) by {
            if s != state {
                assert(after.states[s] == self.states[s]);
            }
        }
        assert forall|t: int| self.is_state(t) implies self.word(t) != word by {}
        assert(after.trie()) by {
            assert forall|s: int, k: u32|
                after.is_state(s) && #[trigger] after.edges(s).contains_key(k) implies ({
                let t = after.edges(s)[k] as int;
                &&& 0 < t < after.states.len()
                &&& after.parent(t) == s
                &&& k == after.symbol(t) as u32
            }) by {
                if s == state && k == value as u32 {
                } else {
                    assert(self.edges(s).contains_key(k));
                }
            }
            assert forall|t: int| 0 < t < after.states.len() implies ({
                let p = #[trigger] after.parent(t);
                &&& after.is_state(p)
                &&& after.has_child(p, after.symbol(t))
                &&& after.child(p, after.symbol(t)) == t
                &&& after.word(t) == after.word(p).push(after.symbol(t))
            }) by {
                if t < next {
                    let p = self.parent(t);
                    assert(self.has_child(p, self.symbol(t)));
                }
            }
            assert forall|s: int, t: int|
                after.is_state(s) && after.is_state(t) && #[trigger] after.word(s)
                    == #[trigger] after.word(t) implies s == t by {
                if s < next && t < next {
                    assert(self.word(s) == self.word(t));
                } else if s < next {
                    assert(self.word(s) != word);
                } else if t < next {
                    assert(self.word(t) != word);
                }
            }
        }
        assert(after.keyed()) by {
            assert forall|j: int| 0 <= j < after.patterns.len() implies ({
                let t = #[trigger] after.terminals@[j];
                &&& after.is_state(t)
                &&& after.word(t) == after.patterns[j]@
                &&& after.lengths[j] == after.patterns[j]@.len()
            }) by {
                assert(self.is_state(self.terminals@[j]));
            }
        }
        assert forall|s: int| after.is_state(s) implies (#[trigger] after.is_linked(s) <==> s
            == 0) by {
            if s < next {
                assert(self.is_linked(s) <==> s == 0);
            }
        }
        assert forall|s: int| after.is_state(s) implies #[trigger] after.fresh(s) by {
            if s < next {
                assert(self.fresh(s));
            } else {
                assert forall|j: usize| #[trigger]
                    after.states[s].output@.contains(j) <==> j < after.patterns.len()
                        && after.patterns[j as int]@ == after.word(s) by {
                    if j < after.patterns.len() && after.patterns[j as int]@ == after.word(s) {
                        assert(self.is_state(self.terminals@[j as int]));
                    }
                }
            }
        }
        assert forall|s: int| after.is_state(s) implies #[trigger] after.placed(s, pattern) by {
            if s < next {
                assert(self.placed(s, pattern));
            }
        }
        assert forall|s: int| self.is_state(s) implies self.edges(s).submap_of(
            #[trigger] after.edges(s),
        ) by {}
    }

    /// Giving the pattern that has entered its number, where it is a new
    /// one, completes the step.
    pub proof fn lemma_marked(&self, after: &Automaton, state: int, pattern: Seq<char>)
        requires
            self.entering(pattern),
            self.is_state(state),
            self.word(state) == pattern,
            self.states[state].output@.len() == 0,
            self.marked_into(after, state, pattern),
        ensures
            after.building(),
            self.kept_in(after),
            !self.keys().contains(pattern),
            after.keys() == self.keys().push(pattern),
    {
        let id = self.patterns.len() as int;
        assert(after.keys() =~= self.keys().push(pattern));
        assert(self.fresh(state));
        assert(!self.keys().contains(pattern)) by {
            if self.keys().contains(pattern) {
                let j = choose|j: int| 0 <= j < self.keys().len() && self.keys()[j] == pattern;
                assert(self.states[state].output@.contains(j as usize));
            }
        }
        self.lemma_same_trie(after);
        assert(after.keyed()) by {
            assert forall|j: int| 0 <= j < after.patterns.len() implies ({
                let t = #[trigger] after.terminals@[j];
                &&& after.is_state(t)
                &&& after.word(t) == after.patterns[j]@
                &&& after.lengths[j] == after.patterns[j]@.len()
            }) by {
                if j < id {
                    assert(self.is_state(self.terminals@[j]));
                    assert(after.patterns[j] == self.patterns[j]);
                }
            }
            assert forall|i: int, j: int|
                0 <= i < j < after.patterns.len() implies after.patterns[i]@
                != after.patterns[j]@ by {
                assert(after.patterns[i] == self.patterns[i]);
                if j == id {
                    assert(self.keys()[i] == self.patterns[i]@);
                } else {
                    assert(after.patterns[j] == self.patterns[j]);
                }
            }
        }
        assert forall|s: int| after.is_state(s) implies (#[trigger] after.is_linked(s) <==> s
            == 0) by {
            assert(self.is_linked(s) <==> s == 0);
        }
        assert forall|s: int| after.is_state(s) implies #[trigger] after.fresh(s) by {
            assert(self.fresh(s));
            let out = after.states[s].output@;
            if s == state {
                assert(out =~= seq![id as usize]);
                assert forall|j: usize| #[trigger]
                    out.contains(j) <==> j < after.patterns.len() && after.patterns[j as int]@
                        == after.word(s) by {
                    if j < id {
                        assert(after.patterns[j as int] == self.patterns[j as int]);
                        if after.patterns[j as int]@ == after.word(s) {
                            assert(self.keys()[j as int] == pattern);
                        }
                    }
                    if j == id {
                        assert(out[0] == j);
                    }
                }
            } else {
                assert forall|j: usize| #[trigger]
                    out.contains(j) <==> j < after.patterns.len() && after.patterns[j as int]@
                        == after.word(s) by {
                    if j < id {
                        assert(after.patterns[j as int] == self.patterns[j as int]);
                        assert(self.states[s].output@.contains(j) <==> self.patterns[j as int]@
                            == self.word(s));
                    }
                }
            }
        }
        assert forall|s: int| after.is_state(s) implies #[trigger] after.needed(s) by {
            assert(self.placed(s, pattern));
            if s != 0 && self.needed(s) {
                assert(after.patterns[self.serves(s)] == self.patterns[self.serves(s)]);
            }
        }
        assert forall|s: int, j: usize|
            self.is_state(s) && self.states[s].output@.contains(j)
                implies #[trigger] after.states[s].output@.contains(j) by {
            if s == state {
                let k = choose|k: int|
                    0 <= k < self.states[s].output@.len() && self.states[s].output@[k] == j;
                assert(after.states[s].output@[k] == j);
            }
        }
        assert forall|s: int| self.is_state(s) implies self.edges(s).submap_of(
            #[trigger] after.edges(s),
        ) by {}
    }

    /// The automaton without any pattern: a lone root.
    pub fn empty() -> (automaton: Automaton)
        ensures
            automaton.building(),
            automaton.states.len() == 1,
            automaton.keys() == Seq::<Seq<char>>::empty(),
    {
        let root = State {
            value: '\0',
            fail_state: 0,
            next_states: HashMap::new(),
            output: Vec::new(),
            word: Ghost(Seq::empty()),
            parent: Ghost(0),
            linked: Ghost(true),
            serves: Ghost(0),
        };
        let mut states: Vec<State> = Vec::new();
        states.push(root);
        let automaton = Automaton {
            states,
            patterns: Vec::new(),
            lengths: Vec::new(),
            terminals: Ghost(Seq::empty()),
        };
        assert(automaton.keys() =~= Seq::<Seq<char>>::empty());
        automaton
    }

    /// Hangs a new state on `state`, on the edge `value`.
    fn grow(&mut self, state: usize, value: char) -> (next: usize)
        requires
            old(self).is_state(state as int),
        ensures
            next == old(self).states.len(),
            old(self).grown_into(final(self), state as int, value),
    {
        let next = self.states.len();
        let ghost word = self.word(state as int).push(value);
        let ghost serves = self.patterns.len() as int;
        self.states.push(
            State {
                value,
                fail_state: 0,
                next_states: HashMap::new(),
                output: Vec::new(),
                word: Ghost(word),
                parent: Ghost(state as int),
                linked: Ghost(false),
                serves: Ghost(serves),
            },
        );
        self.states[state].next_states.insert(value as u32, next);
        next
    }

    /// Enters `pattern` into the trie: walks its path from the root and
    /// creates the states that the path still lacks, each on the one before
    /// it; at the end of the path the pattern gets the next number, unless
    /// it has one already. What was in the trie stays; a pattern that is
    /// already there changes nothing at all.
    pub fn add_pattern(&mut self, pattern: String)
        requires
            old(self).building(),
        ensures
            final(self).building(),
            final(self).keys() == (if old(self).keys().contains(pattern@) {
                old(self).keys()
            } else {
                old(self).keys().push(pattern@)
            }),
            old(self).kept_in(final(self)),
            old(self).keys().contains(pattern@) ==> *final(self) == *old(self),
            old(self).path_added(final(self), pattern@),
    {
        let length = pattern.as_str().unicode_len();
        let ghost before = *self;
        let ghost base = self.states.len() as int;
        let mut state: usize = 0;
        proof {
            assert(pattern@.take(0) =~= before.word(0));
            assert forall|s: int| self.is_state(s) implies #[trigger] self.placed(s, pattern@) by {
                assert(self.needed(s));
            }
            assert forall|s: int| before.is_state(s) implies before.edges(s).submap_of(
                #[trigger] self.edges(s),
            ) by {}
        }
        for value in it: pattern.as_str().chars()
            invariant
                it.seq() == pattern@,
                before.building(),
                base == before.states.len(),
                self.entering(pattern@),
                self.patterns == before.patterns,
                self.lengths == before.lengths,
                self.terminals == before.terminals,
                self.is_state(state as int),
                self.word(state as int) == pattern@.take(it.index() as int),
                before.kept_in(self),
                self.states.len() - base <= it.index(),
                self.states.len() == base ==> *self == before,
                self.states.len() > base ==> state == self.states.len() - 1 && self.edges(
                    state as int,
                ) == Map::<u32, usize>::empty(),
                forall|j: int|
                    0 <= j < self.states.len() - base ==> #[trigger] self.word(base + j)
                        == pattern@.take(it.index() - (self.states.len() - base) + 1 + j),
                before.spells(pattern@.take(it.index() - (self.states.len() - base))),
                self.states.len() > base ==> !before.spells(
                    pattern@.take(it.index() - (self.states.len() - base) + 1),
                ),
                before.keys().contains(pattern@) ==> self.states.len() == base,
        {
            let ghost read = it.index() as int;
            proof {
                assert(pattern@.take(read + 1) =~= pattern@.take(read).push(value));
                assert(pattern@.take(read + 1) =~= pattern@.subrange(0, read + 1));
            }
            match self.child_of(state, value) {
                Some(next) => {
                    proof {
                        assert(self.parent(next as int) == state);
                        lemma_symbol_of_scalar(self.symbol(next as int), value);
                    }
                    state = next;
                },
                None => {
                    let ghost earlier = *self;
                    let ghost from = state as int;
                    state = self.grow(state, value);
                    proof {
                        earlier.lemma_grown(self, from, value, pattern@);
                        before.lemma_kept_on(&earlier, self);
                        if earlier.states.len() == base {
                            before.lemma_not_spelled(from, value);
                            if before.keys().contains(pattern@) {
                                let j = choose|j: int|
                                    0 <= j < before.keys().len() && before.keys()[j] == pattern@;
                                before.lemma_ancestor(before.terminals@[j], read + 1);
                            }
                        }
                        assert forall|j: int|
                            0 <= j < self.states.len() - base implies #[trigger] self.word(
                            base + j,
                        ) == pattern@.take(read + 1 - (self.states.len() - base) + 1 + j) by {
                            if base + j < earlier.states.len() {
                                assert(earlier.word(base + j) == pattern@.take(
                                    read - (earlier.states.len() - base) + 1 + j,
                                ));
                            }
                        }
                    }
                },
            }
        }
        proof {
            assert(pattern@.take(pattern@.len() as int) =~= pattern@);
            assert(self.keys() =~= before.keys());
            assert(self.fresh(state as int));
        }
        if self.states[state].output.len() == 0 {
            let ghost grown = *self;
            let id = self.patterns.len();
            self.states[state].output.push(id);
            self.patterns.push(pattern);
            self.lengths.push(length);
            self.terminals = Ghost(self.terminals@.push(state as int));
            proof {
                grown.lemma_marked(self, state as int, pattern@);
                before.lemma_kept_on(&grown, self);
                assert forall|j: int| 0 <= j < self.states.len() - base implies #[trigger] self.word(
                    base + j,
                ) == pattern@.take(pattern@.len() - (self.states.len() - base) + 1 + j) by {
                    assert(grown.word(base + j) == self.word(base + j));
                }
            }
        } else {
            proof {
                let j = self.states[state as int].output@[0];
                assert(self.states[state as int].output@.contains(j));
                assert(before.keys()[j as int] == pattern@);
                assert forall|s: int| self.is_state(s) implies #[trigger] self.needed(s) by {
                    assert(before.needed(s));
                }
            }
        }
    }
}

} // verus!
