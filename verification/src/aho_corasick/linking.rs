//! The second pass of the build: breadth first, every state gets its
//! failure link and inherits the output of the state it points to.

use super::automaton::Automaton;
use super::suffix::ends_with;
use super::suffix::lemma_full_suffix;
use super::suffix::lemma_suffix_chain;
use super::suffix::lemma_suffix_of_suffix;
use super::suffix::lemma_suffix_push;
use super::suffix::lemma_trivial_suffixes;
use std::collections::VecDeque;
use vstd::prelude::*;
use vstd::set_lib::lemma_int_range;
use vstd::set_lib::lemma_len_subset;
use vstd::set_lib::set_int_range;

verus! {

impl Automaton {
    /// The depth of the state at place `i` of `order`.
    pub open spec fn depth_at(&self, order: Seq<int>, i: int) -> int {
        self.depth(order[i])
    }

    /// What holds of the linking pass throughout: `order` lists the root and
    /// then the states in the order in which they entered the queue, by
    /// rising depth; these are the linked ones, the others are still fresh.
    pub open spec fn queued(&self, order: Seq<int>) -> bool {
        &&& self.trie()
        &&& self.keyed()
        &&& self.links_sound()
        &&& order.len() >= 1
        &&& order[0] == 0
        &&& order.no_duplicates()
        &&& forall|s: int| #[trigger] order.contains(s) ==> self.is_state(s)
        &&& forall|i: int, j: int|
            0 <= i <= j < order.len() ==> #[trigger] self.depth_at(order, i) <= #[trigger] self.depth_at(
                order,
                j,
            )
        &&& forall|s: int| self.is_state(s) ==> (#[trigger] self.is_linked(s) <==> order.contains(s))
        &&& forall|s: int| self.is_state(s) && !self.is_linked(s) ==> #[trigger] self.fresh(s)
    }

    /// The linking pass while it works on the children of `order[done]`:
    /// linked are the children of the states before it and those of its own
    /// children that are in `handled`.
    pub open spec fn linking(&self, order: Seq<int>, done: int, handled: Seq<usize>) -> bool {
        &&& self.queued(order)
        &&& 0 <= done < order.len()
        &&& forall|t: int|
            0 < t < self.states.len() ==> (#[trigger] self.is_linked(t) <==> order.take(
                done,
            ).contains(self.parent(t)) || (self.parent(t) == order[done] && handled.contains(
                t as usize,
            )))
        &&& forall|s: int| #[trigger] order.contains(s) ==> self.depth(s) <= self.depth(order[done]) + 1
    }

    /// The linking pass between two states: linked are the children of the
    /// first `done` states of `order`.
    pub open spec fn swept(&self, order: Seq<int>, done: int) -> bool {
        &&& self.queued(order)
        &&& 0 <= done <= order.len()
        &&& forall|t: int|
            0 < t < self.states.len() ==> (#[trigger] self.is_linked(t) <==> order.take(
                done,
            ).contains(self.parent(t)))
        &&& done < order.len() ==> forall|s: int| #[trigger]
            order.contains(s) ==> self.depth(s) <= self.depth(order[done]) + 1
    }

    /// The queue holds the states of `order` from place `from` on.
    pub open spec fn waiting(queue: Seq<usize>, order: Seq<int>, from: int) -> bool {
        &&& 0 <= from <= order.len()
        &&& queue.len() == order.len() - from
        &&& forall|i: int| 0 <= i < queue.len() ==> #[trigger] queue[i] as int == order[from + i]
    }

    /// Where the insertion pass ends, the linking pass can begin.
    pub proof fn lemma_begin(&self)
        requires
            self.building(),
        ensures
            self.linking(seq![0int], 0, Seq::empty()),
    {
        let order = seq![0int];
        assert(self.links_sound()) by {
            assert forall|s: int| self.is_state(s) && #[trigger] self.is_linked(s) implies self.linked(
                s,
            ) by {
                assert(self.fresh(0));
                let out = self.states[0].output@;
                assert forall|j: usize| #[trigger]
                    out.contains(j) <==> j < self.patterns.len() && ends_with(
                        self.word(0),
                        self.patterns[j as int]@,
                    ) by {
                    if j < self.patterns.len() {
                        lemma_trivial_suffixes(self.word(0));
                        if ends_with(self.word(0), self.patterns[j as int]@) {
                            assert(self.patterns[j as int]@ =~= self.word(0));
                        }
                    }
                }
            }
            assert forall|s: int| self.is_state(s) && self.is_linked(s) implies #[trigger] self.falls_on_linked(
                s,
            ) by {
                assert(self.fresh(s));
            }
        }
        assert forall|s: int| self.is_state(s) implies (#[trigger] self.is_linked(s)
            <==> order.contains(s)) by {
            assert(order[0] == 0);
        }
        assert forall|t: int| 0 < t < self.states.len() implies (#[trigger] self.is_linked(t)
            <==> order.take(0).contains(self.parent(t)) || (self.parent(t) == order[0]
            && Seq::<usize>::empty().contains(t as usize))) by {}
    }

    /// The failure link of a child of the root is the root.
    pub proof fn lemma_fail_below_root(&self, child: int)
        requires
            self.trie(),
            0 < child < self.states.len(),
            self.parent(child) == 0,
        ensures
            self.longest_suffix_state(self.word(child), self.depth(child) - 1, 0),
    {
        lemma_trivial_suffixes(self.word(child));
        assert(self.word(child) == self.word(0).push(self.symbol(child)));
    }

    /// The failure link of a child: what the transition function finds
    /// from the parent's failure link on the child's symbol.
    pub proof fn lemma_fail_of_child(&self, child: int, found: int)
        requires
            self.trie(),
            0 < child < self.states.len(),
            self.parent(child) != 0,
            self.linked(self.parent(child)),
            self.longest_suffix_state(
                self.word(self.fail(self.parent(child))).push(self.symbol(child)),
                self.depth(self.fail(self.parent(child))) + 1,
                found,
            ),
        ensures
            self.longest_suffix_state(self.word(child), self.depth(child) - 1, found),
    {
        let s = self.parent(child);
        let f = self.fail(s);
        let x = self.symbol(child);
        let target = self.word(child);
        assert(target == self.word(s).push(x));
        assert(self.suffix_state(self.word(s), f));
        lemma_suffix_push(self.word(s), self.word(f), x);
        lemma_suffix_chain(target, self.word(f).push(x), self.word(found));
        assert forall|t: int| #[trigger]
            self.suffix_state(target, t) && self.depth(t) <= self.depth(child)
                - 1 implies self.depth(t) <= self.depth(found) by {
            if self.depth(t) >= 1 {
                let p = self.parent(t);
                self.lemma_prefix_state(self.word(s), x, t);
                assert(self.suffix_state(self.word(s), p));
                lemma_suffix_of_suffix(self.word(s), self.word(p), self.word(f));
                lemma_suffix_push(self.word(f), self.word(p), x);
                assert(self.word(t) == self.word(p).push(x));
                assert(self.suffix_state(self.word(f).push(x), t));
            }
        }
    }

    /// Links `state` to `fail_state` and lets it inherit the output of that
    /// state.
    pub fn set_fail_state(&mut self, state: usize, fail_state: usize)
        requires
            old(self).trie(),
            old(self).keyed(),
            old(self).is_state(state as int),
            state != 0,
            old(self).fresh(state as int),
            old(self).is_state(fail_state as int),
            old(self).linked(fail_state as int),
            old(self).longest_suffix_state(
                old(self).word(state as int),
                old(self).depth(state as int) - 1,
                fail_state as int,
            ),
        ensures
            old(self).same_shape(final(self)),
            forall|s: int|
                old(self).is_state(s) && s != state ==> #[trigger] final(self).states[s] == old(
                    self,
                ).states[s],
            final(self).fail(state as int) == fail_state,
            final(self).is_linked(state as int),
            final(self).linked(state as int),
    {
        let ghost before = *self;
        let mut inherited = self.states[fail_state].output.clone();
        assert(inherited@ =~= before.states[fail_state as int].output@);
        self.states[state].fail_state = fail_state;
        self.states[state].output.append(&mut inherited);
        self.states[state].linked = Ghost(true);
        proof {
            let own = before.states[state as int].output@;
            let passed = before.states[fail_state as int].output@;
            let out = self.states[state as int].output@;
            let word = before.word(state as int);
            let tail = before.word(fail_state as int);
            assert(out == own + passed);
            assert(before.same_shape(self));
            before.lemma_same_shape(self);
            assert forall|j: usize| #[trigger]
                out.contains(j) <==> j < before.patterns.len() && ends_with(
                    word,
                    before.patterns[j as int]@,
                ) by {
                if out.contains(j) {
                    let i = choose|i: int| 0 <= i < out.len() && out[i] == j;
                    if i < own.len() {
                        assert(own[i] == j);
                        assert(own.contains(j));
                        lemma_trivial_suffixes(word);
                    } else {
                        assert(passed[i - own.len()] == j);
                        assert(passed.contains(j));
                        lemma_suffix_chain(word, tail, before.patterns[j as int]@);
                    }
                }
                if j < before.patterns.len() && ends_with(word, before.patterns[j as int]@) {
                    let key = before.patterns[j as int]@;
                    if key.len() == word.len() {
                        lemma_full_suffix(word, key);
                        assert(own.contains(j));
                        let i = choose|i: int| 0 <= i < own.len() && own[i] == j;
                        assert(out[i] == j);
                    } else {
                        let t = before.terminals@[j as int];
                        assert(before.suffix_state(word, t));
                        lemma_suffix_of_suffix(word, key, tail);
                        assert(passed.contains(j));
                        let i = choose|i: int| 0 <= i < passed.len() && passed[i] == j;
                        assert(out[own.len() + i] == j);
                    }
                }
            }
            assert forall|i: int, k: int| 0 <= i < out.len() && 0 <= k < out.len() && i
                != k implies out[i] != out[k] by {
                if i < own.len() && k >= own.len() {
                    assert(own.contains(out[i]));
                    assert(passed[k - own.len()] == out[k]);
                    assert(passed.contains(out[k]));
                } else if k < own.len() && i >= own.len() {
                    assert(own.contains(out[k]));
                    assert(passed[i - own.len()] == out[i]);
                    assert(passed.contains(out[i]));
                } else if i >= own.len() {
                    assert(passed[i - own.len()] == out[i]);
                    assert(passed[k - own.len()] == out[k]);
                }
            }
        }
    }

    /// A child of the state in work that has not been handled yet is not
    /// linked, and one symbol deeper than its parent.
    pub proof fn lemma_next_child(&self, order: Seq<int>, done: int, handled: Seq<usize>, child: int)
        requires
            self.linking(order, done, handled),
            0 < child < self.states.len(),
            self.parent(child) == order[done],
            !handled.contains(child as usize),
        ensures
            !self.is_linked(child),
            !order.contains(child),
            self.fresh(child),
            self.depth(child) == self.depth(order[done]) + 1,
            self.is_state(order[done]),
            self.is_linked(order[done]),
            self.linked(order[done]),
            self.is_linked(self.fail(order[done])),
            self.linked(self.fail(order[done])),
            self.is_linked(0),
            self.linked(0),
    {
        if order.take(done).contains(self.parent(child)) {
            let i = choose|i: int| 0 <= i < done && order.take(done)[i] == self.parent(child);
            assert(order[i] == order[done]);
        }
        assert(self.is_linked(child) <==> order.take(done).contains(self.parent(child)) || (
        self.parent(child) == order[done] && handled.contains(child as usize)));
        let s = order[done];
        assert(order.contains(s));
        assert(order.contains(order[0]));
        assert(self.is_linked(0));
        assert(self.is_linked(s));
        assert(self.falls_on_linked(s));
        assert(self.linked(s));
        assert(self.is_state(self.fail(s)));
        assert(self.is_linked(self.fail(s)));
        assert(self.word(child) == self.word(s).push(self.symbol(child)));
    }

    /// What the transition function finds for the state in work is linked
    /// already.
    pub proof fn lemma_found_is_linked(
        &self,
        order: Seq<int>,
        done: int,
        handled: Seq<usize>,
        found: int,
    )
        requires
            self.linking(order, done, handled),
            self.is_state(found),
            found == 0 || (self.is_linked(self.parent(found)) && self.depth(self.parent(found))
                < self.depth(order[done])),
        ensures
            self.is_linked(found),
            self.linked(found),
    {
        if found == 0 {
            assert(order.contains(order[0]));
            assert(self.is_linked(0));
        } else {
            let q = self.parent(found);
            assert(self.is_state(q));
            assert(order.contains(q));
            let i = choose|i: int| 0 <= i < order.len() && order[i] == q;
            if i >= done {
                assert(self.depth_at(order, done) <= self.depth_at(order, i));
            }
            assert(order.take(done)[i] == q);
            assert(order.take(done).contains(q));
            assert(self.is_linked(found) <==> order.take(done).contains(self.parent(found)) || (
            self.parent(found) == order[done] && handled.contains(found as usize)));
        }
    }

    /// One more child handled.
    pub proof fn lemma_link_child(
        &self,
        after: &Automaton,
        order: Seq<int>,
        done: int,
        handled: Seq<usize>,
        child: int,
    )
        requires
            self.linking(order, done, handled),
            0 < child < self.states.len(),
            self.parent(child) == order[done],
            !handled.contains(child as usize),
            self.is_linked(after.fail(child)),
            self.same_shape(after),
            forall|s: int|
                self.is_state(s) && s != child ==> #[trigger] after.states[s] == self.states[s],
            after.is_linked(child),
            after.linked(child),
        ensures
            after.linking(order.push(child), done, handled.push(child as usize)),
    {
        let longer = order.push(child);
        let more = handled.push(child as usize);
        self.lemma_next_child(order, done, handled, child);
        self.lemma_same_shape(after);
        assert forall|s: int| self.is_state(s) && s != child implies #[trigger] self.same_links(
            after,
            s,
        ) by {
            assert(after.states[s] == self.states[s]);
        }
        assert(longer.take(done) =~= order.take(done));
        assert forall|s: int| #[trigger] longer.contains(s) <==> s == child || order.contains(s) by {
            if longer.contains(s) {
                let i = choose|i: int| 0 <= i < longer.len() && longer[i] == s;
                if i < order.len() {
                    assert(order[i] == s);
                }
            }
            if order.contains(s) {
                let i = choose|i: int| 0 <= i < order.len() && order[i] == s;
                assert(longer[i] == s);
            }
            assert(longer[order.len() as int] == child);
        }
        assert forall|t: usize| #[trigger] more.contains(t) <==> t == child || handled.contains(t) by {
            if more.contains(t) {
                let i = choose|i: int| 0 <= i < more.len() && more[i] == t;
                if i < handled.len() {
                    assert(handled[i] == t);
                }
            }
            if handled.contains(t) {
                let i = choose|i: int| 0 <= i < handled.len() && handled[i] == t;
                assert(more[i] == t);
            }
            assert(more[handled.len() as int] == child as usize);
        }
        assert(after.links_sound()) by {
            assert forall|s: int| after.is_state(s) && #[trigger] after.is_linked(s) implies after.linked(
                s,
            ) by {
                if s != child {
                    assert(self.same_links(after, s));
                    assert(self.is_linked(s));
                }
            }
            assert forall|s: int| after.is_state(s) && after.is_linked(s) implies #[trigger] after.falls_on_linked(
                s,
            ) by {
                if s != child {
                    assert(self.same_links(after, s));
                    assert(self.is_linked(s));
                    assert(self.falls_on_linked(s));
                    assert(self.linked(s));
                }
                let f = after.fail(s);
                assert(self.is_linked(f));
                assert(f != child);
                assert(self.is_state(f)) by {
                    if s != child {
                        assert(self.linked(s));
                    } else {
                        assert(after.linked(child));
                    }
                }
                assert(self.same_links(after, f));
            }
        }
        assert(longer.no_duplicates()) by {
            assert(!order.contains(child));
            assert forall|i: int, j: int|
                0 <= i < longer.len() && 0 <= j < longer.len() && i != j implies longer[i]
                != longer[j] by {
                if i == order.len() {
                    assert(order[j] == longer[j]);
                } else if j == order.len() {
                    assert(order[i] == longer[i]);
                } else {
                    assert(order[i] != order[j]);
                }
            }
        }
        assert forall|i: int, j: int| 0 <= i <= j < longer.len() implies #[trigger] after.depth_at(
            longer,
            i,
        ) <= #[trigger] after.depth_at(longer, j) by {
            if j < order.len() {
                assert(self.depth_at(order, i) <= self.depth_at(order, j));
                assert(order.contains(order[i]));
                assert(order.contains(order[j]));
            } else if i < order.len() {
                assert(order.contains(order[i]));
            }
        }
        assert forall|s: int| after.is_state(s) implies (#[trigger] after.is_linked(s)
            <==> longer.contains(s)) by {
            if s != child {
                assert(self.same_links(after, s));
                assert(self.is_linked(s) <==> order.contains(s));
            }
        }
        assert forall|s: int| after.is_state(s) && !after.is_linked(s) implies #[trigger] after.fresh(
            s,
        ) by {
            assert(self.same_links(after, s));
            assert(!self.is_linked(s));
            assert(self.fresh(s));
        }
        assert forall|t: int| 0 < t < after.states.len() implies (#[trigger] after.is_linked(t)
            <==> longer.take(done).contains(after.parent(t)) || (after.parent(t) == longer[done]
            && more.contains(t as usize))) by {
            if t != child {
                assert(self.same_links(after, t));
                assert(self.is_linked(t) <==> order.take(done).contains(self.parent(t)) || (
                self.parent(t) == order[done] && handled.contains(t as usize)));
            }
        }
        assert forall|s: int| #[trigger] longer.contains(s) implies after.depth(s) <= after.depth(
            longer[done],
        ) + 1 by {
            if s != child {
                assert(order.contains(s));
            }
        }
        assert forall|s: int| #[trigger] longer.contains(s) implies after.is_state(s) by {
            if s != child {
                assert(order.contains(s));
            }
        }
    }

    /// All children of the state in work handled: on to the next state.
    pub proof fn lemma_close(&self, order: Seq<int>, done: int, children: Seq<usize>)
        requires
            self.linking(order, done, children),
            forall|t: usize|
                0 < t < self.states.len() && self.parent(t as int) == order[done]
                    ==> #[trigger] children.contains(t),
        ensures
            self.swept(order, done + 1),
    {
        let closed = order.take(done + 1);
        assert(closed =~= order.take(done).push(order[done]));
        assert forall|t: int| 0 < t < self.states.len() implies (#[trigger] self.is_linked(t)
            <==> closed.contains(self.parent(t))) by {
            assert(self.is_linked(t) <==> order.take(done).contains(self.parent(t)) || (
            self.parent(t) == order[done] && children.contains(t as usize)));
            if order.take(done).contains(self.parent(t)) {
                let i = choose|i: int| 0 <= i < done && order.take(done)[i] == self.parent(t);
                assert(closed[i] == self.parent(t));
            }
            if self.parent(t) == order[done] {
                assert(closed[done] == self.parent(t));
                assert(children.contains(t as usize));
            }
            if closed.contains(self.parent(t)) {
                let i = choose|i: int| 0 <= i < done + 1 && closed[i] == self.parent(t);
                if i < done {
                    assert(order.take(done)[i] == self.parent(t));
                }
            }
        }
        if done + 1 < order.len() {
            assert forall|s: int| #[trigger] order.contains(s) implies self.depth(s) <= self.depth(
                order[done + 1],
            ) + 1 by {
                assert(self.depth_at(order, done) <= self.depth_at(order, done + 1));
            }
        }
    }

    /// The next state in the queue comes into work.
    pub proof fn lemma_open(&self, order: Seq<int>, done: int)
        requires
            self.swept(order, done),
            done < order.len(),
        ensures
            self.linking(order, done, Seq::empty()),
            order.len() <= self.states.len(),
            self.is_state(order[done]),
            done >= 1 ==> order[done] != 0,
    {
        assert(order.contains(order[done]));
        assert forall|t: int| 0 < t < self.states.len() implies (#[trigger] self.is_linked(t)
            <==> order.take(done).contains(self.parent(t)) || (self.parent(t) == order[done]
            && Seq::<usize>::empty().contains(t as usize))) by {
            assert(self.is_linked(t) <==> order.take(done).contains(self.parent(t)));
        }
        order.unique_seq_to_set();
        lemma_int_range(0, self.states.len() as int);
        assert(order.to_set().subset_of(set_int_range(0, self.states.len() as int))) by {
            assert forall|s: int| order.to_set().contains(s) implies set_int_range(
                0,
                self.states.len() as int,
            ).contains(s) by {
                assert(order.contains(s));
            }
        }
        lemma_len_subset(order.to_set(), set_int_range(0, self.states.len() as int));
    }

    /// When the queue has run empty, every state is linked.
    pub proof fn lemma_all_linked(&self, order: Seq<int>, s: int)
        requires
            self.swept(order, order.len() as int),
            self.is_state(s),
        ensures
            self.is_linked(s),
        decreases self.depth(s),
    {
        if s == 0 {
            assert(order.contains(order[0]));
        } else {
            let p = self.parent(s);
            assert(self.word(s) == self.word(p).push(self.symbol(s)));
            self.lemma_all_linked(order, p);
            assert(order.take(order.len() as int) =~= order);
            assert(order.contains(p));
            assert(self.is_linked(s) <==> order.take(order.len() as int).contains(self.parent(s)));
        }
    }

    /// The second pass: gives every state its failure link and the output
    /// that it inherits along it. The states are visited breadth first, so
    /// that a state's link is found from links that are already in place.
    /// The trie itself stays as it is, and no output loses an entry.
    pub fn set_fail_states(&mut self)
        requires
            old(self).building(),
        ensures
            final(self).complete(),
            final(self).keys() == old(self).keys(),
            old(self).same_shape(final(self)),
            old(self).kept_in(final(self)),
    {
        let ghost before = *self;
        let mut queue: VecDeque<usize> = VecDeque::new();
        let ghost mut order: Seq<int> = seq![0int];
        proof {
            self.lemma_begin();
        }
        let roots = self.children_of(0);
        for i in 0..roots.len()
            invariant
                self.linking(order, 0, roots@.take(i as int)),
                Self::waiting(queue@, order, 1),
                before.same_shape(self),
                before.trie(),
                before.keyed(),
                roots@.no_duplicates(),
                forall|t: usize| #[trigger]
                    roots@.contains(t) <==> 0 < t < self.states.len() && self.parent(t as int) == 0,
        {
            let state = roots[i];
            let ghost handled = roots@.take(i as int);
            let ghost earlier = *self;
            proof {
                assert(roots@.contains(state));
                assert(!handled.contains(state)) by {
                    if handled.contains(state) {
                        let k = choose|k: int| 0 <= k < handled.len() && handled[k] == state;
                        assert(roots@[k] == roots@[i as int]);
                    }
                }
                self.lemma_next_child(order, 0, handled, state as int);
                self.lemma_fail_below_root(state as int);
            }
            self.set_fail_state(state, 0);
            queue.push_back(state);
            proof {
                earlier.lemma_link_child(self, order, 0, handled, state as int);
                earlier.lemma_same_shape(self);
                order = order.push(state as int);
                assert(roots@.take(i + 1) =~= handled.push(state));
            }
        }
        proof {
            assert(roots@.take(roots@.len() as int) =~= roots@);
            self.lemma_close(order, 0, roots@);
        }
        let ghost mut done: int = 1;
        while queue.len() > 0
            invariant
                self.swept(order, done),
                Self::waiting(queue@, order, done),
                before.same_shape(self),
                before.trie(),
                before.keyed(),
                done >= 1,
            decreases self.states.len() - done,
        {
            let state = queue.pop_front().unwrap();
            proof {
                self.lemma_open(order, done);
                assert(order[done] == state);
            }
            let children = self.children_of(state);
            for i in 0..children.len()
                invariant
                    self.linking(order, done, children@.take(i as int)),
                    Self::waiting(queue@, order, done + 1),
                    before.same_shape(self),
                    before.trie(),
                    before.keyed(),
                    order[done] == state,
                    state != 0,
                    done < self.states.len(),
                    children@.no_duplicates(),
                    forall|t: usize| #[trigger]
                        children@.contains(t) <==> 0 < t < self.states.len() && self.parent(
                            t as int,
                        ) == state,
            {
                let child = children[i];
                let ghost handled = children@.take(i as int);
                let ghost earlier = *self;
                proof {
                    assert(children@.contains(child));
                    assert(!handled.contains(child)) by {
                        if handled.contains(child) {
                            let k = choose|k: int| 0 <= k < handled.len() && handled[k] == child;
                            assert(children@[k] == children@[i as int]);
                        }
                    }
                    self.lemma_next_child(order, done, handled, child as int);
                }
                queue.push_back(child);
                let child_value = self.states[child].value;
                let fail_state = self.next_state(self.states[state].fail_state, child_value);
                proof {
                    self.lemma_fail_of_child(child as int, fail_state as int);
                    self.lemma_found_is_linked(order, done, handled, fail_state as int);
                }
                self.set_fail_state(child, fail_state);
                proof {
                    earlier.lemma_link_child(self, order, done, handled, child as int);
                    earlier.lemma_same_shape(self);
                    order = order.push(child as int);
                    assert(children@.take(i + 1) =~= handled.push(child));
                }
            }
            proof {
                assert(children@.take(children@.len() as int) =~= children@);
                self.lemma_close(order, done, children@);
                done = done + 1;
            }
        }
        proof {
            before.lemma_same_shape(self);
            assert forall|s: int| self.is_state(s) implies #[trigger] self.is_linked(s) by {
                self.lemma_all_linked(order, s);
            }
            assert forall|s: int, j: usize|
                before.is_state(s) && before.states[s].output@.contains(j)
                    implies #[trigger] self.states[s].output@.contains(j) by {
                assert(before.fresh(s));
                assert(self.is_linked(s));
                assert(self.linked(s));
                lemma_trivial_suffixes(self.word(s));
            }
            assert forall|s: int| before.is_state(s) implies before.edges(s).submap_of(
                #[trigger] self.edges(s),
            ) by {}
        }
    }
}

} // verus!
