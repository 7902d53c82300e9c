//! Multi-pattern string matching with an Aho-Corasick automaton.
//!
//! A [`PatternFinder`] is built once from a list of patterns and then finds,
//! in one pass over a text, every occurrence of every pattern, overlapping
//! and nested ones included. What it reports is stated in [`occurrences`].

mod automaton;
mod insertion;
mod linking;
pub mod occurrences;
mod suffix;
mod transition;

use automaton::Automaton;
use occurrences::distinct;
use occurrences::offsets_before;
use occurrences::report;
use vstd::prelude::*;

verus! {

/// A set of patterns, compiled for searching.
///
/// Its view is the list of the distinct patterns in the order in which they
/// were first given; the entries of a search result come in that order.
pub struct PatternFinder {
    automaton: Automaton,
}

impl View for PatternFinder {
    type V = Seq<Seq<char>>;

    closed spec fn view(&self) -> Seq<Seq<char>> {
        self.automaton.keys()
    }
}

impl PatternFinder {
    #[verifier::type_invariant]
    spec fn well_formed(&self) -> bool {
        self.automaton.complete()
    }

    /// Builds the finder for `patterns`. Any string is a pattern, the empty
    /// one too; a pattern that is given more than once counts once.
    pub fn new(patterns: Vec<String>) -> (finder: PatternFinder)
        ensures
            finder@ == distinct(patterns.deep_view()),
    {
        let mut automaton = Automaton::empty();
        let ghost given = patterns.deep_view();
        assert(given.take(0) =~= Seq::<Seq<char>>::empty());
        for i in 0..patterns.len()
            invariant
                given == patterns.deep_view(),
                automaton.building(),
                automaton.keys() == distinct(given.take(i as int)),
        {
            proof {
                assert(given.take(i + 1).drop_last() =~= given.take(i as int));
                assert(given.take(i + 1).last() == patterns[i as int]@);
            }
            automaton.add_pattern(patterns[i].clone());
        }
        assert(given.take(patterns.len() as int) =~= given);
        automaton.set_fail_states();
        PatternFinder { automaton }
    }

    /// Searches `text` for the patterns of this finder.
    ///
    /// The result has one entry for each pattern that occurs: the pattern
    /// and the start offsets of its occurrences in ascending order. Offsets
    /// count symbols (`char`s), not bytes.
    pub fn find_patterns(&self, text: &String) -> (found: Vec<(String, Vec<usize>)>)
        ensures
            found.deep_view() == report(self@, text@),
    {
        proof {
            use_type_invariant(self);
        }
        let automaton = &self.automaton;
        let count = automaton.patterns.len();
        let total = text.as_str().unicode_len();
        let ghost keys = automaton.keys();
        let mut hits: Vec<Vec<usize>> = Vec::new();
        for id in 0..count
            invariant
                hits.len() == id,
                forall|j: int| 0 <= j < id ==> (#[trigger] hits[j])@ == Seq::<usize>::empty(),
        {
            hits.push(Vec::new());
        }
        let mut state: usize = 0;
        let mut position: usize = 0;
        proof {
            automaton.lemma_scan_begins(text@);
        }
        for value in it: text.as_str().chars()
            invariant
                it.seq() == text@,
                total == text@.len(),
                position == it.index(),
                automaton.complete(),
                keys == automaton.keys(),
                count == automaton.patterns.len(),
                hits.len() == count,
                automaton.longest_suffix_state(text@.take(position as int), position as int, state as int),
                forall|id: int|
                    0 <= id < count ==> (#[trigger] hits[id])@ == offsets_before(
                        keys[id],
                        text@,
                        position as nat,
                    ),
        {
            let ghost read = text@.take(position as int);
            assert(automaton.is_linked(state as int));
            let next = automaton.next_state(state, value);
            let end = position + 1;
            proof {
                automaton.lemma_step(read, state as int, value, next as int);
                assert(text@.take(end as int) =~= read.push(value));
                assert(automaton.is_linked(next as int));
                assert(automaton.linked(next as int));
            }
            let ghost earlier = hits@;
            let ghost out = automaton.states[next as int].output@;
            let emitted = automaton.states[next].output.len();
            for k in 0..emitted
                invariant
                    emitted == out.len(),
                    automaton.complete(),
                    keys == automaton.keys(),
                    count == automaton.patterns.len(),
                    hits.len() == count,
                    automaton.is_state(next as int),
                    out == automaton.states[next as int].output@,
                    out.no_duplicates(),
                    end == position + 1,
                    end <= text@.len(),
                    automaton.longest_suffix_state(text@.take(end as int), end as int, next as int),
                    earlier.len() == count,
                    forall|id: int|
                        0 <= id < count ==> (#[trigger] earlier[id])@ == offsets_before(
                            keys[id],
                            text@,
                            position as nat,
                        ),
                    forall|id: int|
                        0 <= id < count ==> (#[trigger] hits[id])@ == (if out.take(k as int).contains(
                            id as usize,
                        ) {
                            earlier[id]@.push((end - keys[id].len()) as usize)
                        } else {
                            earlier[id]@
                        }),
            {
                let id = automaton.states[next].output[k];
                proof {
                    assert(out.contains(id));
                    assert(automaton.is_linked(next as int));
                    assert(automaton.linked(next as int));
                    automaton.lemma_output(text@, end as int, next as int, id);
                    let shorter = out.take(k as int);
                    assert(!shorter.contains(id)) by {
                        if shorter.contains(id) {
                            let m = choose|m: int| 0 <= m < shorter.len() && shorter[m] == id;
                            assert(out[m] == out[k as int]);
                        }
                    }
                }
                let start = end - automaton.lengths[id];
                let ghost previous = hits@;
                hits[id].push(start);
                proof {
                    let shorter = out.take(k as int);
                    let longer = out.take(k + 1);
                    assert(longer =~= shorter.push(id));
                    assert forall|other: int| 0 <= other < count implies (#[trigger] hits[other])@ == (
                    if longer.contains(other as usize) {
                        earlier[other]@.push((end - keys[other].len()) as usize)
                    } else {
                        earlier[other]@
                    }) by {
                        assert(previous[other]@ == (if shorter.contains(other as usize) {
                            earlier[other]@.push((end - keys[other].len()) as usize)
                        } else {
                            earlier[other]@
                        }));
                        if other == id {
                            assert(longer[k as int] == id);
                        } else {
                            if longer.contains(other as usize) {
                                let m = choose|m: int|
                                    0 <= m < longer.len() && longer[m] == other as usize;
                                assert(shorter[m] == other as usize);
                            }
                            if shorter.contains(other as usize) {
                                let m = choose|m: int|
                                    0 <= m < shorter.len() && shorter[m] == other as usize;
                                assert(longer[m] == other as usize);
                            }
                        }
                    }
                }
            }
            proof {
                assert(out.take(out.len() as int) =~= out);
                assert forall|id: int| 0 <= id < count implies (#[trigger] hits[id])@ == offsets_before(
                    keys[id],
                    text@,
                    end as nat,
                ) by {
                    automaton.lemma_output(text@, end as int, next as int, id as usize);
                }
            }
            state = next;
            position = end;
        }
        let mut found: Vec<(String, Vec<usize>)> = Vec::new();
        assert(keys.take(0) =~= Seq::<Seq<char>>::empty());
        for id in 0..count
            invariant
                keys == automaton.keys(),
                count == automaton.patterns.len(),
                hits.len() == count,
                position == text@.len(),
                forall|j: int|
                    0 <= j < count ==> (#[trigger] hits[j])@ == offsets_before(
                        keys[j],
                        text@,
                        position as nat,
                    ),
                found.deep_view() == report(keys.take(id as int), text@),
        {
            proof {
                assert(keys.take(id + 1).drop_last() =~= keys.take(id as int));
                assert(keys.take(id + 1).last() == keys[id as int]);
            }
            if hits[id].len() > 0 {
                let ghost so_far = found.deep_view();
                let pattern = automaton.patterns[id].clone();
                let offsets = hits[id].clone();
                proof {
                    assert(offsets@ =~= hits[id as int]@);
                    assert(offsets.deep_view() =~= offsets@);
                }
                found.push((pattern, offsets));
                proof {
                    assert(found.deep_view() =~= so_far.push((keys[id as int], hits[id as int]@)));
                }
            }
        }
        assert(keys.take(count as int) =~= keys);
        found
    }
}

/// Two finders for the same patterns give the same result on the same text.
pub proof fn search_is_deterministic(
    first: PatternFinder,
    second: PatternFinder,
    patterns: Seq<Seq<char>>,
    text: Seq<char>,
    found_first: Seq<(Seq<char>, Seq<usize>)>,
    found_second: Seq<(Seq<char>, Seq<usize>)>,
)
    requires
        first@ == distinct(patterns),
        second@ == distinct(patterns),
        found_first == report(first@, text),
        found_second == report(second@, text),
    ensures
        found_first == found_second,
        found_first == occurrences::matches(patterns, text),
{
}

} // verus!
