//! What a multi-pattern search has to report, stated without any automaton.
//!
//! Texts and patterns are sequences of `char`; every offset and every length
//! counts symbols, never bytes.

use vstd::prelude::*;

verus! {

/// `pattern` stands in `text` with its first symbol at index `start`.
pub open spec fn occurs_at(pattern: Seq<char>, text: Seq<char>, start: int) -> bool {
    &&& 0 <= start
    &&& start + pattern.len() <= text.len()
    &&& text.subrange(start, start + pattern.len()) == pattern
}

/// The start offsets, in ascending order, of the occurrences of `pattern` that
/// end with one of the first `end` symbols of `text`.
pub open spec fn offsets_before(pattern: Seq<char>, text: Seq<char>, end: nat) -> Seq<usize>
    decreases end,
{
    if end == 0 {
        Seq::empty()
    } else {
        let earlier = offsets_before(pattern, text, (end - 1) as nat);
        if occurs_at(pattern, text, end - pattern.len()) {
            earlier.push((end - pattern.len()) as usize)
        } else {
            earlier
        }
    }
}

/// The start offsets, in ascending order, of the occurrences of `pattern` in
/// `text` that end with a symbol of the text.
///
/// For a non-empty pattern these are all its occurrences. The empty pattern
/// is found after every symbol, so at `1, 2, .., text.len()`, and not before
/// the first one.
pub open spec fn offsets(pattern: Seq<char>, text: Seq<char>) -> Seq<usize> {
    offsets_before(pattern, text, text.len())
}

/// `patterns` without repetitions: each pattern once, at the place of its
/// first appearance.
pub open spec fn distinct(patterns: Seq<Seq<char>>) -> Seq<Seq<char>>
    decreases patterns.len(),
{
    if patterns.len() == 0 {
        Seq::empty()
    } else {
        let earlier = distinct(patterns.drop_last());
        if earlier.contains(patterns.last()) {
            earlier
        } else {
            earlier.push(patterns.last())
        }
    }
}

/// One entry for each of `keys` that occurs in `text`, in the order of
/// `keys`: the key and its offsets.
pub open spec fn report(keys: Seq<Seq<char>>, text: Seq<char>) -> Seq<(Seq<char>, Seq<usize>)>
    decreases keys.len(),
{
    if keys.len() == 0 {
        Seq::empty()
    } else {
        let earlier = report(keys.drop_last(), text);
        let found = offsets(keys.last(), text);
        if found.len() == 0 {
            earlier
        } else {
            earlier.push((keys.last(), found))
        }
    }
}

/// The result of searching `text` for `patterns`.
pub open spec fn matches(patterns: Seq<Seq<char>>, text: Seq<char>) -> Seq<(Seq<char>, Seq<usize>)> {
    report(distinct(patterns), text)
}

proof fn lemma_offsets_before(pattern: Seq<char>, text: Seq<char>, end: nat)
    requires
        end <= text.len() <= usize::MAX,
    ensures
        forall|k: int|
            0 <= k < offsets_before(pattern, text, end).len() ==> {
                let start = #[trigger] offsets_before(pattern, text, end)[k];
                occurs_at(pattern, text, start as int) && 1 <= start + pattern.len() <= end
            },
        forall|start: int|
            occurs_at(pattern, text, start) && 1 <= start + pattern.len() <= end
                ==> #[trigger] offsets_before(pattern, text, end).contains(start as usize),
        forall|i: int, j: int|
            0 <= i < j < offsets_before(pattern, text, end).len() ==> offsets_before(
                pattern,
                text,
                end,
            )[i] < offsets_before(pattern, text, end)[j],
    decreases end,
{
    if end > 0 {
        let earlier = offsets_before(pattern, text, (end - 1) as nat);
        let all = offsets_before(pattern, text, end);
        lemma_offsets_before(pattern, text, (end - 1) as nat);
        assert forall|start: int|
            occurs_at(pattern, text, start) && 1 <= start + pattern.len() <= end implies #[trigger] all.contains(
            start as usize,
        ) by {
            if start + pattern.len() == end {
                assert(all[all.len() - 1] == start as usize);
            } else {
                assert(earlier.contains(start as usize));
                let k = choose|k: int| 0 <= k < earlier.len() && earlier[k] == start as usize;
                assert(all[k] == start as usize);
            }
        }
    }
}

/// The offsets reported for a pattern are exactly its occurrences, each one
/// once: the sequence is strictly increasing, every entry is the start of an
/// occurrence, and every occurrence that ends with a symbol of the text is an
/// entry.
pub proof fn offsets_are_the_occurrences(pattern: Seq<char>, text: Seq<char>)
    requires
        text.len() <= usize::MAX,
    ensures
        forall|i: int, j: int|
            0 <= i < j < offsets(pattern, text).len() ==> offsets(pattern, text)[i] < offsets(
                pattern,
                text,
            )[j],
        forall|k: int|
            0 <= k < offsets(pattern, text).len() ==> occurs_at(
                pattern,
                text,
                #[trigger] offsets(pattern, text)[k] as int,
            ),
        forall|start: int|
            occurs_at(pattern, text, start) && start + pattern.len() >= 1 ==> #[trigger] offsets(
                pattern,
                text,
            ).contains(start as usize),
{
    lemma_offsets_before(pattern, text, text.len());
}

proof fn lemma_distinct(patterns: Seq<Seq<char>>)
    ensures
        distinct(patterns).no_duplicates(),
        forall|p: Seq<char>| #[trigger] distinct(patterns).contains(p) <==> patterns.contains(p),
    decreases patterns.len(),
{
    if patterns.len() > 0 {
        let front = patterns.drop_last();
        let earlier = distinct(front);
        let all = distinct(patterns);
        lemma_distinct(front);
        assert forall|p: Seq<char>| #[trigger] all.contains(p) <==> patterns.contains(p) by {
            if all.contains(p) {
                let k = choose|k: int| 0 <= k < all.len() && all[k] == p;
                if k < earlier.len() {
                    assert(earlier[k] == p);
                    assert(earlier.contains(p));
                    let j = choose|j: int| 0 <= j < front.len() && front[j] == p;
                    assert(patterns[j] == p);
                } else {
                    assert(patterns[patterns.len() - 1] == p);
                }
            }
            if patterns.contains(p) {
                let j = choose|j: int| 0 <= j < patterns.len() && patterns[j] == p;
                if j < front.len() {
                    assert(front[j] == p);
                    assert(earlier.contains(p));
                    let k = choose|k: int| 0 <= k < earlier.len() && earlier[k] == p;
                    assert(all[k] == p);
                } else if earlier.contains(p) {
                    let k = choose|k: int| 0 <= k < earlier.len() && earlier[k] == p;
                    assert(all[k] == p);
                } else {
                    assert(all[all.len() - 1] == p);
                }
            }
        }
    }
}

proof fn lemma_report(keys: Seq<Seq<char>>, text: Seq<char>)
    ensures
        forall|k: int|
            0 <= k < report(keys, text).len() ==> {
                let entry = #[trigger] report(keys, text)[k];
                keys.contains(entry.0) && entry.1 == offsets(entry.0, text) && entry.1.len() > 0
            },
        forall|j: int|
            0 <= j < keys.len() && offsets(#[trigger] keys[j], text).len() > 0 ==> report(
                keys,
                text,
            ).contains((keys[j], offsets(keys[j], text))),
        keys.no_duplicates() ==> forall|i: int, j: int|
            0 <= i < j < report(keys, text).len() ==> report(keys, text)[i].0 != report(
                keys,
                text,
            )[j].0,
    decreases keys.len(),
{
    if keys.len() > 0 {
        let front = keys.drop_last();
        let earlier = report(front, text);
        let all = report(keys, text);
        lemma_report(front, text);
        assert forall|k: int| 0 <= k < all.len() implies ({
            let entry = #[trigger] all[k];
            keys.contains(entry.0) && entry.1 == offsets(entry.0, text) && entry.1.len() > 0
        }) by {
            if k < earlier.len() {
                let entry = earlier[k];
                assert(front.contains(entry.0));
                let j = choose|j: int| 0 <= j < front.len() && front[j] == entry.0;
                assert(keys[j] == entry.0);
            } else {
                assert(keys[keys.len() - 1] == all[k].0);
            }
        }
        assert forall|j: int|
            0 <= j < keys.len() && offsets(#[trigger] keys[j], text).len() > 0 implies all.contains(
            (keys[j], offsets(keys[j], text)),
        ) by {
            let entry = (keys[j], offsets(keys[j], text));
            if j < front.len() {
                assert(front[j] == keys[j]);
                assert(earlier.contains(entry));
                let k = choose|k: int| 0 <= k < earlier.len() && earlier[k] == entry;
                assert(all[k] == entry);
            } else {
                assert(all[all.len() - 1] == entry);
            }
        }
        if keys.no_duplicates() {
            assert(front.no_duplicates());
            assert forall|i: int, j: int| 0 <= i < j < all.len() implies all[i].0 != all[j].0 by {
                if j >= earlier.len() {
                    assert(front.contains(earlier[i].0));
                    let m = choose|m: int| 0 <= m < front.len() && front[m] == earlier[i].0;
                    assert(keys[m] == earlier[i].0);
                }
            }
        }
    }
}

/// The result holds one entry for each pattern that occurs, and nothing else:
/// no two entries share a key, every entry pairs a given pattern with its
/// non-empty list of offsets, and every given pattern that has an offset has
/// its entry.
pub proof fn one_entry_per_found_pattern(patterns: Seq<Seq<char>>, text: Seq<char>)
    ensures
        forall|i: int, j: int|
            0 <= i < j < matches(patterns, text).len() ==> matches(patterns, text)[i].0 != matches(
                patterns,
                text,
            )[j].0,
        forall|k: int|
            0 <= k < matches(patterns, text).len() ==> {
                let entry = #[trigger] matches(patterns, text)[k];
                &&& patterns.contains(entry.0)
                &&& entry.1 == offsets(entry.0, text)
                &&& entry.1.len() > 0
            },
        forall|j: int|
            0 <= j < patterns.len() && offsets(#[trigger] patterns[j], text).len() > 0 ==> matches(
                patterns,
                text,
            ).contains((patterns[j], offsets(patterns[j], text))),
{
    let keys = distinct(patterns);
    lemma_distinct(patterns);
    lemma_report(keys, text);
    assert forall|j: int|
        0 <= j < patterns.len() && offsets(#[trigger] patterns[j], text).len() > 0 implies matches(
        patterns,
        text,
    ).contains((patterns[j], offsets(patterns[j], text))) by {
        assert(patterns.contains(patterns[j]));
        assert(keys.contains(patterns[j]));
        let m = choose|m: int| 0 <= m < keys.len() && keys[m] == patterns[j];
        assert(offsets(keys[m], text).len() > 0);
    }
}

/// Every occurrence of every given pattern is reported under that pattern, at
/// its start offset. (But for the empty pattern at the very start of the
/// text: see [`offsets`].)
pub proof fn every_occurrence_is_reported(
    patterns: Seq<Seq<char>>,
    text: Seq<char>,
    pattern: Seq<char>,
    start: int,
)
    requires
        text.len() <= usize::MAX,
        patterns.contains(pattern),
        occurs_at(pattern, text, start),
        start + pattern.len() >= 1,
    ensures
        matches(patterns, text).contains((pattern, offsets(pattern, text))),
        offsets(pattern, text).contains(start as usize),
{
    offsets_are_the_occurrences(pattern, text);
    one_entry_per_found_pattern(patterns, text);
    let j = choose|j: int| 0 <= j < patterns.len() && patterns[j] == pattern;
    let found = offsets(pattern, text);
    assert(found.contains(start as usize));
    assert(offsets(patterns[j], text).len() > 0);
}

/// Giving a pattern a second time changes nothing.
pub proof fn duplicates_collapse(patterns: Seq<Seq<char>>, pattern: Seq<char>, text: Seq<char>)
    requires
        patterns.contains(pattern),
    ensures
        distinct(patterns.push(pattern)) == distinct(patterns),
        matches(patterns.push(pattern), text) == matches(patterns, text),
{
    lemma_distinct(patterns);
    assert(patterns.push(pattern).drop_last() =~= patterns);
}

/// Without patterns nothing is found, whatever the text.
pub proof fn no_patterns_no_matches(text: Seq<char>)
    ensures
        matches(Seq::empty(), text) == Seq::<(Seq<char>, Seq<usize>)>::empty(),
{
}

/// A pattern that is longer than the text has no entry in the result.
pub proof fn longer_pattern_is_absent(patterns: Seq<Seq<char>>, pattern: Seq<char>, text: Seq<char>)
    requires
        text.len() <= usize::MAX,
        pattern.len() > text.len(),
    ensures
        offsets(pattern, text).len() == 0,
        forall|k: int|
            0 <= k < matches(patterns, text).len() ==> (#[trigger] matches(patterns, text)[k]).0
                != pattern,
{
    lemma_offsets_before(pattern, text, text.len());
    one_entry_per_found_pattern(patterns, text);
    if offsets(pattern, text).len() > 0 {
        assert(occurs_at(pattern, text, offsets(pattern, text)[0] as int));
    }
}

} // verus!
