//! Facts about the suffixes of a word, as the automaton's proofs need them.

use super::occurrences::occurs_at;
use vstd::prelude::*;

verus! {

/// `head` is a prefix of `word`.
pub open spec fn begins_with(word: Seq<char>, head: Seq<char>) -> bool {
    &&& head.len() <= word.len()
    &&& word.subrange(0, head.len() as int) == head
}

/// `tail` is a suffix of `word`.
pub open spec fn ends_with(word: Seq<char>, tail: Seq<char>) -> bool {
    &&& tail.len() <= word.len()
    &&& word.subrange(word.len() - tail.len(), word.len() as int) == tail
}

pub proof fn lemma_trivial_suffixes(word: Seq<char>)
    ensures
        ends_with(word, word),
        ends_with(word, Seq::empty()),
{
    assert(word.subrange(0, word.len() as int) =~= word);
    assert(word.subrange(word.len() as int, word.len() as int) =~= Seq::<char>::empty());
}

pub proof fn lemma_full_suffix(word: Seq<char>, tail: Seq<char>)
    requires
        ends_with(word, tail),
        tail.len() == word.len(),
    ensures
        tail == word,
{
    assert(word.subrange(0, word.len() as int) =~= word);
}

pub proof fn lemma_suffix_push(word: Seq<char>, tail: Seq<char>, c: char)
    requires
        ends_with(word, tail),
    ensures
        ends_with(word.push(c), tail.push(c)),
{
    let longer = word.push(c);
    assert(longer.subrange(longer.len() - tail.len() - 1, longer.len() as int) =~= word.subrange(
        word.len() - tail.len(),
        word.len() as int,
    ).push(c));
}

pub proof fn lemma_suffix_pop(word: Seq<char>, c: char, tail: Seq<char>)
    requires
        ends_with(word.push(c), tail),
        tail.len() >= 1,
    ensures
        tail.last() == c,
        tail == tail.drop_last().push(c),
        ends_with(word, tail.drop_last()),
{
    let longer = word.push(c);
    let cut = longer.subrange(longer.len() - tail.len(), longer.len() as int);
    assert(cut[tail.len() - 1] == c);
    assert(tail =~= tail.drop_last().push(c));
    assert(word.subrange(word.len() - (tail.len() - 1), word.len() as int) =~= tail.drop_last()) by {
        let lo = word.len() - (tail.len() - 1);
        assert forall|i: int| 0 <= i < tail.len() - 1 implies word.subrange(lo, word.len() as int)[i]
            == tail.drop_last()[i] by {
            assert(cut[i] == tail[i]);
        }
    }
}

pub proof fn lemma_suffix_chain(word: Seq<char>, mid: Seq<char>, tail: Seq<char>)
    requires
        ends_with(word, mid),
        ends_with(mid, tail),
    ensures
        ends_with(word, tail),
{
    let outer = word.subrange(word.len() - mid.len(), word.len() as int);
    let inner = mid.subrange(mid.len() - tail.len(), mid.len() as int);
    assert forall|i: int| 0 <= i < tail.len() implies word.subrange(
        word.len() - tail.len(),
        word.len() as int,
    )[i] == tail[i] by {
        assert(inner[i] == tail[i]);
        assert(outer[mid.len() - tail.len() + i] == mid[mid.len() - tail.len() + i]);
    }
    assert(word.subrange(word.len() - tail.len(), word.len() as int) =~= tail);
}

pub proof fn lemma_suffix_of_suffix(word: Seq<char>, short: Seq<char>, long: Seq<char>)
    requires
        ends_with(word, short),
        ends_with(word, long),
        short.len() <= long.len(),
    ensures
        ends_with(long, short),
{
    let a = word.subrange(word.len() - short.len(), word.len() as int);
    let b = word.subrange(word.len() - long.len(), word.len() as int);
    assert forall|i: int| 0 <= i < short.len() implies long.subrange(
        long.len() - short.len(),
        long.len() as int,
    )[i] == short[i] by {
        assert(a[i] == short[i]);
        assert(b[long.len() - short.len() + i] == long[long.len() - short.len() + i]);
    }
    assert(long.subrange(long.len() - short.len(), long.len() as int) =~= short);
}

pub proof fn lemma_push_is_injective(a: Seq<char>, x: char, b: Seq<char>, y: char)
    requires
        a.push(x) == b.push(y),
    ensures
        a == b,
        x == y,
{
    assert(a.push(x).last() == x);
    assert(b.push(y).last() == y);
    assert(a.push(x).drop_last() =~= a);
    assert(b.push(y).drop_last() =~= b);
}

/// Two symbols with one scalar value are one symbol.
pub proof fn lemma_symbol_of_scalar(a: char, b: char)
    requires
        a as u32 == b as u32,
    ensures
        a == b,
{
}

/// A pattern occurs with its last symbol at index `end - 1` exactly if the
/// first `end` symbols of the text end with it.
pub proof fn lemma_occurrence_is_suffix(pattern: Seq<char>, text: Seq<char>, end: int)
    requires
        0 <= end <= text.len(),
    ensures
        occurs_at(pattern, text, end - pattern.len()) <==> ends_with(text.take(end), pattern),
{
    if pattern.len() <= end {
        assert(text.take(end).subrange(end - pattern.len(), end) =~= text.subrange(
            end - pattern.len(),
            end,
        ));
    }
}

} // verus!
