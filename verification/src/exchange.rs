//! Exchanging two elements of a slice, as the in-place sorts do.

use vstd::multiset::Multiset;
use vstd::prelude::*;
use vstd::seq_lib::to_multiset_update;

verus! {

/// `s` with the elements at `i` and `j` exchanged.
pub open spec fn swapped<T>(s: Seq<T>, i: int, j: int) -> Seq<T> {
    s.update(i, s[j]).update(j, s[i])
}

/// Exchanging two elements leaves the same elements, with the same
/// multiplicities.
pub proof fn swapped_keeps_the_elements<T>(s: Seq<T>, i: int, j: int)
    requires
        0 <= i < s.len(),
        0 <= j < s.len(),
    ensures
        swapped(s, i, j).to_multiset() == s.to_multiset(),
{
    broadcast use vstd::seq_lib::group_to_multiset_ensures;

    let once = s.update(i, s[j]);
    to_multiset_update(s, i, s[j]);
    to_multiset_update(once, j, s[i]);
    assert(once[j] == s[j]);
    assert(s.contains(s[i]));
    assert(s.contains(s[j]));
    let before: Multiset<T> = s.to_multiset();
    assert(before.insert(s[j]).remove(s[i]).insert(s[i]).remove(s[j]) =~= before);
}

/// Exchanges the elements at `i` and `j`.
pub fn swap<T: Copy>(elements: &mut [T], i: usize, j: usize)
    requires
        i < old(elements)@.len(),
        j < old(elements)@.len(),
    ensures
        final(elements)@ == swapped(old(elements)@, i as int, j as int),
{
    let first = elements[i];
    let second = elements[j];
    elements[i] = second;
    elements[j] = first;
}

} // verus!
