//! Quick sort with a pivot chosen at random.

use crate::exchange::swap;
use crate::exchange::swapped;
use crate::exchange::swapped_keeps_the_elements;
use crate::order::at_most;
use crate::order::at_most_is_a_total_preorder;
use crate::order::less;
use crate::order::sorted;
use crate::order::strict_total_order;
use rand::Rng;
use vstd::prelude::*;
use vstd::seq_lib::lemma_multiset_commutative;

verus! {

/// Draws an index below `len` from the thread's random number generator:
/// `Rng::gen_range(0, len)` of the `rand` crate on `rand::thread_rng()`.
///
/// Believed, not proved: the number drawn lies in `0..len`. `gen_range`
/// panics on an empty range, which `len > 0` rules out. Nothing is said of
/// which index comes; two calls may differ.
#[verifier::external_body]
fn random_index(len: usize) -> (index: usize)
    requires
        len > 0,
    ensures
        index < len,
{
    rand::thread_rng().gen_range(0, len)
}

/// The element at `q` parts `s`: those before it are below it, and it is
/// not above those after it.
pub open spec fn parted<T: PartialOrd>(s: Seq<T>, q: int) -> bool {
    &&& forall|a: int| 0 <= a < q ==> less(#[trigger] s[a], s[q])
    &&& forall|a: int| q < a < s.len() ==> at_most(s[q], #[trigger] s[a])
}

/// Parts the slice around an element picked at random and says where that
/// element has come to stand.
fn random_partition<T: PartialOrd + Copy>(vector: &mut [T]) -> (q: usize)
    requires
        old(vector)@.len() > 0,
    ensures
        q < final(vector)@.len(),
        final(vector)@.len() == old(vector)@.len(),
        final(vector)@.to_multiset() == old(vector)@.to_multiset(),
        strict_total_order::<T>() ==> parted(final(vector)@, q as int),
{
    let pivot_index = random_index(vector.len());
    proof {
        swapped_keeps_the_elements(vector@, pivot_index as int, vector@.len() - 1);
    }
    swap(vector, pivot_index, vector.len() - 1);

    partition(vector)
}

/// Parts the slice around its last element: moves the elements that are
/// below it to the front, puts it behind them and says where it stands.
fn partition<T: PartialOrd + Copy>(vector: &mut [T]) -> (q: usize)
    requires
        old(vector)@.len() > 0,
    ensures
        q < final(vector)@.len(),
        final(vector)@.len() == old(vector)@.len(),
        final(vector)@.to_multiset() == old(vector)@.to_multiset(),
        final(vector)@[q as int] == old(vector)@[old(vector)@.len() - 1],
        strict_total_order::<T>() ==> parted(final(vector)@, q as int),
{
    let last = vector.len() - 1;
    let pivot = vector[last];
    let ghost given = vector@;
    let mut i: usize = 0;
    for j in 0..last
        invariant
            i <= j,
            last == given.len() - 1,
            vector@.len() == given.len(),
            vector@[last as int] == pivot,
            vector@.to_multiset() == given.to_multiset(),
            strict_total_order::<T>() ==> forall|a: int| 0 <= a < i ==> less(#[trigger] vector@[a], pivot),
            strict_total_order::<T>() ==> forall|a: int|
                i <= a < j ==> at_most(pivot, #[trigger] vector@[a]),
    {
        let ghost before = vector@;
        if vector[j] < pivot {
            assert(strict_total_order::<T>() ==> less(before[j as int], pivot));
            proof {
                swapped_keeps_the_elements(before, i as int, j as int);
            }
            swap(vector, i, j);
            i += 1;
        } else {
            assert(strict_total_order::<T>() ==> at_most(pivot, before[j as int]));
        }
    }
    let ghost before = vector@;
    proof {
        swapped_keeps_the_elements(before, i as int, last as int);
    }
    vector[last] = vector[i];
    vector[i] = pivot;
    assert(vector@ =~= swapped(before, i as int, last as int));

    i
}

/// Two sorted pieces with an element between them that is not above
/// anything in the second and not below anything in the first make one
/// sorted sequence.
proof fn lemma_sorted_around<T: PartialOrd>(front: Seq<T>, middle: T, back: Seq<T>)
    requires
        strict_total_order::<T>(),
        sorted(front),
        sorted(back),
        forall|a: int| 0 <= a < front.len() ==> at_most(#[trigger] front[a], middle),
        forall|b: int| 0 <= b < back.len() ==> at_most(middle, #[trigger] back[b]),
    ensures
        sorted(front + seq![middle] + back),
{
    let whole = front + seq![middle] + back;
    assert forall|i: int, j: int| 0 <= i <= j < whole.len() implies at_most(whole[i], whole[j]) by {
        at_most_is_a_total_preorder(middle, middle, middle);
        if j < front.len() {
            assert(at_most(front[i], front[j]));
        } else if i > front.len() {
            assert(at_most(back[i - front.len() - 1], back[j - front.len() - 1]));
        } else if i < front.len() && j > front.len() {
            at_most_is_a_total_preorder(front[i], middle, back[j - front.len() - 1]);
        }
    }
}

/// A rearrangement of a sequence holds nothing that the sequence did not
/// hold.
proof fn lemma_same_elements<T>(before: Seq<T>, after: Seq<T>, i: int)
    requires
        after.to_multiset() == before.to_multiset(),
        0 <= i < after.len(),
    ensures
        before.contains(after[i]),
{
    broadcast use vstd::seq_lib::group_to_multiset_ensures;

    assert(after.contains(after[i]));
    assert(before.to_multiset().count(after[i]) > 0);
}

/// Sorts `vector` in ascending order.
pub fn quick_sort<T: PartialOrd + Copy>(vector: &mut [T])
    ensures
        final(vector)@.len() == old(vector)@.len(),
        final(vector)@.to_multiset() == old(vector)@.to_multiset(),
        strict_total_order::<T>() ==> sorted(final(vector)@),
    decreases old(vector)@.len(),
{
    if vector.len() < 2 {
        return ;
    }
    let q = random_partition(vector);
    let ghost parts = vector@;
    let (front, rest) = vector.split_at_mut(q);
    let (middle, back) = rest.split_at_mut(1);
    let ghost front_before = front@;
    let ghost back_before = back@;
    quick_sort(front);
    quick_sort(back);
    proof {
        let pivot = parts[q as int];
        assert(middle@ =~= seq![pivot]);
        assert(parts =~= front_before + seq![pivot] + back_before);
        lemma_multiset_commutative(front_before + seq![pivot], back_before);
        lemma_multiset_commutative(front_before, seq![pivot]);
        lemma_multiset_commutative(front@ + seq![pivot], back@);
        lemma_multiset_commutative(front@, seq![pivot]);
        assert(front@ + (middle@ + back@) =~= front@ + seq![pivot] + back@);
        assert((front@ + seq![pivot] + back@).to_multiset() =~= parts.to_multiset());
        if strict_total_order::<T>() {
            assert forall|a: int| 0 <= a < front@.len() implies at_most(#[trigger] front@[a], pivot) by {
                lemma_same_elements(front_before, front@, a);
                let m = choose|m: int| 0 <= m < front_before.len() && front_before[m] == front@[a];
                assert(less(parts[m], pivot));
                at_most_is_a_total_preorder(front@[a], pivot, pivot);
            }
            assert forall|b: int| 0 <= b < back@.len() implies at_most(pivot, #[trigger] back@[b]) by {
                lemma_same_elements(back_before, back@, b);
                let m = choose|m: int| 0 <= m < back_before.len() && back_before[m] == back@[b];
                assert(at_most(pivot, parts[q + 1 + m]));
            }
            lemma_sorted_around(front@, pivot, back@);
        }
    }
}

} // verus!
