//! Heap sort: a binary max-heap laid out in the slice itself.

use crate::exchange::swap;
use crate::exchange::swapped;
use crate::exchange::swapped_keeps_the_elements;
use crate::order::at_most;
use crate::order::at_most_is_a_total_preorder;
use crate::order::greater;
use crate::order::less;
use crate::order::sorted;
use crate::order::strict_total_order;
use vstd::prelude::*;
use vstd::seq_lib::lemma_multiset_commutative;

verus! {

/// The place above place `j` in the heap.
pub open spec fn parent(j: int) -> int {
    (j - 1) / 2
}

/// Place `j` lies in the subtree of place `root`: it is `root`, or its
/// parent lies there.
pub open spec fn below(root: int, j: int) -> bool
    decreases j,
{
    j == root || (0 <= root < j && below(root, parent(j)))
}

/// The element at `j` is not above the one at its parent's place.
pub open spec fn in_place<T: PartialOrd>(s: Seq<T>, j: int) -> bool {
    at_most(s[j], s[parent(j)])
}

/// Among the first `n` elements of `s`, the subtree of `root` is a heap:
/// every element of it but the one at `root` is in place.
pub open spec fn heap_under<T: PartialOrd>(s: Seq<T>, n: int, root: int) -> bool {
    forall|j: int| root < j < n && below(root, j) ==> #[trigger] in_place(s, j)
}

/// Among the first `n` elements of `s`, none in the subtree of `root` is
/// above `top`.
pub open spec fn bounded<T: PartialOrd>(s: Seq<T>, n: int, root: int, top: T) -> bool {
    forall|j: int| root <= j < n && #[trigger] below(root, j) ==> at_most(s[j], top)
}

/// Among the first `n` elements of `s`, every one whose parent is at place
/// `lo` or later is in place: from `lo` on, each place heads a heap.
pub open spec fn heap_from<T: PartialOrd>(s: Seq<T>, n: int, lo: int) -> bool {
    forall|j: int| 0 < j < n && parent(j) >= lo ==> #[trigger] in_place(s, j)
}

/// From place `n` up to place `end` the elements are sorted, and none of
/// those before `n` is above one of them.
pub open spec fn rest_in_order<T: PartialOrd>(s: Seq<T>, n: int, end: int) -> bool {
    &&& forall|j: int, t: int| 0 <= j < n <= t < end ==> at_most(s[j], s[t])
    &&& forall|t: int, u: int| n <= t <= u < end ==> at_most(s[t], s[u])
}

/// What lies in a subtree of a subtree lies in the subtree.
pub proof fn lemma_below_below(a: int, b: int, j: int)
    requires
        below(a, b),
        below(b, j),
    ensures
        below(a, j),
    decreases j,
{
    if j != b {
        lemma_below_below(a, b, parent(j));
    }
}

/// Every place lies in the subtree of the first.
pub proof fn lemma_below_first(j: int)
    requires
        0 <= j,
    ensures
        below(0, j),
    decreases j,
{
    if j > 0 {
        lemma_below_first(parent(j));
    }
}

/// What lies in the subtree of `i`, and is neither `i` nor a child of
/// `i`, lies deeper in the subtree of one of the children.
pub proof fn lemma_below_a_child(i: int, j: int)
    requires
        0 <= i < j,
        below(i, j),
        parent(j) != i,
    ensures
        (below(2 * i + 1, j) && j > 2 * i + 1) || (below(2 * i + 2, j) && j > 2 * i + 2),
    decreases j,
{
    let p = parent(j);
    assert(below(i, p));
    if parent(p) != i {
        lemma_below_a_child(i, p);
    } else {
        assert(below(p, p));
    }
}

/// A child lies in the subtree of its parent, and not the other way round.
pub proof fn lemma_child(i: int, c: int)
    requires
        0 <= i < c,
        parent(c) == i,
    ensures
        below(i, c),
        !below(c, i),
        below(i, i),
        below(c, c),
{
    assert(below(i, i));
    assert(below(i, parent(c)));
}

/// The subtrees of the two children of a place have no place in common.
pub proof fn lemma_apart(i: int, j: int)
    requires
        0 <= i,
        below(2 * i + 1, j),
    ensures
        !below(2 * i + 2, j),
    decreases j,
{
    if j == 2 * i + 2 {
        assert(!below(2 * i + 1, i));
    } else if j != 2 * i + 1 {
        if below(2 * i + 2, j) {
            lemma_apart(i, parent(j));
        }
    }
}

/// In a heap no element is above the one at the root.
pub proof fn lemma_root_is_greatest<T: PartialOrd>(s: Seq<T>, n: int, root: int, j: int)
    requires
        strict_total_order::<T>(),
        heap_under(s, n, root),
        0 <= root <= j < n <= s.len(),
        below(root, j),
    ensures
        at_most(s[j], s[root]),
    decreases j,
{
    at_most_is_a_total_preorder(s[j], s[parent(j)], s[root]);
    if j > root {
        assert(in_place(s, j));
        assert(below(root, parent(j)));
        lemma_root_is_greatest(s, n, root, parent(j));
    }
}

/// A heap from the first place on is a heap under the first place, and the
/// other way round.
pub proof fn lemma_whole_heap<T: PartialOrd>(s: Seq<T>, n: int)
    ensures
        heap_from(s, n, 0) <==> heap_under(s, n, 0),
{
    if heap_under(s, n, 0) {
        assert forall|j: int| 0 < j < n && parent(j) >= 0 implies #[trigger] in_place(s, j) by {
            lemma_below_first(j);
        }
    }
}

/// Exchanging two of the first `n` elements keeps the elements of that part
/// and leaves the rest alone.
pub proof fn lemma_swap_in_front<T>(s: Seq<T>, n: int, i: int, j: int)
    requires
        0 <= i < n <= s.len(),
        0 <= j < n,
    ensures
        swapped(s, i, j).take(n).to_multiset() == s.take(n).to_multiset(),
        swapped(s, i, j).skip(n) == s.skip(n),
        swapped(s, i, j).to_multiset() == s.to_multiset(),
{
    swapped_keeps_the_elements(s.take(n), i, j);
    swapped_keeps_the_elements(s, i, j);
    assert(swapped(s, i, j).take(n) =~= swapped(s.take(n), i, j));
    assert(swapped(s, i, j).skip(n) =~= s.skip(n));
}

/// A heap that lives in the first `heap_size` places of a borrowed slice.
pub struct InPlaceHeap<'a, T: PartialOrd + Copy> {
    pub elements: &'a mut [T],
    pub heap_size: usize,
}

impl<'a, T: PartialOrd + Copy> InPlaceHeap<'a, T> {
    /// The heap does not reach beyond the slice, and the places of children
    /// can be computed.
    pub open spec fn well_formed(&self) -> bool {
        self.heap_size <= self.elements@.len() <= usize::MAX / 2
    }

    /// Lets the element at `i` sink to its place: as long as one of its
    /// children is above it, it changes places with the greater child.
    ///
    /// Where the subtrees of the two children of `i` are heaps, the subtree
    /// of `i` is a heap afterwards. Only places in the subtree of `i`, and
    /// within the heap, change, and they change among themselves.
    pub fn heapify(&mut self, i: usize)
        requires
            old(self).well_formed(),
            2 * i + 2 <= usize::MAX,
        ensures
            final(self).well_formed(),
            final(self).heap_size == old(self).heap_size,
            final(final(self).elements)@ == final(old(self).elements)@,
            final(self).elements@.len() == old(self).elements@.len(),
            final(self).elements@.take(old(self).heap_size as int).to_multiset() == old(
                self,
            ).elements@.take(old(self).heap_size as int).to_multiset(),
            final(self).elements@.skip(old(self).heap_size as int) == old(self).elements@.skip(
                old(self).heap_size as int,
            ),
            forall|j: int|
                0 <= j < old(self).elements@.len() && !below(i as int, j)
                    ==> #[trigger] final(self).elements@[j] == old(self).elements@[j],
            forall|top: T| #[trigger]
                bounded(old(self).elements@, old(self).heap_size as int, i as int, top) ==> bounded(
                    final(self).elements@,
                    old(self).heap_size as int,
                    i as int,
                    top,
                ),
            strict_total_order::<T>() && heap_under(
                old(self).elements@,
                old(self).heap_size as int,
                2 * i + 1,
            ) && heap_under(old(self).elements@, old(self).heap_size as int, 2 * i + 2)
                ==> heap_under(final(self).elements@, old(self).heap_size as int, i as int),
        decreases old(self).heap_size - i,
    {
        let l = Self::left(i);
        let r = Self::right(i);
        let ghost s = self.elements@;
        let ghost n = self.heap_size as int;
        let mut largets_element = i;
        if l < self.heap_size && self.elements[l] > self.elements[i] {
            largets_element = l;
        }
        let ghost first_choice = largets_element as int;
        assert(strict_total_order::<T>() ==> (first_choice == l <==> l < n && greater(
            s[l as int],
            s[i as int],
        )));
        if r < self.heap_size && self.elements[r] > self.elements[largets_element] {
            largets_element = r;
        }
        proof {
            if strict_total_order::<T>() {
                assert(largets_element == r <==> r < n && greater(s[r as int], s[first_choice]));
                lemma_greatest_of_three(s, n, i as int, first_choice, largets_element as int);
            }
        }
        if largets_element != i {
            swap(self.elements, i, largets_element);
            let ghost c = largets_element as int;
            let ghost exchanged = self.elements@;
            proof {
                lemma_swap_in_front(s, n, i as int, c);
            }
            self.heapify(largets_element);
            proof {
                lemma_sunk_apart(s, exchanged, self.elements@, i as int, c);
                lemma_sunk_bounded(s, exchanged, self.elements@, n, i as int, c);
                if strict_total_order::<T>() && heap_under(s, n, 2 * i + 1) && heap_under(
                    s,
                    n,
                    2 * i + 2,
                ) {
                    lemma_sunk_heap(s, exchanged, self.elements@, n, i as int, c);
                }
            }
        } else {
            proof {
                if strict_total_order::<T>() && heap_under(s, n, 2 * i + 1) && heap_under(
                    s,
                    n,
                    2 * i + 2,
                ) {
                    assert forall|j: int| i < j < n && below(i as int, j) implies #[trigger] in_place(
                        s,
                        j,
                    ) by {
                        if parent(j) == i {
                            assert(at_most(s[j], s[i as int]));
                        } else {
                            lemma_below_a_child(i as int, j);
                        }
                    }
                }
            }
        }
    }

    /// Sorts the first `heap_size` places of the slice, given that they are
    /// a heap: the first element of the heap changes places with the last
    /// again and again, and the heap, one shorter each time, is set right.
    /// What stands behind the heap stays as it is.
    pub fn heap_sort(&mut self)
        requires
            old(self).well_formed(),
            strict_total_order::<T>() ==> heap_from(
                old(self).elements@,
                old(self).heap_size as int,
                0,
            ),
        ensures
            final(self).well_formed(),
            final(self).heap_size == 0,
            final(final(self).elements)@ == final(old(self).elements)@,
            final(self).elements@.len() == old(self).elements@.len(),
            final(self).elements@.take(old(self).heap_size as int).to_multiset() == old(
                self,
            ).elements@.take(old(self).heap_size as int).to_multiset(),
            final(self).elements@.skip(old(self).heap_size as int) == old(self).elements@.skip(
                old(self).heap_size as int,
            ),
            strict_total_order::<T>() ==> sorted(
                final(self).elements@.take(old(self).heap_size as int),
            ),
    {
        let ghost given = self.elements@;
        let ghost size = self.heap_size as int;
        let ghost outcome = final(self.elements)@;
        while self.heap_size > 0
            invariant
                self.well_formed(),
                self.heap_size <= size <= given.len(),
                final(self.elements)@ == outcome,
                self.elements@.len() == given.len(),
                self.elements@.take(size).to_multiset() == given.take(size).to_multiset(),
                self.elements@.skip(size) == given.skip(size),
                strict_total_order::<T>() ==> heap_from(self.elements@, self.heap_size as int, 0)
                    && rest_in_order(self.elements@, self.heap_size as int, size),
            decreases self.heap_size,
        {
            let ghost s = self.elements@;
            let ghost n = self.heap_size as int;
            self.heap_size -= 1;
            swap(self.elements, 0, self.heap_size);
            let ghost exchanged = self.elements@;
            proof {
                lemma_swap_in_front(s, size, 0, n - 1);
                if strict_total_order::<T>() {
                    lemma_last_place_filled(s, n, size);
                }
            }
            self.heapify(0);
            proof {
                let settled = self.elements@;
                lemma_front_rearranged(exchanged, settled, n - 1, size);
                if strict_total_order::<T>() {
                    lemma_whole_heap(settled, n - 1);
                    lemma_rest_stays_in_order(exchanged, settled, n - 1, size);
                }
            }
        }
        proof {
            if strict_total_order::<T>() {
                let all = self.elements@;
                assert forall|i: int, j: int| 0 <= i <= j < all.take(size).len() implies at_most(
                    all.take(size)[i],
                    all.take(size)[j],
                ) by {
                    assert(at_most(all[i], all[j]));
                }
            }
        }
    }

    /// Makes a heap of the whole slice, letting the elements sink from the
    /// last place that has a child down to the first.
    pub fn build_heap(vector: &'a mut [T]) -> (heap: InPlaceHeap<'a, T>)
        requires
            old(vector)@.len() <= usize::MAX / 2,
        ensures
            heap.well_formed(),
            heap.heap_size == old(vector)@.len(),
            heap.elements@.len() == old(vector)@.len(),
            heap.elements@.to_multiset() == old(vector)@.to_multiset(),
            final(vector)@ == final(heap.elements)@,
            strict_total_order::<T>() ==> heap_from(heap.elements@, heap.heap_size as int, 0),
    {
        let size = vector.len();
        let ghost given = vector@;
        let mut heap = InPlaceHeap { elements: vector, heap_size: size };
        let ghost outcome = final(heap.elements)@;
        let mut i = size / 2;
        assert(heap.elements@.take(size as int) =~= heap.elements@);
        while i > 0
            invariant
                heap.well_formed(),
                heap.heap_size == size,
                i <= size / 2,
                final(heap.elements)@ == outcome,
                heap.elements@.len() == given.len(),
                size == given.len(),
                heap.elements@.to_multiset() == given.to_multiset(),
                strict_total_order::<T>() ==> heap_from(heap.elements@, size as int, i as int),
            decreases i,
        {
            i -= 1;
            let ghost s = heap.elements@;
            proof {
                assert(s.take(size as int) =~= s);
            }
            heap.heapify(i);
            proof {
                assert(heap.elements@.take(size as int) =~= heap.elements@);
                if strict_total_order::<T>() {
                    lemma_heap_grows(s, heap.elements@, size as int, i as int);
                }
            }
        }
        heap
    }

    fn left(i: usize) -> (l: usize)
        requires
            2 * i + 1 <= usize::MAX,
        ensures
            l == 2 * i + 1,
    {
        2 * i + 1
    }

    fn right(i: usize) -> (r: usize)
        requires
            2 * i + 2 <= usize::MAX,
        ensures
            r == 2 * i + 2,
    {
        2 * (i + 1)
    }
}

/// What the two comparisons of a sinking step establish: the chosen place
/// holds an element that none of the children of `k` is above, and if it is
/// not `k` itself, it is a child that is above the element at `k`.
proof fn lemma_greatest_of_three<T: PartialOrd>(s: Seq<T>, n: int, k: int, first: int, chosen: int)
    requires
        strict_total_order::<T>(),
        0 <= k,
        n <= s.len(),
        first == 2 * k + 1 <==> 2 * k + 1 < n && greater(s[2 * k + 1], s[k]),
        first == k || first == 2 * k + 1,
        chosen == 2 * k + 2 <==> 2 * k + 2 < n && greater(s[2 * k + 2], s[first]),
        chosen == first || chosen == 2 * k + 2,
    ensures
        chosen != k ==> k < chosen < n && parent(chosen) == k && less(s[k], s[chosen]),
        chosen == k ==> k < n ==> at_most(s[k], s[chosen]),
        forall|j: int| 0 < j < n && parent(j) == k ==> at_most(#[trigger] s[j], s[chosen]),
{
    let l = 2 * k + 1;
    let r = 2 * k + 2;
    if l < n {
        at_most_is_a_total_preorder(s[l], s[k], s[first]);
        at_most_is_a_total_preorder(s[k], s[first], s[chosen]);
        at_most_is_a_total_preorder(s[l], s[first], s[chosen]);
        assert(greater(s[l], s[k]) <==> less(s[k], s[l]));
    }
    if r < n {
        at_most_is_a_total_preorder(s[r], s[first], s[chosen]);
        assert(greater(s[r], s[first]) <==> less(s[first], s[r]));
        at_most_is_a_total_preorder(s[k], s[first], s[r]);
        if less(s[k], s[first]) && less(s[first], s[r]) {
            assert(less(s[k], s[r]));
        }
    }
    assert forall|j: int| 0 < j < n && parent(j) == k implies at_most(#[trigger] s[j], s[chosen]) by {
        assert(j == l || j == r);
        at_most_is_a_total_preorder(s[j], s[first], s[chosen]);
        at_most_is_a_total_preorder(s[chosen], s[chosen], s[chosen]);
    }
}

/// After the element at `i` has changed places with its child at `c` and
/// has sunk on from there, nothing outside the subtree of `i` has changed.
proof fn lemma_sunk_apart<T>(s: Seq<T>, exchanged: Seq<T>, settled: Seq<T>, i: int, c: int)
    requires
        0 <= i < c < s.len(),
        parent(c) == i,
        exchanged == swapped(s, i, c),
        settled.len() == s.len(),
        forall|j: int| 0 <= j < s.len() && !below(c, j) ==> #[trigger] settled[j] == exchanged[j],
    ensures
        forall|j: int| 0 <= j < s.len() && !below(i, j) ==> #[trigger] settled[j] == s[j],
        settled[i] == s[c],
{
    lemma_child(i, c);
    assert forall|j: int| 0 <= j < s.len() && !below(i, j) implies #[trigger] settled[j] == s[j] by {
        if below(c, j) {
            lemma_below_below(i, c, j);
        }
    }
}

/// And what bounded the subtree of `i` from above still does.
proof fn lemma_sunk_bounded<T: PartialOrd>(
    s: Seq<T>,
    exchanged: Seq<T>,
    settled: Seq<T>,
    n: int,
    i: int,
    c: int,
)
    requires
        0 <= i < c < n <= s.len(),
        parent(c) == i,
        exchanged == swapped(s, i, c),
        settled.len() == s.len(),
        forall|j: int| 0 <= j < s.len() && !below(c, j) ==> #[trigger] settled[j] == exchanged[j],
        forall|top: T| #[trigger] bounded(exchanged, n, c, top) ==> bounded(settled, n, c, top),
    ensures
        forall|top: T| #[trigger] bounded(s, n, i, top) ==> bounded(settled, n, i, top),
{
    lemma_child(i, c);
    assert forall|top: T| #[trigger] bounded(s, n, i, top) implies bounded(settled, n, i, top) by {
        assert(below(i, i));
        assert(bounded(exchanged, n, c, top)) by {
            assert forall|j: int| c <= j < n && #[trigger] below(c, j) implies at_most(
                exchanged[j],
                top,
            ) by {
                lemma_below_below(i, c, j);
            }
        }
        assert forall|j: int| i <= j < n && #[trigger] below(i, j) implies at_most(
            settled[j],
            top,
        ) by {
            if below(c, j) {
            } else if j != i {
                assert(settled[j] == exchanged[j]);
            } else {
                assert(settled[j] == exchanged[j]);
            }
        }
    }
}

/// And if the subtrees of the children of `i` were heaps, the subtree of
/// `i` is now a heap.
proof fn lemma_sunk_heap<T: PartialOrd>(
    s: Seq<T>,
    exchanged: Seq<T>,
    settled: Seq<T>,
    n: int,
    i: int,
    c: int,
)
    requires
        strict_total_order::<T>(),
        0 <= i < c < n <= s.len(),
        parent(c) == i,
        exchanged == swapped(s, i, c),
        settled.len() == s.len(),
        forall|j: int| 0 <= j < s.len() && !below(c, j) ==> #[trigger] settled[j] == exchanged[j],
        forall|top: T| #[trigger] bounded(exchanged, n, c, top) ==> bounded(settled, n, c, top),
        heap_under(exchanged, n, 2 * c + 1) && heap_under(exchanged, n, 2 * c + 2) ==> heap_under(
            settled,
            n,
            c,
        ),
        less(s[i], s[c]),
        forall|j: int| 0 < j < n && parent(j) == i ==> at_most(#[trigger] s[j], s[c]),
        heap_under(s, n, 2 * i + 1),
        heap_under(s, n, 2 * i + 2),
    ensures
        heap_under(settled, n, i),
{
    let other = if c == 2 * i + 1 {
        2 * i + 2
    } else {
        2 * i + 1
    };
    lemma_child(i, c);
    assert(below(c, c));
    assert(heap_under(s, n, c));
    // Below the child nothing has changed yet.
    assert forall|j: int| 2 * c + 1 < j < n && below(2 * c + 1, j) implies #[trigger] in_place(
        exchanged,
        j,
    ) by {
        lemma_child(c, 2 * c + 1);
        lemma_below_below(c, 2 * c + 1, j);
        assert(below(2 * c + 1, parent(j)));
        assert(in_place(s, j));
    }
    assert forall|j: int| 2 * c + 2 < j < n && below(2 * c + 2, j) implies #[trigger] in_place(
        exchanged,
        j,
    ) by {
        lemma_child(c, 2 * c + 2);
        lemma_below_below(c, 2 * c + 2, j);
        assert(below(2 * c + 2, parent(j)));
        assert(in_place(s, j));
    }
    assert(heap_under(settled, n, c));
    // What has sunk into the subtree of the child is not above what rose.
    assert(bounded(exchanged, n, c, s[c])) by {
        assert forall|j: int| c <= j < n && #[trigger] below(c, j) implies at_most(
            exchanged[j],
            s[c],
        ) by {
            at_most_is_a_total_preorder(s[i], s[c], s[c]);
            if j != c {
                lemma_root_is_greatest(s, n, c, j);
            }
        }
    }
    assert(bounded(settled, n, c, s[c]));
    assert(settled[i] == exchanged[i]);
    assert forall|j: int| i < j < n && below(i, j) implies #[trigger] in_place(settled, j) by {
        if j == c {
            assert(at_most(settled[c], s[c]));
        } else if below(c, j) {
        } else {
            assert(settled[j] == exchanged[j]);
            if parent(j) == i {
                assert(at_most(s[j], s[c]));
            } else {
                lemma_below_a_child(i, j);
                if c == 2 * i + 1 {
                    if below(2 * i + 1, parent(j)) {
                    }
                } else {
                    if below(2 * i + 1, j) {
                        lemma_apart(i, j);
                    }
                }
                assert(below(other, j) && j > other);
                assert(parent(j) != c);
                assert(!below(c, parent(j)));
                assert(settled[parent(j)] == exchanged[parent(j)]);
                assert(in_place(s, j));
            }
        }
    }
}

/// Where a heap began at place `k + 1` and the element at `k` has sunk, the
/// heap begins at `k`.
proof fn lemma_heap_grows<T: PartialOrd>(s: Seq<T>, settled: Seq<T>, n: int, k: int)
    requires
        0 <= k,
        n <= s.len(),
        settled.len() == s.len(),
        heap_from(s, n, k + 1),
        forall|j: int| 0 <= j < s.len() && !below(k, j) ==> #[trigger] settled[j] == s[j],
        heap_under(s, n, 2 * k + 1) && heap_under(s, n, 2 * k + 2) ==> heap_under(settled, n, k),
    ensures
        heap_from(settled, n, k),
{
    assert forall|j: int| 2 * k + 1 < j < n && below(2 * k + 1, j) implies #[trigger] in_place(
        s,
        j,
    ) by {
        assert(below(2 * k + 1, parent(j)));
    }
    assert forall|j: int| 2 * k + 2 < j < n && below(2 * k + 2, j) implies #[trigger] in_place(
        s,
        j,
    ) by {
        assert(below(2 * k + 2, parent(j)));
    }
    assert forall|j: int| 0 < j < n && parent(j) >= k implies #[trigger] in_place(settled, j) by {
        if !below(k, j) {
            assert(below(k, k));
            assert(!below(k, parent(j)));
            assert(settled[j] == s[j]);
            assert(settled[parent(j)] == s[parent(j)]);
            assert(in_place(s, j));
        }
    }
}

/// The first element of a heap, moved behind the heap, is in its final
/// place; in front of it the subtrees of the second and the third place
/// are still heaps.
proof fn lemma_last_place_filled<T: PartialOrd>(s: Seq<T>, n: int, end: int)
    requires
        strict_total_order::<T>(),
        0 < n <= end <= s.len(),
        heap_from(s, n, 0),
        rest_in_order(s, n, end),
    ensures
        heap_under(swapped(s, 0, n - 1), n - 1, 1),
        heap_under(swapped(s, 0, n - 1), n - 1, 2),
        rest_in_order(swapped(s, 0, n - 1), n - 1, end),
{
    let after = swapped(s, 0, n - 1);
    assert forall|j: int| 1 < j < n - 1 && below(1, j) implies #[trigger] in_place(after, j) by {
        assert(below(1, parent(j)));
        assert(in_place(s, j));
    }
    assert forall|j: int| 2 < j < n - 1 && below(2, j) implies #[trigger] in_place(after, j) by {
        assert(below(2, parent(j)));
        assert(in_place(s, j));
    }
    lemma_whole_heap(s, n);
    assert forall|j: int, t: int| 0 <= j < n - 1 <= t < end implies at_most(after[j], after[t]) by {
        if t == n - 1 {
            if j == 0 {
                lemma_below_first(n - 1);
                lemma_root_is_greatest(s, n, 0, n - 1);
            } else {
                lemma_below_first(j);
                lemma_root_is_greatest(s, n, 0, j);
            }
        } else {
            if j == 0 {
                assert(at_most(s[n - 1], s[t]));
            } else {
                assert(at_most(s[j], s[t]));
            }
        }
    }
    assert forall|t: int, u: int| n - 1 <= t <= u < end implies at_most(after[t], after[u]) by {
        at_most_is_a_total_preorder(s[0], s[0], s[0]);
        if t == n - 1 && u > t {
            assert(at_most(s[0], s[u]));
        } else if t > n - 1 {
            assert(at_most(s[t], s[u]));
        }
    }
}

/// Rearranging the first `n` elements among themselves rearranges the first
/// `end` among themselves, and leaves what stands behind those alone.
proof fn lemma_front_rearranged<T>(before: Seq<T>, after: Seq<T>, n: int, end: int)
    requires
        0 <= n <= end <= before.len(),
        after.len() == before.len(),
        after.take(n).to_multiset() == before.take(n).to_multiset(),
        after.skip(n) == before.skip(n),
    ensures
        after.take(end).to_multiset() == before.take(end).to_multiset(),
        after.skip(end) == before.skip(end),
        forall|t: int| n <= t < before.len() ==> #[trigger] after[t] == before[t],
{
    assert forall|t: int| n <= t < before.len() implies #[trigger] after[t] == before[t] by {
        assert(after.skip(n)[t - n] == before.skip(n)[t - n]);
    }
    assert(after.skip(end) =~= before.skip(end));
    assert(after.subrange(n, end) =~= before.subrange(n, end));
    assert(after.take(end) =~= after.take(n) + after.subrange(n, end));
    assert(before.take(end) =~= before.take(n) + before.subrange(n, end));
    lemma_multiset_commutative(after.take(n), after.subrange(n, end));
    lemma_multiset_commutative(before.take(n), before.subrange(n, end));
}

/// Rearranging the first `n` elements among themselves keeps them below
/// the others.
proof fn lemma_rest_stays_in_order<T: PartialOrd>(before: Seq<T>, after: Seq<T>, n: int, end: int)
    requires
        0 <= n <= end <= before.len(),
        after.len() == before.len(),
        after.take(n).to_multiset() == before.take(n).to_multiset(),
        after.skip(n) == before.skip(n),
        rest_in_order(before, n, end),
    ensures
        rest_in_order(after, n, end),
{
    broadcast use vstd::seq_lib::group_to_multiset_ensures;

    assert forall|t: int| n <= t < after.len() implies after[t] == before[t] by {
        assert(after.skip(n)[t - n] == before.skip(n)[t - n]);
    }
    assert forall|j: int, t: int| 0 <= j < n <= t < end implies at_most(after[j], after[t]) by {
        let front = after.take(n);
        assert(front[j] == after[j]);
        assert(front.contains(after[j]));
        assert(before.take(n).to_multiset().count(after[j]) > 0);
        assert(before.take(n).contains(after[j]));
        let m = choose|m: int| 0 <= m < n && before.take(n)[m] == after[j];
        assert(at_most(before[m], before[t]));
    }
    assert forall|t: int, u: int| n <= t <= u < end implies at_most(after[t], after[u]) by {
        assert(at_most(before[t], before[u]));
    }
}

/// Sorts `vector` in ascending order.
pub fn heap_sort<T: PartialOrd + Copy>(vector: &mut [T])
    requires
        old(vector)@.len() <= usize::MAX / 2,
    ensures
        final(vector)@.len() == old(vector)@.len(),
        final(vector)@.to_multiset() == old(vector)@.to_multiset(),
        strict_total_order::<T>() ==> sorted(final(vector)@),
{
    let ghost given = vector@;
    let mut heap = InPlaceHeap::build_heap(vector);
    let ghost heaped = heap.elements@;
    heap.heap_sort();
    proof {
        assert(heaped.take(heaped.len() as int) =~= heaped);
        assert(heap.elements@.take(heaped.len() as int) =~= heap.elements@);
    }
}

} // verus!
