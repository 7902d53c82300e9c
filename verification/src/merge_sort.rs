//! Merge sort on a slice of `i32`.

use vstd::prelude::*;
use vstd::seq_lib::lemma_multiset_commutative;
use vstd::seq_lib::to_multiset_build;
use vstd::slice::slice_to_vec;

verus! {

/// No element of `s` is greater than one that comes after it.
pub open spec fn ascending(s: Seq<i32>) -> bool {
    forall|i: int, j: int| 0 <= i <= j < s.len() ==> s[i] <= s[j]
}

/// Merges two slices into `result`, taking from the left one only where its
/// next element is the smaller. Of two ascending slices this makes one
/// ascending slice.
fn merge(left_vector: &[i32], right_vector: &[i32], result: &mut [i32])
    requires
        old(result)@.len() == left_vector@.len() + right_vector@.len(),
    ensures
        final(result)@.len() == old(result)@.len(),
        final(result)@.to_multiset() == left_vector@.to_multiset().add(right_vector@.to_multiset()),
        ascending(left_vector@) && ascending(right_vector@) ==> ascending(final(result)@),
{
    let mut left_id: usize = 0;
    let mut right_id: usize = 0;
    let mut insert_id: usize = 0;

    proof {
        assert(result@.take(0) =~= Seq::<i32>::empty());
        assert(left_vector@.take(0) =~= Seq::<i32>::empty());
        assert(right_vector@.take(0) =~= Seq::<i32>::empty());
        assert(Seq::<i32>::empty().to_multiset() =~= Seq::<i32>::empty().to_multiset().add(
            Seq::<i32>::empty().to_multiset(),
        )) by {
            broadcast use vstd::seq_lib::group_to_multiset_ensures;

        }
    }
    while left_id < left_vector.len() && right_id < right_vector.len()
        invariant
            left_id <= left_vector@.len(),
            right_id <= right_vector@.len(),
            insert_id == left_id + right_id,
            result@.len() == left_vector@.len() + right_vector@.len(),
            merged_so_far(left_vector@, right_vector@, result@, left_id as int, right_id as int),
        decreases left_vector@.len() - left_id + right_vector@.len() - right_id,
    {
        let ghost before = result@;
        if left_vector[left_id] < right_vector[right_id] {
            result[insert_id] = left_vector[left_id];
            proof {
                lemma_take_one_more(
                    left_vector@,
                    right_vector@,
                    before,
                    result@,
                    left_id as int,
                    right_id as int,
                    true,
                );
            }
            left_id += 1;
        } else {
            result[insert_id] = right_vector[right_id];
            proof {
                lemma_take_one_more(
                    left_vector@,
                    right_vector@,
                    before,
                    result@,
                    left_id as int,
                    right_id as int,
                    false,
                );
            }
            right_id += 1;
        }
        insert_id += 1;
    }
    if left_id < left_vector.len() {
        while left_id < left_vector.len()
            invariant
                left_id <= left_vector@.len(),
                right_id == right_vector@.len(),
                insert_id == left_id + right_id,
                result@.len() == left_vector@.len() + right_vector@.len(),
                merged_so_far(left_vector@, right_vector@, result@, left_id as int, right_id as int),
            decreases left_vector@.len() - left_id,
        {
            let ghost before = result@;
            result[insert_id] = left_vector[left_id];
            proof {
                lemma_take_one_more(
                    left_vector@,
                    right_vector@,
                    before,
                    result@,
                    left_id as int,
                    right_id as int,
                    true,
                );
            }
            left_id += 1;
            insert_id += 1;
        }
    } else {
        while right_id < right_vector.len()
            invariant
                left_id == left_vector@.len(),
                right_id <= right_vector@.len(),
                insert_id == left_id + right_id,
                result@.len() == left_vector@.len() + right_vector@.len(),
                merged_so_far(left_vector@, right_vector@, result@, left_id as int, right_id as int),
            decreases right_vector@.len() - right_id,
        {
            let ghost before = result@;
            result[insert_id] = right_vector[right_id];
            proof {
                lemma_take_one_more(
                    left_vector@,
                    right_vector@,
                    before,
                    result@,
                    left_id as int,
                    right_id as int,
                    false,
                );
            }
            right_id += 1;
            insert_id += 1;
        }
    }
    proof {
        assert(result@.take(insert_id as int) =~= result@);
        assert(left_vector@.take(left_id as int) =~= left_vector@);
        assert(right_vector@.take(right_id as int) =~= right_vector@);
    }
}

/// The state of a merge that has taken `i` elements from the left and `j`
/// from the right: the first `i + j` places of `result` hold just these, and
/// if both inputs are ascending, they hold them in ascending order and none
/// of them is greater than an element still to come.
spec fn merged_so_far(left: Seq<i32>, right: Seq<i32>, result: Seq<i32>, i: int, j: int) -> bool {
    &&& 0 <= i <= left.len()
    &&& 0 <= j <= right.len()
    &&& result.len() == left.len() + right.len()
    &&& result.take(i + j).to_multiset() == left.take(i).to_multiset().add(
        right.take(j).to_multiset(),
    )
    &&& ascending(left) && ascending(right) ==> {
        &&& ascending(result.take(i + j))
        &&& i + j > 0 && i < left.len() ==> result[i + j - 1] <= left[i]
        &&& i + j > 0 && j < right.len() ==> result[i + j - 1] <= right[j]
    }
}

proof fn lemma_take_one_more(
    left: Seq<i32>,
    right: Seq<i32>,
    before: Seq<i32>,
    after: Seq<i32>,
    i: int,
    j: int,
    from_left: bool,
)
    requires
        merged_so_far(left, right, before, i, j),
        from_left ==> i < left.len() && after == before.update(i + j, left[i]),
        !from_left ==> j < right.len() && after == before.update(i + j, right[j]),
        ascending(left) && ascending(right) ==> (if from_left {
            j < right.len() ==> left[i] <= right[j]
        } else {
            i < left.len() ==> right[j] <= left[i]
        }),
    ensures
        from_left ==> merged_so_far(left, right, after, i + 1, j),
        !from_left ==> merged_so_far(left, right, after, i, j + 1),
{
    let k = i + j;
    let taken = if from_left { left[i] } else { right[j] };
    assert(after.take(k + 1) =~= before.take(k).push(taken));
    to_multiset_build(before.take(k), taken);
    if from_left {
        assert(left.take(i + 1) =~= left.take(i).push(taken));
        to_multiset_build(left.take(i), taken);
    } else {
        assert(right.take(j + 1) =~= right.take(j).push(taken));
        to_multiset_build(right.take(j), taken);
    }
    assert(after.take(k + 1).to_multiset() =~= (if from_left {
        left.take(i + 1).to_multiset().add(right.take(j).to_multiset())
    } else {
        left.take(i).to_multiset().add(right.take(j + 1).to_multiset())
    }));
    if ascending(left) && ascending(right) {
        let done = after.take(k + 1);
        assert forall|a: int, b: int| 0 <= a <= b < done.len() implies done[a] <= done[b] by {
            if b == k && a < k {
                assert(before.take(k)[a] <= before.take(k)[k - 1]);
            } else if b < k {
                assert(before.take(k)[a] <= before.take(k)[b]);
            }
        }
    }
}

/// Sorts `vector` in ascending order.
pub fn merge_sort(vector: &mut [i32])
    ensures
        final(vector)@.len() == old(vector)@.len(),
        ascending(final(vector)@),
        final(vector)@.to_multiset() == old(vector)@.to_multiset(),
    decreases old(vector)@.len(),
{
    let mid = vector.len() / 2;
    if mid == 0 {
        return ;
    }
    let ghost given = vector@;
    let (left, right) = vector.split_at_mut(mid);
    merge_sort(left);
    merge_sort(right);
    let left_half = slice_to_vec(left);
    let right_half = slice_to_vec(right);
    merge(left_half.as_slice(), right_half.as_slice(), vector);
    proof {
        assert(given =~= given.subrange(0, mid as int) + given.subrange(
            mid as int,
            given.len() as int,
        ));
        lemma_multiset_commutative(
            given.subrange(0, mid as int),
            given.subrange(mid as int, given.len() as int),
        );
    }
}

} // verus!
