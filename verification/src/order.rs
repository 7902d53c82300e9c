//! The ordering that the sorting routines and the search tree rely on.
//!
//! `PartialOrd` promises very little, so every contract that speaks of
//! order is stated relative to [`strict_total_order`]: the comparisons of
//! the element type have to behave like those of the integers.

use core::cmp::Ordering;
use vstd::prelude::*;
use vstd::std_specs::cmp::PartialOrdSpec;

verus! {

/// `a` compares strictly below `b`.
pub open spec fn less<T: PartialOrd>(a: T, b: T) -> bool {
    a.partial_cmp_spec(&b) == Some(Ordering::Less)
}

/// `a` compares strictly above `b`.
pub open spec fn greater<T: PartialOrd>(a: T, b: T) -> bool {
    a.partial_cmp_spec(&b) == Some(Ordering::Greater)
}

/// `a` does not compare above `b`.
pub open spec fn at_most<T: PartialOrd>(a: T, b: T) -> bool {
    !less(b, a)
}

/// The comparison operators of `T` do what their specification says, and
/// `<` is a strict total order: irreflexive, transitive, and any two
/// different values are comparable. `>` is its converse.
pub open spec fn strict_total_order<T: PartialOrd>() -> bool {
    &&& T::obeys_partial_cmp_spec()
    &&& forall|a: T, b: T| #[trigger] greater(a, b) <==> less(b, a)
    &&& forall|a: T| !#[trigger] less(a, a)
    &&& forall|a: T, b: T, c: T| #[trigger] less(a, b) && #[trigger] less(b, c) ==> less(a, c)
    &&& forall|a: T, b: T| #[trigger] less(a, b) || less(b, a) || a == b
}

/// No element of `s` compares above one that comes after it.
pub open spec fn sorted<T: PartialOrd>(s: Seq<T>) -> bool {
    forall|i: int, j: int| 0 <= i <= j < s.len() ==> at_most(s[i], s[j])
}

/// The machine integers compare as a strict total order.
pub proof fn integers_are_ordered()
    ensures
        strict_total_order::<u8>(),
        strict_total_order::<u16>(),
        strict_total_order::<u32>(),
        strict_total_order::<u64>(),
        strict_total_order::<usize>(),
        strict_total_order::<i8>(),
        strict_total_order::<i16>(),
        strict_total_order::<i32>(),
        strict_total_order::<i64>(),
        strict_total_order::<isize>(),
{
}

/// On `i32`, a sorted sequence is one that ascends by `<=`.
pub proof fn sorted_integers(s: Seq<i32>)
    ensures
        sorted(s) <==> forall|i: int, j: int| 0 <= i <= j < s.len() ==> s[i] <= s[j],
{
    if sorted(s) {
        assert forall|i: int, j: int| 0 <= i <= j < s.len() implies s[i] <= s[j] by {
            assert(at_most(s[i], s[j]));
        }
    }
}

/// In a strict total order, "not above" is reflexive and transitive, and
/// of two values one is not above the other.
pub proof fn at_most_is_a_total_preorder<T: PartialOrd>(a: T, b: T, c: T)
    requires
        strict_total_order::<T>(),
    ensures
        at_most(a, a),
        at_most(a, b) || at_most(b, a),
        at_most(a, b) && at_most(b, c) ==> at_most(a, c),
        at_most(a, b) && at_most(b, a) ==> a == b,
        less(a, b) ==> at_most(a, b),
{
    if less(a, b) && less(b, a) {
        assert(less(a, a));
    }
    if at_most(a, b) && at_most(b, c) && less(c, a) {
        assert(less(a, b) || less(b, a) || a == b);
        if less(a, b) {
            assert(less(c, b));
        }
    }
    assert(less(a, b) || less(b, a) || a == b);
}

} // verus!
