//! The order that the sorts rely on, as a mathematical relation on values,
//! and what it means for a sequence to be sorted by it.

use core::cmp::Ordering;
use vstd::prelude::*;
use vstd::std_specs::cmp::{OrdSpec, PartialOrdSpec};

verus! {

/// The comparisons of `T` are deterministic and consistent with one another,
/// and they order the values of `T` totally: any two values are comparable,
/// and the order is transitive. Values that compare equal need not be the
/// same value.
///
/// This holds of the integer types, and of tuples, references and options
/// built from types of which it holds.
pub open spec fn total_order<T: Ord>() -> bool {
    vstd::laws_cmp::obeys_cmp::<T>()
}

/// `a` is not greater than `b`.
pub open spec fn le<T: Ord>(a: T, b: T) -> bool {
    a.cmp_spec(&b) != Ordering::Greater
}

/// `a` and `b` compare equal: neither is greater than the other.
pub open spec fn equivalent<T: Ord>(a: T, b: T) -> bool {
    le(a, b) && le(b, a)
}

/// No element of `s` is greater than an element that comes after it.
pub open spec fn sorted<T: Ord>(s: Seq<T>) -> bool {
    forall|i: int, j: int| 0 <= i < j < s.len() ==> #[trigger] le(s[i], s[j])
}

/// Under a total order, `le` is reflexive, total and transitive, and the
/// comparison operators of `T` decide it: `a <= b` is `le(a, b)` and
/// `a > b` is `!le(a, b)`.
pub proof fn lemma_order_laws<T: Ord>()
    requires
        total_order::<T>(),
    ensures
        forall|a: T| #[trigger] le(a, a),
        forall|a: T, b: T| #[trigger] le(a, b) || le(b, a),
        forall|a: T, b: T, c: T| #[trigger] le(a, b) && #[trigger] le(b, c) ==> le(a, c),
        T::obeys_partial_cmp_spec(),
        forall|a: T, b: T| #[trigger] a.partial_cmp_spec(&b) == Some(a.cmp_spec(&b)),
{
    reveal(vstd::laws_cmp::obeys_cmp_ord);
    reveal(vstd::laws_cmp::obeys_cmp_partial_ord);
    reveal(vstd::laws_cmp::obeys_partial_cmp_spec_properties);
    reveal(vstd::laws_eq::obeys_eq_spec_properties);
}

/// What is left of a sorted sequence without its last element is sorted.
pub proof fn lemma_sorted_drop_last<T: Ord>(s: Seq<T>)
    requires
        sorted(s),
        s.len() > 0,
    ensures
        sorted(s.drop_last()),
{
    let rest = s.drop_last();
    assert forall|i: int, j: int| 0 <= i < j < rest.len() implies #[trigger] le(
        rest[i],
        rest[j],
    ) by {
        assert(le(s[i], s[j]));
    }
}

} // verus!
