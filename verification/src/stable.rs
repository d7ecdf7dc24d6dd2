//! Stability: a rearrangement that keeps the elements that compare equal in
//! the order in which they stood.

use crate::order::{
    equivalent, le, lemma_order_laws, lemma_sorted_drop_last, sorted, total_order,
};
use crate::rearrange::{exchanged, rotated_right};
use vstd::prelude::*;

verus! {

/// The property of comparing equal to `v`.
pub open spec fn equal_to<T: Ord>(v: T) -> spec_fn(T) -> bool {
    |x: T| equivalent(x, v)
}

/// The elements of `s` that compare equal to `v`, in the order in which
/// they stand in `s`.
pub open spec fn peers<T: Ord>(s: Seq<T>, v: T) -> Seq<T> {
    s.filter(equal_to(v))
}

/// The elements that compare equal stand in `b` in the order in which they
/// stand in `a`: whatever value is taken, the elements that compare equal to
/// it are the same in both, in the same order.
pub open spec fn stable<T: Ord>(a: Seq<T>, b: Seq<T>) -> bool {
    forall|v: T|
        #![trigger peers(a, v)]
        #![trigger peers(b, v)]
        peers(a, v) == peers(b, v)
}

/// A sequence without an element that compares equal to `v` has no peers
/// of `v`.
pub proof fn lemma_peers_none<T: Ord>(s: Seq<T>, v: T)
    requires
        forall|k: int| 0 <= k < s.len() ==> !equivalent(#[trigger] s[k], v),
    ensures
        peers(s, v) == Seq::<T>::empty(),
    decreases s.len(),
{
    reveal(Seq::filter);
    if s.len() > 0 {
        let rest = s.drop_last();
        assert forall|k: int| 0 <= k < rest.len() implies !equivalent(#[trigger] rest[k], v) by {
            assert(rest[k] == s[k]);
        }
        lemma_peers_none(rest, v);
        assert(!equivalent(s[s.len() - 1], v));
    }
}

/// Rotating a range one place to the right is stable where the element
/// that moves to the front of the range compares equal to none of the
/// elements that it passes.
pub proof fn lemma_rotated_right_stable<T: Ord>(s: Seq<T>, lo: int, hi: int)
    requires
        total_order::<T>(),
        0 <= lo <= hi < s.len(),
        forall|k: int| lo <= k < hi ==> !equivalent(#[trigger] s[k], s[hi]),
    ensures
        stable(s, rotated_right(s, lo, hi)),
{
    let rotated = rotated_right(s, lo, hi);
    let head = s.subrange(0, lo);
    let passed = s.subrange(lo, hi);
    let moved = seq![s[hi]];
    let tail = s.subrange(hi + 1, s.len() as int);
    assert(s =~= head + passed + moved + tail);
    assert(rotated =~= head + moved + passed + tail);
    lemma_order_laws::<T>();
    assert forall|v: T| peers(s, v) == peers(rotated, v) by {
        let p = equal_to(v);
        Seq::filter_distributes_over_add(head + passed + moved, tail, p);
        Seq::filter_distributes_over_add(head + passed, moved, p);
        Seq::filter_distributes_over_add(head, passed, p);
        Seq::filter_distributes_over_add(head + moved + passed, tail, p);
        Seq::filter_distributes_over_add(head + moved, passed, p);
        Seq::filter_distributes_over_add(head, moved, p);
        if equivalent(s[hi], v) {
            assert forall|k: int| 0 <= k < passed.len() implies !equivalent(
                #[trigger] passed[k],
                v,
            ) by {
                assert(!equivalent(s[lo + k], s[hi]));
            }
            lemma_peers_none(passed, v);
        } else {
            lemma_peers_none(moved, v);
        }
        assert(head.filter(p) + passed.filter(p) + moved.filter(p) =~= head.filter(p)
            + moved.filter(p) + passed.filter(p));
    }
}

/// Exchanging two neighbours that do not compare equal is stable.
pub proof fn lemma_exchanged_stable<T: Ord>(s: Seq<T>, i: int)
    requires
        total_order::<T>(),
        0 <= i,
        i + 1 < s.len(),
        !equivalent(s[i], s[i + 1]),
    ensures
        stable(s, exchanged(s, i, i + 1)),
{
    assert(exchanged(s, i, i + 1) =~= rotated_right(s, i, i + 1));
    lemma_rotated_right_stable(s, i, i + 1);
}

/// The peers of `v` in a sequence with one more element at its end.
pub proof fn lemma_peers_push<T: Ord>(s: Seq<T>, x: T, v: T)
    ensures
        peers(s.push(x), v) == if equivalent(x, v) {
            peers(s, v).push(x)
        } else {
            peers(s, v)
        },
{
    s.lemma_filter_push(x, equal_to(v));
}

/// The last element of a sequence is not greater than the last element of
/// a sorted sequence that holds the same elements in a stable order.
proof fn lemma_last_not_less<T: Ord>(a: Seq<T>, b: Seq<T>)
    requires
        total_order::<T>(),
        a.len() == b.len(),
        a.len() > 0,
        sorted(b),
        stable(a, b),
    ensures
        le(a.last(), b.last()),
{
    lemma_order_laws::<T>();
    let v = a.last();
    let a_rest = a.drop_last();
    assert(a =~= a_rest.push(v));
    lemma_peers_push(a_rest, v, v);
    let shared = peers(a, v);
    assert(shared == peers(b, v));
    assert(shared[shared.len() - 1] == v);
    assert(shared.contains(v));
    b.lemma_filter_contains_rev(equal_to(v), v);
    let at = choose|at: int| 0 <= at < b.len() && b[at] == v;
    if at < b.len() - 1 {
        assert(le(b[at], b[b.len() - 1]));
    }
}

/// Two sorted sequences of one length, each a stable rearrangement of the
/// other, are the same sequence: what a stable sort makes of a sequence is
/// determined by the sequence alone.
pub proof fn lemma_stable_sorted_unique<T: Ord>(a: Seq<T>, b: Seq<T>)
    requires
        total_order::<T>(),
        a.len() == b.len(),
        sorted(a),
        sorted(b),
        stable(a, b),
    ensures
        a == b,
    decreases a.len(),
{
    if a.len() == 0 {
        assert(a =~= b);
    } else {
        lemma_order_laws::<T>();
        let a_last = a.last();
        let b_last = b.last();
        let a_rest = a.drop_last();
        let b_rest = b.drop_last();
        assert(a =~= a_rest.push(a_last));
        assert(b =~= b_rest.push(b_last));
        lemma_last_not_less(a, b);
        lemma_last_not_less(b, a);
        assert(a_last == b_last) by {
            lemma_peers_push(a_rest, a_last, a_last);
            lemma_peers_push(b_rest, b_last, a_last);
            let shared = peers(a, a_last);
            assert(shared == peers(b, a_last));
            assert(shared[shared.len() - 1] == a_last);
            assert(shared[shared.len() - 1] == b_last);
        }
        assert forall|v: T|
            #![trigger peers(a_rest, v)]
            #![trigger peers(b_rest, v)]
            peers(a_rest, v) == peers(b_rest, v) by {
            assert(peers(a, v) == peers(b, v));
            lemma_peers_push(a_rest, a_last, v);
            lemma_peers_push(b_rest, b_last, v);
            if equivalent(a_last, v) {
                let pa = peers(a_rest, v);
                let pb = peers(b_rest, v);
                assert(pa.push(a_last) == pb.push(a_last));
                assert(pa =~= pa.push(a_last).drop_last());
                assert(pb =~= pb.push(a_last).drop_last());
            }
        }
        lemma_sorted_drop_last(a);
        lemma_sorted_drop_last(b);
        lemma_stable_sorted_unique(a_rest, b_rest);
    }
}

/// Two stable sorts make the same of every sequence: there is one way only
/// to sort a sequence and keep the elements that compare equal in their
/// order.
pub proof fn lemma_stable_sorts_agree<T: Ord>(s: Seq<T>, first: Seq<T>, second: Seq<T>)
    requires
        total_order::<T>(),
        first.len() == s.len(),
        second.len() == s.len(),
        stable(s, first),
        stable(s, second),
        sorted(first),
        sorted(second),
    ensures
        first == second,
{
    lemma_stable_transitive(first, s, second);
    lemma_stable_sorted_unique(first, second);
}

/// Stability is kept from one step to the next.
pub proof fn lemma_stable_transitive<T: Ord>(a: Seq<T>, b: Seq<T>, c: Seq<T>)
    requires
        stable(a, b),
        stable(b, c),
    ensures
        stable(a, c),
{
    assert forall|v: T| peers(a, v) == peers(c, v) by {
        assert(peers(a, v) == peers(b, v));
        assert(peers(b, v) == peers(c, v));
    }
}

} // verus!
