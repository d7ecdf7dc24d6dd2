//! The two in-place moves on a slice that the sorts share.

use crate::rearrange::{exchanged, rotated_right};
use vstd::prelude::*;

verus! {

/// Exchanges the elements at `i` and `j`.
///
/// The two places are borrowed apart by splitting the slice between them,
/// so the exchange is made of operations whose effect is known, and nothing
/// about it is taken on trust.
pub(crate) fn exchange<T>(s: &mut [T], i: usize, j: usize)
    requires
        i < old(s)@.len(),
        j < old(s)@.len(),
    ensures
        final(s)@ == exchanged(old(s)@, i as int, j as int),
{
    if i == j {
        assert(s@ =~= exchanged(s@, i as int, j as int));
        return ;
    }
    let (low, high) = if i < j {
        (i, j)
    } else {
        (j, i)
    };
    let (head, tail) = s.split_at_mut(high);
    let (_, mid) = head.split_at_mut(low);
    core::mem::swap(mid.first_mut().unwrap(), tail.first_mut().unwrap());
    assert(s@ =~= exchanged(old(s)@, i as int, j as int));
}

/// Rotates the range from `lo` to `hi`, both included, one place to the
/// right: the element at `hi` moves to `lo`, and every element between
/// moves one place up.
pub(crate) fn rotate_right_one<T>(s: &mut [T], lo: usize, hi: usize)
    requires
        lo <= hi < old(s)@.len(),
    ensures
        final(s)@ == rotated_right(old(s)@, lo as int, hi as int),
{
    let mut k: usize = hi;
    assert(s@ =~= rotated_right(old(s)@, k as int, hi as int));
    while k > lo
        invariant
            lo <= k <= hi < s@.len(),
            s@.len() == old(s)@.len(),
            s@ == rotated_right(old(s)@, k as int, hi as int),
        decreases k - lo,
    {
        exchange(s, k - 1, k);
        k -= 1;
        assert(s@ =~= rotated_right(old(s)@, k as int, hi as int));
    }
}

} // verus!
