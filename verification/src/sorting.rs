//! Sorting by the standard library, with what it documents of the result.

use crate::seed::ref_order_of;
use crate::seed::KmerNode;
use vstd::prelude::*;

verus! {

/// Whether the pair `a` is before the pair `b`: by the first parts, and by
/// the second parts where the first are equal.
pub open spec fn pair_before(a: (u32, u32), b: (u32, u32)) -> bool {
    a.0 < b.0 || (a.0 == b.0 && a.1 < b.1)
}

/// `slice::sort` on pairs of integers: the same pairs, in ascending order,
/// which for tuples is the order of the first parts and then of the second.
#[verifier::external_body]
pub(crate) fn sort_pairs(v: &mut Vec<(u32, u32)>)
    ensures
        final(v)@.to_multiset() == old(v)@.to_multiset(),
        forall|a: int, b: int| 0 <= a < b < final(v)@.len() ==> !pair_before(final(v)@[b], final(v)@[a]),
{
    v.sort();
}

/// The anchors of `anchors` whose reference seed has the order `order`.
pub open spec fn with_order(anchors: Seq<(u32, u32)>, seeds_ref: Seq<KmerNode>, order: u32) -> Seq<(u32, u32)> {
    anchors.filter(|a: (u32, u32)| seeds_ref[a.0 as int].order == order)
}

/// `slice::sort_by_key` with the order of the reference seed as the key:
/// the same anchors, in ascending order of the key, and those with the
/// same key in the order they had, since the sort is stable.
#[verifier::external_body]
pub(crate) fn sort_by_ref_order(anchors: &mut Vec<(u32, u32)>, seeds_ref: &Vec<KmerNode>)
    requires
        forall|k: int| 0 <= k < old(anchors)@.len() ==> (#[trigger] old(anchors)@[k]).0 < seeds_ref@.len(),
    ensures
        final(anchors)@.to_multiset() == old(anchors)@.to_multiset(),
        forall|a: int, b: int|
            0 <= a < b < final(anchors)@.len() ==> seeds_ref@[final(anchors)@[a].0 as int].order
                <= seeds_ref@[final(anchors)@[b].0 as int].order,
        forall|order: u32|
            with_order(final(anchors)@, seeds_ref@, order) == with_order(old(anchors)@, seeds_ref@, order),
{
    anchors.sort_by_key(|a| ref_order_of(seeds_ref, a));
}

} // verus!
