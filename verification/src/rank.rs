//! Ranking the anchors by score.

use crate::score::Score;
use std::cmp::Ordering;
use vstd::prelude::*;

verus! {

/// Whether the scored anchor `x` comes before `y`: the higher score first,
/// and of two equal scores the lower index.
pub open spec fn ranks_before(x: (Score, usize), y: (Score, usize)) -> bool {
    x.0 > y.0 || (x.0 == y.0 && x.1 < y.1)
}

/// Whether `order` holds every anchor once with its score, the best first.
pub open spec fn is_ranking(f: Seq<Score>, order: Seq<(Score, usize)>) -> bool {
    &&& order.len() == f.len()
    &&& forall|k: int|
        0 <= k < order.len() ==> (#[trigger] order[k]).1 < f.len() && order[k].0 == f[order[k].1 as int]
    &&& forall|a: int, b: int| 0 <= a < b < order.len() ==> ranks_before(order[a], order[b])
    &&& forall|i: int| 0 <= i < f.len() ==> order.contains((#[trigger] f[i], i as usize))
}

/// The scores have one ranking only.
pub proof fn lemma_ranking_is_unique(f: Seq<Score>, first: Seq<(Score, usize)>, second: Seq<(Score, usize)>)
    requires
        is_ranking(f, first),
        is_ranking(f, second),
    ensures
        first == second,
{
    assert forall|k: int| 0 <= k < first.len() implies first[k] == second[k] by {
        lemma_same_up_to(f, first, second, k);
    }
    assert(first =~= second);
}

/// Two rankings of the same scores agree at every place up to `k`.
proof fn lemma_same_up_to(f: Seq<Score>, first: Seq<(Score, usize)>, second: Seq<(Score, usize)>, k: int)
    requires
        is_ranking(f, first),
        is_ranking(f, second),
        0 <= k < first.len(),
    ensures
        forall|m: int| 0 <= m <= k ==> first[m] == second[m],
    decreases k,
{
    if k > 0 {
        lemma_same_up_to(f, first, second, k - 1);
    }
    lemma_not_before(f, first, second, k);
    lemma_not_before(f, second, first, k);
}

/// Where two rankings agree before the place `k`, what the first holds at
/// `k` does not rank before what the second holds there.
proof fn lemma_not_before(f: Seq<Score>, first: Seq<(Score, usize)>, second: Seq<(Score, usize)>, k: int)
    requires
        is_ranking(f, first),
        is_ranking(f, second),
        0 <= k < first.len(),
        forall|m: int| 0 <= m < k ==> first[m] == second[m],
    ensures
        !ranks_before(first[k], second[k]),
{
    if ranks_before(first[k], second[k]) {
        let i = first[k].1 as int;
        assert(first[k] == (f[i], i as usize));
        assert(second.contains((f[i], i as usize)));
        let m = choose|m: int| 0 <= m < second.len() && second[m] == first[k];
        if m > k {
            assert(ranks_before(second[k], second[m]));
        } else if m < k {
            assert(ranks_before(first[m], first[k]));
        }
    }
}

/// Compares two scored anchors by rank.
pub fn rank_compare(x: &(Score, usize), y: &(Score, usize)) -> (o: Ordering)
    ensures
        o == Ordering::Less <==> ranks_before(*x, *y),
        o == Ordering::Greater <==> ranks_before(*y, *x),
{
    if x.0 > y.0 {
        Ordering::Less
    } else if x.0 < y.0 {
        Ordering::Greater
    } else if x.1 < y.1 {
        Ordering::Less
    } else if x.1 > y.1 {
        Ordering::Greater
    } else {
        Ordering::Equal
    }
}

/// `slice::sort_by` with [`rank_compare`]: the same items, none of them
/// before one that ranks before it.
#[verifier::external_body]
fn sort_by_rank(v: &mut Vec<(Score, usize)>)
    ensures
        final(v)@.to_multiset() == old(v)@.to_multiset(),
        forall|a: int, b: int| 0 <= a < b < final(v)@.len() ==> !ranks_before(final(v)@[b], final(v)@[a]),
{
    v.sort_by(|x, y| rank_compare(x, y));
}

/// The anchors with their scores, the best first.
pub fn rank_scores(f: &Vec<Score>) -> (order: Vec<(Score, usize)>)
    ensures
        is_ranking(f@, order@),
{
    let mut order: Vec<(Score, usize)> = Vec::new();
    let mut i: usize = 0;
    while i < f.len()
        invariant
            i <= f.len(),
            order@.len() == i,
            forall|k: int| 0 <= k < i ==> #[trigger] order@[k] == (f@[k], k as usize),
        decreases f.len() - i,
    {
        order.push((f[i], i));
        i = i + 1;
    }
    let ghost before = order@;
    assert(before.no_duplicates());
    sort_by_rank(&mut order);
    proof {
        broadcast use vstd::seq_lib::group_to_multiset_ensures;

        before.lemma_multiset_has_no_duplicates();
        order@.lemma_multiset_has_no_duplicates_conv();
        assert forall|k: int| 0 <= k < order@.len() implies (#[trigger] order@[k]).1 < f@.len()
            && order@[k].0 == f@[order@[k].1 as int] by {
            assert(order@.to_multiset().count(order@[k]) > 0);
            assert(before.contains(order@[k]));
        }
        assert(order@.len() == before.len()) by {
            assert(order@.to_multiset().len() == before.to_multiset().len());
        }
        assert forall|a: int, b: int| 0 <= a < b < order@.len() implies ranks_before(
            order@[a],
            order@[b],
        ) by {
            assert(order@[a] != order@[b]);
            assert(!ranks_before(order@[b], order@[a]));
        }
        assert forall|i: int| 0 <= i < f@.len() implies order@.contains((#[trigger] f@[i], i as usize)) by {
            assert(before[i] == (f@[i], i as usize));
            assert(before.contains(before[i]));
            assert(order@.to_multiset().count(before[i]) > 0);
        }
    }
    order
}


/// The place of the largest score, the last of several; `None` where
/// there is no score.
pub fn position_max(slice: &Vec<Score>) -> (position: Option<usize>)
    ensures
        position is None <==> slice@.len() == 0,
        position is Some ==> {
            let at = position->Some_0 as int;
            &&& 0 <= at < slice@.len()
            &&& forall|k: int| 0 <= k < slice@.len() ==> slice@[k] <= slice@[at]
            &&& forall|k: int| at < k < slice@.len() ==> slice@[k] < slice@[at]
        },
{
    if slice.len() == 0 {
        return None;
    }
    let mut at: usize = 0;
    let mut i: usize = 1;
    while i < slice.len()
        invariant
            1 <= i <= slice@.len(),
            at < i,
            forall|k: int| 0 <= k < i ==> slice@[k] <= slice@[at as int],
            forall|k: int| at < k < i ==> slice@[k] < slice@[at as int],
        decreases slice@.len() - i,
    {
        if slice[i] >= slice[at] {
            at = i;
        }
        i = i + 1;
    }
    Some(at)
}

/// The place of the score with `n` scores ranked before it.
pub fn position_max_nth(slice: &Vec<Score>, n: usize) -> (position: usize)
    requires
        n < slice@.len(),
    ensures
        exists|order: Seq<(Score, usize)>| #[trigger] is_ranking(slice@, order) && position == order[n as int].1,
{
    let order = rank_scores(slice);
    order[n].1
}

} // verus!
