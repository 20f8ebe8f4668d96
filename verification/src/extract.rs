//! Chain extraction: following the pointers back from the best anchors.
//!
//! The anchors are taken from the best score down. Each one that no emitted
//! chain has consumed is traced back to the anchor that points to itself.
//! The chain is emitted unless its range in the reference overlaps the range
//! of a chain emitted before it.

use crate::fx::set_contains;
use crate::fx::set_insert;
use crate::fx::set_new;
use crate::rank::is_ranking;
use crate::rank::rank_scores;
use crate::score::Score;
use crate::seed::anchors_in_range;
use crate::seed::Anchors;
use crate::seed::Color;
use crate::seed::KmerNode;
use crate::seed::ALL_COLORS;
use fxhash::FxHashSet;
use vstd::prelude::*;

verus! {

broadcast use vstd::std_specs::hash::group_hash_axioms;

/// The least score, in units, that the best chain must reach: 300 points.
pub const CUTOFF_SCORE: Score = 300_000;

/// The scores and pointers of one scoring run, with what they were
/// computed from.
pub struct Scored {
    pub f: Seq<Score>,
    pub pointers: Seq<usize>,
    pub anchors: Seq<(u32, u32)>,
    pub seeds_ref: Seq<KmerNode>,
    pub seeds_q: Seq<KmerNode>,
    pub chain_reads: bool,
}

/// One emitted chain: the indices of its anchors from the last back to the
/// first, its anchors from the first to the last, its ranges of reference
/// and query orders, and its score.
pub struct EmittedChain {
    pub indices: Seq<usize>,
    pub anchors: Seq<(u32, u32)>,
    pub range_ref: (u32, u32),
    pub range_query: (u32, u32),
    pub score: Score,
}

/// The indices from anchor `i` back to the anchor that starts its chain.
pub open spec fn descent(pointers: Seq<usize>, i: usize) -> Seq<usize>
    decreases i,
{
    if 0 <= i < pointers.len() && pointers[i as int] < i {
        seq![i] + descent(pointers, pointers[i as int])
    } else {
        seq![i]
    }
}

/// Whether a score is below nine tenths of the best score.
pub open spec fn below_cutoff(score: Score, best: Score) -> bool {
    10 * score < 9 * best
}

/// Whether two ranges of reference orders overlap: the first of `range`
/// lies in `other`, or the first of `other` lies in `range`.
pub open spec fn overlaps(range: (u32, u32), other: (u32, u32)) -> bool {
    (other.0 <= range.0 <= other.1) || (range.0 <= other.0 <= range.1)
}

/// Whether `range` overlaps the range of one of the chains in `out`.
pub open spec fn is_secondary(out: Seq<EmittedChain>, range: (u32, u32)) -> bool {
    exists|k: int| 0 <= k < out.len() && overlaps(range, #[trigger] out[k].range_ref)
}

/// Whether anchor `i` belongs to one of the chains in `out`.
pub open spec fn consumed(out: Seq<EmittedChain>, i: usize) -> bool {
    exists|k: int| 0 <= k < out.len() && (#[trigger] out[k]).indices.contains(i)
}

impl Scored {
    /// There is a score, a pointer and an anchor for every index, no
    /// pointer points forward, and every anchor names seeds that exist.
    pub open spec fn well_formed(self) -> bool {
        &&& self.f.len() == self.anchors.len()
        &&& self.pointers.len() == self.anchors.len()
        &&& forall|i: int| 0 <= i < self.pointers.len() ==> #[trigger] self.pointers[i] <= i
        &&& anchors_in_range(self.anchors, self.seeds_ref.len(), self.seeds_q.len())
    }

    /// The reference order of anchor `i`.
    pub open spec fn ref_order(self, i: int) -> u32 {
        self.seeds_ref[self.anchors[i].0 as int].order
    }

    /// The query order of anchor `i`.
    pub open spec fn query_order(self, i: int) -> u32 {
        self.seeds_q[self.anchors[i].1 as int].order
    }

    /// The chain that ends in anchor `i`.
    pub open spec fn chain_at(self, i: usize) -> EmittedChain {
        let indices = descent(self.pointers, i);
        let first = indices.last() as int;
        EmittedChain {
            indices,
            anchors: Seq::new(indices.len(), |k: int| self.anchors[indices[indices.len() - 1 - k] as int]),
            range_ref: (self.ref_order(first), self.ref_order(i as int)),
            range_query: (self.query_order(first), self.query_order(i as int)),
            score: self.f[i as int],
        }
    }

    /// The chains that are emitted from rank `k` on, after `out`.
    pub open spec fn extract_from(self, order: Seq<(Score, usize)>, k: int, out: Seq<EmittedChain>) -> Seq<
        EmittedChain,
    >
        decreases order.len() - k,
    {
        if k < 0 || k >= order.len() {
            out
        } else if k > 0 && !self.chain_reads {
            out
        } else if consumed(out, order[k].1) {
            self.extract_from(order, k + 1, out)
        } else if below_cutoff(order[k].0, order[0].0) {
            out
        } else if is_secondary(out, self.chain_at(order[k].1).range_ref) {
            self.extract_from(order, k + 1, out)
        } else {
            self.extract_from(order, k + 1, out.push(self.chain_at(order[k].1)))
        }
    }

    /// The chains that are emitted: none where the best score is below the
    /// cutoff.
    pub open spec fn best_chains(self, order: Seq<(Score, usize)>) -> Seq<EmittedChain> {
        if order.len() == 0 || order[0].0 < CUTOFF_SCORE {
            Seq::empty()
        } else {
            self.extract_from(order, 0, Seq::empty())
        }
    }
}

/// Whether the returned chains are the emitted chains.
pub open spec fn chains_match(
    chains: Seq<(Anchors, (u32, u32), (u32, u32), Score)>,
    out: Seq<EmittedChain>,
) -> bool {
    &&& chains.len() == out.len()
    &&& forall|k: int|
        0 <= k < chains.len() ==> {
            &&& (#[trigger] chains[k]).0@ == out[k].anchors
            &&& chains[k].1 == out[k].range_ref
            &&& chains[k].2 == out[k].range_query
            &&& chains[k].3 == out[k].score
        }
}

/// The indices of a descent are in range, and each is the pointer of the
/// one before it.
pub proof fn lemma_descent(pointers: Seq<usize>, i: usize)
    requires
        0 <= i < pointers.len(),
        forall|k: int| 0 <= k < pointers.len() ==> #[trigger] pointers[k] <= k,
    ensures
        descent(pointers, i).len() >= 1,
        descent(pointers, i)[0] == i,
        forall|m: int| 0 <= m < descent(pointers, i).len() ==> #[trigger] descent(pointers, i)[m] <= i,
        forall|m: int|
            0 <= m < descent(pointers, i).len() - 1 ==> #[trigger] descent(pointers, i)[m + 1]
                == pointers[descent(pointers, i)[m] as int] && descent(pointers, i)[m + 1] < descent(
                pointers,
                i,
            )[m],
        pointers[descent(pointers, i).last() as int] == descent(pointers, i).last(),
    decreases i,
{
    if pointers[i as int] < i {
        let rest = descent(pointers, pointers[i as int]);
        lemma_descent(pointers, pointers[i as int]);
        let d = descent(pointers, i);
        assert(d == seq![i] + rest);
        assert forall|m: int| 0 <= m < d.len() - 1 implies #[trigger] d[m + 1] == pointers[d[m] as int]
            && d[m + 1] < d[m] by {
            if m > 0 {
                assert(d[m + 1] == rest[m - 1 + 1]);
                assert(d[m] == rest[m - 1]);
            }
        }
    }
}

/// Whether `score` is below nine tenths of `best`.
fn is_below_cutoff(score: Score, best: Score) -> (below: bool)
    requires
        best > 0,
    ensures
        below == below_cutoff(score, best),
{
    if score < 0 {
        true
    } else if score >= best {
        false
    } else {
        best - score > best / 10
    }
}

/// The indices from anchor `start` back to the start of its chain.
fn trace_back(pointer_array: &Vec<usize>, start: usize) -> (chain_sequence: Vec<usize>)
    requires
        start < pointer_array@.len(),
        forall|k: int| 0 <= k < pointer_array@.len() ==> #[trigger] pointer_array@[k] <= k,
    ensures
        chain_sequence@ == descent(pointer_array@, start),
{
    let mut chain_sequence: Vec<usize> = Vec::new();
    let mut curr_i = start;
    let mut prev_i = pointer_array[curr_i];
    chain_sequence.push(curr_i);
    while curr_i != prev_i
        invariant
            curr_i < pointer_array@.len(),
            prev_i == pointer_array@[curr_i as int],
            forall|k: int| 0 <= k < pointer_array@.len() ==> #[trigger] pointer_array@[k] <= k,
            chain_sequence@.len() >= 1,
            chain_sequence@.last() == curr_i,
            descent(pointer_array@, start) == chain_sequence@.drop_last() + descent(
                pointer_array@,
                curr_i,
            ),
        decreases curr_i,
    {
        let ghost before = chain_sequence@;
        chain_sequence.push(prev_i);
        assert(chain_sequence@.drop_last() == before);
        assert(before == before.drop_last() + seq![curr_i]);
        assert(before.drop_last() + (seq![curr_i] + descent(pointer_array@, prev_i)) == (
            before.drop_last() + seq![curr_i]) + descent(pointer_array@, prev_i));
        curr_i = prev_i;
        prev_i = pointer_array[curr_i];
    }
    assert(chain_sequence@ == chain_sequence@.drop_last() + seq![curr_i]);
    chain_sequence
}

/// The chains of one scoring run, the best first.
///
/// No chain is emitted where there is no score or the best score is below
/// 300 points. In genome
/// mode (`chain_reads` false) only the best anchor is tried. In read mode
/// the anchors are tried from the best down, until one scores below nine
/// tenths of the best.
pub fn get_best_chains(
    f: Vec<Score>,
    pointer_array: Vec<usize>,
    anchors: &Anchors,
    seeds_ref: &Vec<KmerNode>,
    seeds_q: &Vec<KmerNode>,
    chain_reads: bool,
) -> (chains: Vec<(Anchors, (u32, u32), (u32, u32), Score)>)
    requires
        (Scored {
            f: f@,
            pointers: pointer_array@,
            anchors: anchors@,
            seeds_ref: seeds_ref@,
            seeds_q: seeds_q@,
            chain_reads,
        }).well_formed() || forall|i: int| 0 <= i < f@.len() ==> f@[i] < CUTOFF_SCORE,
    ensures
        exists|order: Seq<(Score, usize)>|
            is_ranking(f@, order) && chains_match(
                chains@,
                #[trigger] (Scored {
                    f: f@,
                    pointers: pointer_array@,
                    anchors: anchors@,
                    seeds_ref: seeds_ref@,
                    seeds_q: seeds_q@,
                    chain_reads,
                }).best_chains(order),
            ),
{
    let order = rank_scores(&f);
    let chains = extract_chains(&order, &f, &pointer_array, anchors, seeds_ref, seeds_q, chain_reads);
    chains
}

/// The chains of one scoring run, from the anchors in the order of their
/// rank.
pub fn extract_chains(
    order: &Vec<(Score, usize)>,
    f: &Vec<Score>,
    pointer_array: &Vec<usize>,
    anchors: &Anchors,
    seeds_ref: &Vec<KmerNode>,
    seeds_q: &Vec<KmerNode>,
    chain_reads: bool,
) -> (chains: Vec<(Anchors, (u32, u32), (u32, u32), Score)>)
    requires
        is_ranking(f@, order@),
        (Scored {
            f: f@,
            pointers: pointer_array@,
            anchors: anchors@,
            seeds_ref: seeds_ref@,
            seeds_q: seeds_q@,
            chain_reads,
        }).well_formed() || forall|i: int| 0 <= i < f@.len() ==> f@[i] < CUTOFF_SCORE,
    ensures
        chains_match(
            chains@,
            (Scored {
                f: f@,
                pointers: pointer_array@,
                anchors: anchors@,
                seeds_ref: seeds_ref@,
                seeds_q: seeds_q@,
                chain_reads,
            }).best_chains(order@),
        ),
{
    let ghost s = Scored {
        f: f@,
        pointers: pointer_array@,
        anchors: anchors@,
        seeds_ref: seeds_ref@,
        seeds_q: seeds_q@,
        chain_reads,
    };
    let mut return_chains: Vec<(Anchors, (u32, u32), (u32, u32), Score)> = Vec::new();
    if order.len() == 0 {
        return return_chains;
    }
    let best_chain_score = order[0].0;
    if best_chain_score < CUTOFF_SCORE {
        return return_chains;
    }
    assert(s.well_formed()) by {
        assert(f@[order@[0].1 as int] >= CUTOFF_SCORE);
    }
    let mut already_used_anchors: FxHashSet<usize> = set_new();
    let ghost mut out: Seq<EmittedChain> = Seq::empty();
    let mut k: usize = 0;
    while k < order.len()
        invariant_except_break
            s.best_chains(order@) == s.extract_from(order@, k as int, out),
        invariant
            s == (Scored {
                f: f@,
                pointers: pointer_array@,
                anchors: anchors@,
                seeds_ref: seeds_ref@,
                seeds_q: seeds_q@,
                chain_reads,
            }),
            s.well_formed(),
            is_ranking(f@, order@),
            best_chain_score == order@[0].0,
            best_chain_score >= CUTOFF_SCORE,
            k <= order@.len(),
            chains_match(return_chains@, out),
            forall|i: usize|
                #![trigger already_used_anchors@.contains(i)]
                already_used_anchors@.contains(i) <==> consumed(out, i),
        ensures
            s.best_chains(order@) == out,
        decreases order@.len() - k,
    {
        if k > 0 && !chain_reads {
            break ;
        }
        let curr_i = order[k].1;
        let ith_score = order[k].0;
        if set_contains(&already_used_anchors, &curr_i) {
            k = k + 1;
            continue ;
        }
        if is_below_cutoff(ith_score, best_chain_score) {
            break ;
        }
        let chain_sequence = trace_back(pointer_array, curr_i);
        proof {
            lemma_descent(pointer_array@, curr_i);
        }
        let ghost chain = s.chain_at(curr_i);
        let len = chain_sequence.len();
        let first_i = chain_sequence[len - 1];
        let first_anchor = anchors[first_i];
        let last_anchor = anchors[curr_i];
        let chain_start_ref = seeds_ref[first_anchor.0 as usize].order;
        let chain_end_ref = seeds_ref[last_anchor.0 as usize].order;
        let mut secondary = false;
        let mut t: usize = 0;
        while t < return_chains.len()
            invariant
                t <= return_chains@.len(),
                chains_match(return_chains@, out),
                secondary <==> exists|m: int|
                    0 <= m < t && overlaps((chain_start_ref, chain_end_ref), #[trigger] out[m].range_ref),
            decreases return_chains@.len() - t,
        {
            let range_ref = return_chains[t].1;
            assert(range_ref == out[t as int].range_ref);
            if chain_start_ref >= range_ref.0 && chain_start_ref <= range_ref.1 {
                secondary = true;
            }
            if range_ref.0 >= chain_start_ref && range_ref.0 <= chain_end_ref {
                secondary = true;
            }
            t = t + 1;
        }
        assert(secondary == is_secondary(out, chain.range_ref));
        if secondary {
            k = k + 1;
            continue ;
        }
        let mut best_seq_anchors: Anchors = Vec::new();
        let mut m: usize = len;
        while m > 0
            invariant
                m <= len,
                len == chain_sequence@.len(),
                chain_sequence@ == chain.indices,
                forall|j: int| 0 <= j < len ==> #[trigger] chain_sequence@[j] < anchors@.len(),
                best_seq_anchors@.len() == len - m,
                forall|j: int|
                    0 <= j < len - m ==> #[trigger] best_seq_anchors@[j] == anchors@[chain_sequence@[len - 1
                        - j] as int],
            decreases m,
        {
            m = m - 1;
            best_seq_anchors.push(anchors[chain_sequence[m]]);
        }
        assert(best_seq_anchors@ =~= chain.anchors);
        let mut u: usize = 0;
        let ghost used_before = already_used_anchors@;
        assert(forall|i: usize| #![trigger used_before.contains(i)] used_before.contains(i) <==> consumed(out, i));
        while u < len
            invariant
                u <= len,
                len == chain_sequence@.len(),
                forall|i: usize|
                    #![trigger already_used_anchors@.contains(i)]
                    already_used_anchors@.contains(i) <==> (used_before.contains(i)
                        || chain_sequence@.take(u as int).contains(i)),
            decreases len - u,
        {
            let ghost prev = already_used_anchors@;
            set_insert(&mut already_used_anchors, chain_sequence[u]);
            proof {
                let a = chain_sequence@.take(u as int);
                let b = chain_sequence@.take(u + 1);
                assert(b == a.push(chain_sequence@[u as int]));
                assert forall|i: usize|
                    #![trigger already_used_anchors@.contains(i)]
                    already_used_anchors@.contains(i) <==> (used_before.contains(i) || b.contains(
                        i,
                    )) by {
                    assert(already_used_anchors@ == prev.insert(chain_sequence@[u as int]));
                    assert(prev.contains(i) <==> used_before.contains(i) || a.contains(i));
                    if a.contains(i) {
                        let j = choose|j: int| 0 <= j < a.len() && a[j] == i;
                        assert(b[j] == i);
                    }
                    if i == chain_sequence@[u as int] {
                        assert(b[u as int] == i);
                    }
                    if b.contains(i) {
                        let j = choose|j: int| 0 <= j < b.len() && b[j] == i;
                        if j < u {
                            assert(a[j] == i);
                        }
                    }
                }
            }
            u = u + 1;
        }
        assert(chain_sequence@.take(len as int) == chain_sequence@);
        assert(forall|i: usize|
            #![trigger already_used_anchors@.contains(i)]
            already_used_anchors@.contains(i) <==> (used_before.contains(i) || chain_sequence@.contains(
                i,
            )));
        let range_ref = (chain_start_ref, chain_end_ref);
        let range_query = (seeds_q[first_anchor.1 as usize].order, seeds_q[last_anchor.1 as usize].order);
        return_chains.push((best_seq_anchors, range_ref, range_query, ith_score));
        proof {
            let out_before = out;
            out = out.push(chain);
            assert forall|i: usize|
                #![trigger already_used_anchors@.contains(i)]
                already_used_anchors@.contains(i) <==> consumed(out, i) by {
                if consumed(out, i) {
                    let w = choose|w: int| 0 <= w < out.len() && (#[trigger] out[w]).indices.contains(i);
                    if w < out_before.len() {
                        assert(out_before[w].indices.contains(i));
                        assert(consumed(out_before, i));
                        assert(used_before.contains(i));
                    } else {
                        assert(out[w] == chain);
                        assert(chain_sequence@.contains(i));
                    }
                    assert(already_used_anchors@.contains(i));
                }
                if already_used_anchors@.contains(i) {
                    if used_before.contains(i) {
                        assert(consumed(out_before, i));
                        let w = choose|w: int|
                            0 <= w < out_before.len() && (#[trigger] out_before[w]).indices.contains(i);
                        assert(out[w].indices.contains(i));
                    } else {
                        assert(chain.indices.contains(i));
                        assert(out[out_before.len() as int].indices.contains(i));
                    }
                }
            }
        }
        k = k + 1;
    }
    return_chains
}

/// The genomes that every anchor of a chain shares, or every genome where
/// they share none.
pub open spec fn coherent_color_spec(anchors: Seq<(u32, u32)>, seeds_ref: Seq<KmerNode>) -> Color {
    let shared = shared_color(anchors, seeds_ref);
    if shared == 0 {
        ALL_COLORS
    } else {
        shared
    }
}

/// The intersection of the colors of the reference nodes of `anchors`.
pub open spec fn shared_color(anchors: Seq<(u32, u32)>, seeds_ref: Seq<KmerNode>) -> Color
    decreases anchors.len(),
{
    if anchors.len() == 0 {
        ALL_COLORS
    } else {
        shared_color(anchors.drop_last(), seeds_ref) & seeds_ref[anchors.last().0 as int].color
    }
}

/// The coherent color of a chain.
pub fn coherent_color(anchors: &Anchors, seeds_ref: &Vec<KmerNode>) -> (color: Color)
    requires
        forall|k: int| 0 <= k < anchors@.len() ==> (#[trigger] anchors@[k]).0 < seeds_ref@.len(),
    ensures
        color == coherent_color_spec(anchors@, seeds_ref@),
{
    let mut shared: Color = ALL_COLORS;
    let mut k: usize = 0;
    while k < anchors.len()
        invariant
            k <= anchors@.len(),
            forall|j: int| 0 <= j < anchors@.len() ==> (#[trigger] anchors@[j]).0 < seeds_ref@.len(),
            shared == shared_color(anchors@.take(k as int), seeds_ref@),
        decreases anchors@.len() - k,
    {
        assert(anchors@.take(k + 1).drop_last() == anchors@.take(k as int));
        shared = shared & seeds_ref[anchors[k].0 as usize].color;
        k = k + 1;
    }
    assert(anchors@.take(k as int) == anchors@);
    if shared == 0 {
        ALL_COLORS
    } else {
        shared
    }
}

} // verus!
