//! What holds of every chain that the chainers emit.

use crate::chainer::effective_query;
use crate::chainer::flipped;
use crate::chainer::is_round;
use crate::chainer::lemma_flipped_twice;
use crate::chainer::round_chains;
use crate::chainer::ChainSetup;
use crate::chainer::Round;
use crate::extract::below_cutoff;
use crate::extract::descent;
use crate::extract::is_secondary;
use crate::extract::lemma_descent;
use crate::extract::overlaps;
use crate::extract::EmittedChain;
use crate::extract::Scored;
use crate::extract::CUTOFF_SCORE;
use crate::fine::lemma_exact_link;
use crate::fine::lemma_windowed_link;
use crate::fine::ChainProblem;
use crate::rank::is_ranking;
use crate::path::consistent;
use crate::path::PathInput;
use crate::score::modulo_n_spec;
use crate::score::Score;
use crate::seed::anchors_in_range;
use crate::seed::orders_in_range;
use crate::seed::Color;
use crate::seed::KmerNode;
use vstd::prelude::*;

verus! {

/// Whether the chain `c` is the chain that ends in one of the ranked
/// anchors, whose score is not below nine tenths of the best score.
pub open spec fn sourced(s: Scored, order: Seq<(Score, usize)>, c: EmittedChain) -> bool {
    exists|r: int|
        0 <= r < order.len() && c == s.chain_at(#[trigger] order[r].1) && !below_cutoff(order[r].0, order[0].0)
}

/// Whether every chain of `out` is sourced.
pub open spec fn all_sourced(s: Scored, order: Seq<(Score, usize)>, out: Seq<EmittedChain>) -> bool {
    forall|k: int| 0 <= k < out.len() ==> sourced(s, order, #[trigger] out[k])
}

/// Whether no chain of `out` overlaps, in the reference, one before it.
pub open spec fn none_overlap(out: Seq<EmittedChain>) -> bool {
    forall|a: int, b: int|
        0 <= a < b < out.len() ==> !overlaps((#[trigger] out[b]).range_ref, (#[trigger] out[a]).range_ref)
}

/// The extraction keeps what is emitted, adds only sourced chains and
/// never one that overlaps an earlier one.
pub proof fn lemma_extract(s: Scored, order: Seq<(Score, usize)>, k: int, out: Seq<EmittedChain>)
    requires
        0 <= k,
        all_sourced(s, order, out),
        none_overlap(out),
    ensures
        all_sourced(s, order, s.extract_from(order, k, out)),
        none_overlap(s.extract_from(order, k, out)),
        s.extract_from(order, k, out).len() >= out.len(),
        forall|j: int| 0 <= j < out.len() ==> s.extract_from(order, k, out)[j] == out[j],
    decreases order.len() - k,
{
    if k >= order.len() || (k > 0 && !s.chain_reads) {
    } else if crate::extract::consumed(out, order[k].1) {
        lemma_extract(s, order, k + 1, out);
    } else if below_cutoff(order[k].0, order[0].0) {
    } else {
        let chain = s.chain_at(order[k].1);
        if is_secondary(out, chain.range_ref) {
            lemma_extract(s, order, k + 1, out);
        } else {
            let next = out.push(chain);
            assert(sourced(s, order, chain));
            assert forall|j: int| 0 <= j < next.len() implies sourced(s, order, #[trigger] next[j]) by {
                if j < out.len() {
                    assert(next[j] == out[j]);
                }
            }
            assert forall|a: int, b: int| 0 <= a < b < next.len() implies !overlaps(
                (#[trigger] next[b]).range_ref,
                (#[trigger] next[a]).range_ref,
            ) by {
                if b < out.len() {
                    assert(next[a] == out[a] && next[b] == out[b]);
                } else {
                    assert(next[a] == out[a]);
                }
            }
            lemma_extract(s, order, k + 1, next);
            assert forall|j: int| 0 <= j < out.len() implies s.extract_from(order, k, out)[j] == out[j] by {
                assert(next[j] == out[j]);
            }
        }
    }
}

/// Every emitted chain ends in an anchor whose score is the score of the
/// chain and is not below nine tenths of the best score, which is at
/// least the cutoff; and no emitted chain overlaps, in the reference, one
/// emitted before it.
pub proof fn lemma_best_chains(s: Scored, order: Seq<(Score, usize)>)
    requires
        is_ranking(s.f, order),
    ensures
        all_sourced(s, order, s.best_chains(order)),
        none_overlap(s.best_chains(order)),
        s.best_chains(order).len() > 0 ==> order[0].0 >= CUTOFF_SCORE,
        forall|k: int|
            0 <= k < s.best_chains(order).len() ==> !below_cutoff(
                (#[trigger] s.best_chains(order)[k]).score,
                order[0].0,
            ),
{
    if order.len() > 0 && order[0].0 >= CUTOFF_SCORE {
        lemma_extract(s, order, 0, Seq::empty());
        assert forall|k: int| 0 <= k < s.best_chains(order).len() implies !below_cutoff(
            (#[trigger] s.best_chains(order)[k]).score,
            order[0].0,
        ) by {
            assert(sourced(s, order, s.best_chains(order)[k]));
        }
    }
}


/// The best chain comes first: where a chain is emitted, the first one
/// has the best score.
pub proof fn lemma_best_chain_is_first(s: Scored, order: Seq<(Score, usize)>)
    requires
        is_ranking(s.f, order),
        s.best_chains(order).len() > 0,
    ensures
        s.best_chains(order)[0].score == order[0].0,
        s.best_chains(order)[0] == s.chain_at(order[0].1),
{
    let first = s.chain_at(order[0].1);
    let empty = Seq::<EmittedChain>::empty();
    assert(!crate::extract::consumed(empty, order[0].1));
    assert(!is_secondary(empty, first.range_ref));
    assert(!below_cutoff(order[0].0, order[0].0));
    let next = empty.push(first);
    assert(all_sourced(s, order, next)) by {
        assert(sourced(s, order, first));
    }
    lemma_extract(s, order, 1, next);
    assert(next[0] == first);
}

/// Score threshold: every emitted chain scores at least nine tenths of the
/// best score and at least the cutoff, where no anchor scores between
/// nine tenths of the best score and the cutoff.
pub proof fn lemma_score_threshold(s: Scored, order: Seq<(Score, usize)>, k: int)
    requires
        is_ranking(s.f, order),
        0 <= k < s.best_chains(order).len(),
        forall|i: int|
            0 <= i < s.f.len() ==> below_cutoff(#[trigger] s.f[i], order[0].0) || s.f[i] >= CUTOFF_SCORE,
    ensures
        !below_cutoff(s.best_chains(order)[k].score, order[0].0),
        s.best_chains(order)[k].score >= CUTOFF_SCORE,
        s.best_chains(order)[0].score == order[0].0,
{
    lemma_best_chains(s, order);
    lemma_best_chain_is_first(s, order);
    let c = s.best_chains(order)[k];
    assert(sourced(s, order, c));
    let r = choose|r: int|
        0 <= r < order.len() && c == s.chain_at(#[trigger] order[r].1) && !below_cutoff(order[r].0, order[0].0);
    assert(order[r].1 < s.f.len());
    assert(c.score == s.f[order[r].1 as int]);
}

/// Whether the anchors are sorted by the order of their reference seed.
pub open spec fn sorted_by_ref(s: Scored) -> bool {
    forall|a: int, b: int| 0 <= a <= b < s.anchors.len() ==> s.ref_order(a) <= s.ref_order(b)
}

/// Non-overlap: where the anchors are sorted by reference order, the
/// reference ranges of two emitted chains have no order in common.
pub proof fn lemma_non_overlap(s: Scored, order: Seq<(Score, usize)>, a: int, b: int)
    requires
        is_ranking(s.f, order),
        s.well_formed(),
        sorted_by_ref(s),
        0 <= a < b < s.best_chains(order).len(),
    ensures
        s.best_chains(order)[a].range_ref.0 <= s.best_chains(order)[a].range_ref.1,
        s.best_chains(order)[b].range_ref.0 <= s.best_chains(order)[b].range_ref.1,
        s.best_chains(order)[a].range_ref.1 < s.best_chains(order)[b].range_ref.0 || s.best_chains(
            order,
        )[b].range_ref.1 < s.best_chains(order)[a].range_ref.0,
{
    lemma_best_chains(s, order);
    let out = s.best_chains(order);
    lemma_range_is_ordered(s, order, out[a]);
    lemma_range_is_ordered(s, order, out[b]);
    assert(!overlaps(out[b].range_ref, out[a].range_ref));
}

/// The reference range of a sourced chain starts at or before its end.
proof fn lemma_range_is_ordered(s: Scored, order: Seq<(Score, usize)>, c: EmittedChain)
    requires
        is_ranking(s.f, order),
        s.well_formed(),
        sorted_by_ref(s),
        sourced(s, order, c),
    ensures
        c.range_ref.0 <= c.range_ref.1,
{
    let r = choose|r: int|
        0 <= r < order.len() && c == s.chain_at(#[trigger] order[r].1) && !below_cutoff(order[r].0, order[0].0);
    let i = order[r].1;
    assert(i < s.f.len());
    lemma_descent(s.pointers, i);
    let d = descent(s.pointers, i);
    assert(d[d.len() - 1] <= i);
}

/// Two neighbours in an emitted chain are an anchor and the anchor that
/// its pointer names, which is an earlier one.
pub proof fn lemma_chain_links(s: Scored, order: Seq<(Score, usize)>, c: int, k: int)
    requires
        is_ranking(s.f, order),
        s.well_formed(),
        0 <= c < s.best_chains(order).len(),
        0 <= k < s.best_chains(order)[c].anchors.len() - 1,
    ensures
        exists|i: int|
            0 <= i < s.anchors.len() && s.pointers[i] < i && #[trigger] s.anchors[i] == s.best_chains(
                order,
            )[c].anchors[k + 1] && s.anchors[s.pointers[i] as int] == s.best_chains(order)[c].anchors[k],
{
    lemma_best_chains(s, order);
    let chain = s.best_chains(order)[c];
    assert(sourced(s, order, chain));
    let r = choose|r: int|
        0 <= r < order.len() && chain == s.chain_at(#[trigger] order[r].1) && !below_cutoff(
            order[r].0,
            order[0].0,
        );
    let end = order[r].1;
    assert(end < s.f.len());
    lemma_descent(s.pointers, end);
    let d = descent(s.pointers, end);
    let m = d.len() - 2 - k;
    assert(d[m + 1] == s.pointers[d[m] as int] && d[m + 1] < d[m]);
    assert(d[m] <= end);
    let i = d[m] as int;
    assert(s.anchors[i] == chain.anchors[k + 1]);
    assert(s.anchors[s.pointers[i] as int] == chain.anchors[k]);
}

/// Monotonic chain validity in the windowed mode: of two neighbours in
/// an emitted chain the first is before the second in the reference and
/// in the query, and their colors share a genome.
pub proof fn lemma_monotonic_chain(p: ChainProblem, r: Round, c: int, k: int)
    requires
        p.windowed,
        !p.coarse,
        is_round(p, r),
        0 <= c < round_chains(p, r).len(),
        0 <= k < round_chains(p, r)[c].anchors.len() - 1,
        anchors_in_range(p.anchors, p.seeds_ref.len(), p.seeds_q.len()),
    ensures
        ({
            let before = round_chains(p, r)[c].anchors[k];
            let after = round_chains(p, r)[c].anchors[k + 1];
            &&& p.seeds_ref[before.0 as int].order < p.seeds_ref[after.0 as int].order
            &&& p.seeds_q[before.1 as int].order < p.seeds_q[after.1 as int].order
            &&& p.seeds_ref[before.0 as int].color & p.seeds_ref[after.0 as int].color != 0
        }),
{
    let s = round_state(p, r);
    lemma_round_state(p, r);
    lemma_chain_links(s, r.order, c, k);
    let chain = s.best_chains(r.order)[c];
    let i = choose|i: int|
        0 <= i < s.anchors.len() && s.pointers[i] < i && #[trigger] s.anchors[i] == chain.anchors[k + 1]
            && s.anchors[s.pointers[i] as int] == chain.anchors[k];
    lemma_windowed_link(p, r.f, r.pointers, i);
}

/// Chain validity in the exact mode: of two neighbours in an emitted
/// chain the first is before the second in the query, counted from the
/// modulo position.
pub proof fn lemma_exact_chain(p: ChainProblem, r: Round, c: int, k: int)
    requires
        !p.windowed,
        !p.coarse,
        is_round(p, r),
        0 <= c < round_chains(p, r).len(),
        0 <= k < round_chains(p, r)[c].anchors.len() - 1,
        anchors_in_range(p.anchors, p.seeds_ref.len(), p.seeds_q.len()),
    ensures
        ({
            let before = round_chains(p, r)[c].anchors[k];
            let after = round_chains(p, r)[c].anchors[k + 1];
            modulo_n_spec(
                p.seeds_q[before.1 as int].order as int,
                p.seeds_q.len() as int,
                p.modulo_positions.1 as int,
            ) < modulo_n_spec(
                p.seeds_q[after.1 as int].order as int,
                p.seeds_q.len() as int,
                p.modulo_positions.1 as int,
            )
        }),
{
    let s = round_state(p, r);
    lemma_round_state(p, r);
    lemma_chain_links(s, r.order, c, k);
    let chain = s.best_chains(r.order)[c];
    let i = choose|i: int|
        0 <= i < s.anchors.len() && s.pointers[i] < i && #[trigger] s.anchors[i] == chain.anchors[k + 1]
            && s.anchors[s.pointers[i] as int] == chain.anchors[k];
    lemma_exact_link(p, r.f, r.pointers, i);
}

/// Chain validity in the coarse mode: of two neighbours in an emitted
/// chain the first is before the second in the reference and, by its
/// position counted along the strand, in the read, and their colors share
/// a genome.
pub proof fn lemma_coarse_chain(p: ChainProblem, r: Round, c: int, k: int)
    requires
        p.coarse,
        is_round(p, r),
        0 <= c < round_chains(p, r).len(),
        0 <= k < round_chains(p, r)[c].anchors.len() - 1,
        anchors_in_range(p.anchors, p.seeds_ref.len(), p.seeds_q.len()),
    ensures
        ({
            let before = round_chains(p, r)[c].anchors[k];
            let after = round_chains(p, r)[c].anchors[k + 1];
            &&& p.seeds_ref[before.0 as int].order < p.seeds_ref[after.0 as int].order
            &&& p.seeds_ref[before.0 as int].color & p.seeds_ref[after.0 as int].color != 0
            &&& p.forward ==> p.seeds_q[before.1 as int].actual_ref_positions@[0]
                < p.seeds_q[after.1 as int].actual_ref_positions@[0]
            &&& !p.forward ==> p.seeds_q[before.1 as int].actual_ref_positions@[0]
                > p.seeds_q[after.1 as int].actual_ref_positions@[0]
        }),
{
    let s = round_state(p, r);
    lemma_round_state(p, r);
    lemma_chain_links(s, r.order, c, k);
    let chain = s.best_chains(r.order)[c];
    let i = choose|i: int|
        0 <= i < s.anchors.len() && s.pointers[i] < i && #[trigger] s.anchors[i] == chain.anchors[k + 1]
            && s.anchors[s.pointers[i] as int] == chain.anchors[k];
    assert(p.step_ok(r.f, r.pointers, i));
    assert(p.is_candidate(r.pointers[i] as int, i));
}

/// The scores and pointers of a round with the anchors and seeds of its
/// problem.
pub open spec fn round_state(p: ChainProblem, r: Round) -> Scored {
    Scored {
        f: r.f,
        pointers: r.pointers,
        anchors: p.anchors,
        seeds_ref: p.seeds_ref,
        seeds_q: p.seeds_q,
        chain_reads: p.chain_reads,
    }
}

/// In a round no pointer points forward.
pub proof fn lemma_round_state(p: ChainProblem, r: Round)
    requires
        is_round(p, r),
        anchors_in_range(p.anchors, p.seeds_ref.len(), p.seeds_q.len()),
    ensures
        round_state(p, r).well_formed(),
        round_chains(p, r) == round_state(p, r).best_chains(r.order),
{
    let s = round_state(p, r);
    assert forall|i: int| 0 <= i < s.pointers.len() implies #[trigger] s.pointers[i] <= i by {
        if i > 0 {
            assert(p.step_ok(r.f, r.pointers, i));
        }
    }
}

/// Color monotonicity: the reference node of every anchor of a sub-chain
/// has every genome of the color of the sub-chain.
pub proof fn lemma_consistent_colors(
    anchors: Seq<(u32, u32)>,
    ref_nodes: Seq<KmerNode>,
    color: Color,
    origin: int,
    n: int,
    k: int,
)
    requires
        0 <= k < consistent(anchors, ref_nodes, color, origin, n).len(),
    ensures
        ref_nodes[consistent(anchors, ref_nodes, color, origin, n)[k].0 as int].color & color == color,
        exists|i: int|
            origin <= i < n && 0 <= i && #[trigger] anchors[i] == consistent(
                anchors,
                ref_nodes,
                color,
                origin,
                n,
            )[k],
    decreases n,
{
    if n > origin && n > 0 {
        let before = consistent(anchors, ref_nodes, color, origin, n - 1);
        if k < before.len() {
            lemma_consistent_colors(anchors, ref_nodes, color, origin, n - 1, k);
            let i = choose|i: int| origin <= i < n - 1 && 0 <= i && #[trigger] anchors[i] == before[k];
            assert(anchors[i] == consistent(anchors, ref_nodes, color, origin, n)[k]);
        } else {
            assert(anchors[n - 1] == consistent(anchors, ref_nodes, color, origin, n)[k]);
        }
    }
}

/// Color monotonicity in reconstruction: along any reconstructed
/// sub-chain, the color of the reference node of every anchor has every
/// genome of the color that is reported for the sub-chain.
pub proof fn lemma_color_monotonicity(input: PathInput, j: int, k: int)
    requires
        input.reconstruct() is Ok,
        0 <= j < input.reconstruct()->Ok_0.1.len(),
        0 <= k < input.reconstruct()->Ok_0.1[j].0.len(),
    ensures
        input.reconstruct()->Ok_0.0.len() == input.reconstruct()->Ok_0.1.len(),
        input.ref_nodes[input.reconstruct()->Ok_0.1[j].0[k].0 as int].color & input.reconstruct()->Ok_0.0[j]
            == input.reconstruct()->Ok_0.0[j],
{
    let st = input.run(input.last().order - input.first().order)->Ok_0;
    let hyps = st.paths[st.best_node as int];
    lemma_consistent_colors(
        input.anchors,
        input.ref_nodes,
        hyps[j].color,
        hyps[j].origin as int,
        input.anchors.len() as int,
        k,
    );
}

/// Strand symmetry: chaining anchors in the backward strand is chaining
/// them in the forward strand against the query with its orders counted
/// from the other end, and the other way round.
pub proof fn lemma_strand_symmetry(
    setup: ChainSetup,
    view: Seq<(Seq<(u32, u32)>, Score)>,
    anchors: Seq<(u32, u32)>,
    forward: bool,
)
    requires
        orders_in_range(setup.seeds_q),
    ensures
        setup.chains_strand(view, anchors, forward) <==> (ChainSetup {
            seeds_ref: setup.seeds_ref,
            seeds_q: flipped(setup.seeds_q),
            h: setup.h,
            chain_heuristic: setup.chain_heuristic,
            chain_reads: setup.chain_reads,
            circular: setup.circular,
        }).chains_strand(view, anchors, !forward),
{
    let other = ChainSetup {
        seeds_ref: setup.seeds_ref,
        seeds_q: flipped(setup.seeds_q),
        h: setup.h,
        chain_heuristic: setup.chain_heuristic,
        chain_reads: setup.chain_reads,
        circular: setup.circular,
    };
    let backward = !forward;
    lemma_flipped_twice(setup.seeds_q);
    assert(effective_query(setup.seeds_q, forward) == effective_query(other.seeds_q, backward));
    if setup.chains_strand(view, anchors, forward) {
        let sorted = choose|sorted: Seq<(u32, u32)>|
            #[trigger] setup.strand_witness(view, anchors, forward, sorted);
        assert(other.strand_witness(view, anchors, backward, sorted));
    }
    if other.chains_strand(view, anchors, backward) {
        let sorted = choose|sorted: Seq<(u32, u32)>|
            #[trigger] other.strand_witness(view, anchors, backward, sorted);
        assert(setup.strand_witness(view, anchors, forward, sorted));
    }
}

} // verus!
