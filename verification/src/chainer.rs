//! The fine chainer from anchors to chains, for one strand and for both.

use crate::anchor::anchors_from_seeds;
use crate::anchor::hits_match;
use crate::anchor::hits_of_keys;
use crate::anchor::ids_in_range;
use crate::anchor::lemma_hits_in_range;
use crate::anchor::resolve_strand;
use crate::anchor::strand_of;
use crate::anchor::Hits;
use crate::anchor::Strand;
use crate::coarse::copy_anchors;
use crate::extract::below_cutoff;
use crate::extract::chains_match;
use crate::extract::get_best_chains;
use crate::extract::EmittedChain;
use crate::extract::Scored;
use crate::fine::problem;
use crate::laws::lemma_best_chains;
use crate::laws::sourced;
use crate::fine::score_anchors;
use crate::fine::ChainProblem;
use crate::rank::is_ranking;
use crate::score::Score;
use crate::seed::anchors_in_range;
use crate::seed::ids_are_indices;
use crate::seed::orders_in_range;
use crate::seed::Anchors;
use crate::seed::KmerNode;
use crate::sorting::sort_by_ref_order;
use crate::sorting::with_order;
use fxhash::FxHashMap;
use fxhash::FxHashSet;
use vstd::prelude::*;

verus! {

/// The seed `node` with its order counted from the other end of `n` seeds.
pub open spec fn flipped_node(node: KmerNode, n: nat) -> KmerNode {
    KmerNode {
        order: (n - 1 - node.order) as u32,
        id: node.id,
        kmer: node.kmer,
        canonical: node.canonical,
        color: node.color,
        actual_ref_positions: node.actual_ref_positions,
        child_nodes: node.child_nodes,
        child_edge_distance: node.child_edge_distance,
    }
}

/// The seeds with every order counted from the other end.
pub open spec fn flipped(seeds: Seq<KmerNode>) -> Seq<KmerNode> {
    Seq::new(seeds.len(), |i: int| flipped_node(seeds[i], seeds.len()))
}

/// The query seeds as the chainer reads them: as they are in the forward
/// strand, and with the orders counted from the other end in the backward
/// strand.
pub open spec fn effective_query(seeds_q: Seq<KmerNode>, forward: bool) -> Seq<KmerNode> {
    if forward {
        seeds_q
    } else {
        flipped(seeds_q)
    }
}

/// Counts every order from the other end.
pub fn flip_orders(seeds_q: &mut Vec<KmerNode>)
    requires
        orders_in_range(old(seeds_q)@),
    ensures
        final(seeds_q)@ == flipped(old(seeds_q)@),
{
    let q_len = seeds_q.len();
    let mut i: usize = 0;
    while i < q_len
        invariant
            q_len == old(seeds_q)@.len(),
            seeds_q@.len() == q_len,
            orders_in_range(old(seeds_q)@),
            i <= q_len,
            forall|k: int| 0 <= k < i ==> #[trigger] seeds_q@[k] == flipped_node(old(seeds_q)@[k], q_len as nat),
            forall|k: int| i <= k < q_len ==> #[trigger] seeds_q@[k] == old(seeds_q)@[k],
        decreases q_len - i,
    {
        assert(seeds_q@[i as int] == old(seeds_q)@[i as int]);
        let order = seeds_q[i].order;
        seeds_q[i].order = q_len as u32 - order - 1;
        i = i + 1;
    }
    assert(seeds_q@ =~= flipped(old(seeds_q)@));
}

/// Counting every order from the other end twice gives the seeds back.
pub proof fn lemma_flipped_twice(seeds: Seq<KmerNode>)
    requires
        orders_in_range(seeds),
    ensures
        orders_in_range(flipped(seeds)),
        flipped(flipped(seeds)) == seeds,
{
    assert forall|i: int| 0 <= i < seeds.len() implies (#[trigger] flipped(seeds)[i]).order < seeds.len() by {
        assert(seeds[i].order < seeds.len());
    }
    assert forall|i: int| 0 <= i < seeds.len() implies #[trigger] flipped(flipped(seeds))[i] == seeds[i] by {
        assert(seeds[i].order < seeds.len());
    }
    assert(flipped(flipped(seeds)) =~= seeds);
}


/// The scores, the pointers and the ranking of one round of chaining.
pub struct Round {
    pub f: Seq<Score>,
    pub pointers: Seq<usize>,
    pub order: Seq<(Score, usize)>,
}

/// Whether `r` scores the anchors of `p` and ranks the scores.
pub open spec fn is_round(p: ChainProblem, r: Round) -> bool {
    &&& p.scored(r.f, r.pointers)
    &&& r.pointers[0] == 0
    &&& is_ranking(r.f, r.order)
}

/// The chains that the round `r` of `p` emits.
pub open spec fn round_chains(p: ChainProblem, r: Round) -> Seq<EmittedChain> {
    (Scored {
        f: r.f,
        pointers: r.pointers,
        anchors: p.anchors,
        seeds_ref: p.seeds_ref,
        seeds_q: p.seeds_q,
        chain_reads: p.chain_reads,
    }).best_chains(r.order)
}

/// The first `n` anchors whose reference order lies outside `range_ref`
/// and whose query order lies outside `range_query`.
pub open spec fn outside(
    anchors: Seq<(u32, u32)>,
    seeds_ref: Seq<KmerNode>,
    seeds_q: Seq<KmerNode>,
    range_ref: (u32, u32),
    range_query: (u32, u32),
    n: int,
) -> Seq<(u32, u32)>
    decreases n,
{
    if n <= 0 {
        Seq::empty()
    } else {
        let before = outside(anchors, seeds_ref, seeds_q, range_ref, range_query, n - 1);
        let a = anchors[n - 1];
        let r = seeds_ref[a.0 as int].order;
        let q = seeds_q[a.1 as int].order;
        if (r < range_ref.0 || r > range_ref.1) && (q < range_query.0 || q > range_query.1) {
            before.push(a)
        } else {
            before
        }
    }
}

/// The anchors and the score of every chain.
pub open spec fn plain(chains: Seq<EmittedChain>) -> Seq<(Seq<(u32, u32)>, Score)> {
    Seq::new(chains.len(), |k: int| (chains[k].anchors, chains[k].score))
}

/// The anchors and the score of every returned chain.
pub open spec fn chains_view(chains: Seq<(Anchors, Score)>) -> Seq<(Seq<(u32, u32)>, Score)> {
    Seq::new(chains.len(), |k: int| (chains[k].0@, chains[k].1))
}

/// The problem of the second round of a circular genome: the anchors
/// outside the first chain, with the orders counted from its end.
pub open spec fn second_problem(
    sorted: Seq<(u32, u32)>,
    seeds_ref: Seq<KmerNode>,
    seeds_q: Seq<KmerNode>,
    h: nat,
    chain_heuristic: bool,
    first: EmittedChain,
) -> ChainProblem {
    problem(
        outside(sorted, seeds_ref, seeds_q, first.range_ref, first.range_query, sorted.len() as int),
        seeds_ref,
        seeds_q,
        chain_heuristic,
        false,
        h,
        (first.range_ref.1, first.range_query.1),
    )
}

/// Whether `view` is what the rounds `round_a` and `round_b` give for the sorted
/// anchors `sorted`.
///
/// Read mode gives every chain of the first round. Genome mode gives the
/// best chain of the first round, if there is one. For a circular genome
/// the anchors outside that chain are chained in a second round, and its
/// best chain, if there is one, is appended to the first.
pub open spec fn chain_witness(
    view: Seq<(Seq<(u32, u32)>, Score)>,
    sorted: Seq<(u32, u32)>,
    seeds_ref: Seq<KmerNode>,
    seeds_q: Seq<KmerNode>,
    h: nat,
    chain_heuristic: bool,
    chain_reads: bool,
    circular: bool,
    round_a: Round,
    round_b: Round,
) -> bool {
    let problem_a = problem(sorted, seeds_ref, seeds_q, chain_heuristic, chain_reads, h, (0, 0));
    let chains_a = round_chains(problem_a, round_a);
    &&& is_round(problem_a, round_a)
    &&& if chain_reads {
        view == plain(chains_a)
    } else if chains_a.len() == 0 {
        view.len() == 0
    } else if !circular {
        view == seq![(chains_a[0].anchors, chains_a[0].score)]
    } else {
        let problem_b = second_problem(sorted, seeds_ref, seeds_q, h, chain_heuristic, chains_a[0]);
        if problem_b.anchors.len() == 0 {
            view == seq![(chains_a[0].anchors, chains_a[0].score)]
        } else {
            let chains_b = round_chains(problem_b, round_b);
            &&& is_round(problem_b, round_b)
            &&& if chains_b.len() == 0 {
                view == seq![(chains_a[0].anchors, chains_a[0].score)]
            } else {
                view == seq![(chains_a[0].anchors + chains_b[0].anchors, (chains_a[0].score + chains_b[0].score) as i128)]
            }
        }
    }
}

/// Whether `view` is what the fine chainer gives for the sorted anchors
/// `sorted`: a single empty chain of score zero where there is no anchor.
pub open spec fn is_chaining(
    view: Seq<(Seq<(u32, u32)>, Score)>,
    sorted: Seq<(u32, u32)>,
    seeds_ref: Seq<KmerNode>,
    seeds_q: Seq<KmerNode>,
    h: nat,
    chain_heuristic: bool,
    chain_reads: bool,
    circular: bool,
) -> bool {
    if sorted.len() == 0 {
        view == seq![(Seq::<(u32, u32)>::empty(), 0i128)]
    } else {
        exists|round_a: Round, round_b: Round|
            #[trigger] chain_witness(
                view,
                sorted,
                seeds_ref,
                seeds_q,
                h,
                chain_heuristic,
                chain_reads,
                circular,
                round_a,
                round_b,
            )
    }
}

/// Whether `sorted` holds the anchors of `anchors` in ascending order of
/// the reference seed, those of the same order in the order they had.
pub open spec fn is_sorted_by_ref(sorted: Seq<(u32, u32)>, anchors: Seq<(u32, u32)>, seeds_ref: Seq<KmerNode>) -> bool {
    &&& sorted.to_multiset() == anchors.to_multiset()
    &&& forall|a: int, b: int|
        0 <= a < b < sorted.len() ==> seeds_ref[sorted[a].0 as int].order <= seeds_ref[sorted[b].0 as int].order
    &&& forall|order: u32| with_order(sorted, seeds_ref, order) == with_order(anchors, seeds_ref, order)
}

/// The anchors outside the ranges of the first chain.
fn second_round_anchors(
    anchors: &Anchors,
    seeds_ref: &Vec<KmerNode>,
    seeds_q: &Vec<KmerNode>,
    range_ref: (u32, u32),
    range_query: (u32, u32),
) -> (second: Anchors)
    requires
        anchors_in_range(anchors@, seeds_ref@.len(), seeds_q@.len()),
    ensures
        second@ == outside(anchors@, seeds_ref@, seeds_q@, range_ref, range_query, anchors@.len() as int),
        anchors_in_range(second@, seeds_ref@.len(), seeds_q@.len()),
{
    let mut second: Anchors = Vec::new();
    let mut i: usize = 0;
    while i < anchors.len()
        invariant
            anchors_in_range(anchors@, seeds_ref@.len(), seeds_q@.len()),
            i <= anchors@.len(),
            second@ == outside(anchors@, seeds_ref@, seeds_q@, range_ref, range_query, i as int),
            anchors_in_range(second@, seeds_ref@.len(), seeds_q@.len()),
        decreases anchors@.len() - i,
    {
        let anchor = anchors[i];
        let r = seeds_ref[anchor.0 as usize].order;
        let q = seeds_q[anchor.1 as usize].order;
        if (r < range_ref.0 || r > range_ref.1) && (q < range_query.0 || q > range_query.1) {
            let ghost before = second@;
            second.push(anchor);
            assert forall|k: int| 0 <= k < second@.len() implies (#[trigger] second@[k]).0 < seeds_ref@.len()
                && second@[k].1 < seeds_q@.len() by {
                if k < before.len() {
                    assert(second@[k] == before[k]);
                }
            }
        }
        i = i + 1;
    }
    second
}

/// One round of chaining: the anchors are scored and the chains
/// extracted.
fn chain_round(
    anchors: &Anchors,
    seeds_ref: &Vec<KmerNode>,
    seeds_q: &Vec<KmerNode>,
    h: usize,
    chain_heuristic: bool,
    chain_reads: bool,
    modulo_positions: (u32, u32),
) -> (found: (Vec<(Anchors, (u32, u32), (u32, u32), Score)>, Ghost<Round>))
    requires
        anchors@.len() > 0,
        problem(
            anchors@,
            seeds_ref@,
            seeds_q@,
            chain_heuristic,
            chain_reads,
            h as nat,
            modulo_positions,
        ).well_formed(),
    ensures
        is_round(
            problem(anchors@, seeds_ref@, seeds_q@, chain_heuristic, chain_reads, h as nat, modulo_positions),
            found.1@,
        ),
        chains_match(
            found.0@,
            round_chains(
                problem(
                    anchors@,
                    seeds_ref@,
                    seeds_q@,
                    chain_heuristic,
                    chain_reads,
                    h as nat,
                    modulo_positions,
                ),
                found.1@,
            ),
        ),
{
    let ghost p = problem(
        anchors@,
        seeds_ref@,
        seeds_q@,
        chain_heuristic,
        chain_reads,
        h as nat,
        modulo_positions,
    );
    let mut f: Vec<Score> = Vec::new();
    f.push(0);
    let mut pointer_array: Vec<usize> = Vec::new();
    let mut i: usize = 0;
    while i < anchors.len()
        invariant
            i <= anchors@.len(),
            pointer_array@.len() == i,
            forall|k: int| 0 <= k < i ==> #[trigger] pointer_array@[k] == k,
        decreases anchors@.len() - i,
    {
        pointer_array.push(i);
        i = i + 1;
    }
    assert(f@ =~= seq![0i128]);
    score_anchors(
        &mut f,
        &mut pointer_array,
        anchors,
        chain_heuristic,
        chain_reads,
        h,
        seeds_ref,
        seeds_q,
        modulo_positions,
    );
    let ghost f_model = f@;
    let ghost pointers_model = pointer_array@;
    let ghost s = Scored {
        f: f_model,
        pointers: pointers_model,
        anchors: anchors@,
        seeds_ref: seeds_ref@,
        seeds_q: seeds_q@,
        chain_reads,
    };
    proof {
        assert forall|i: int| 0 <= i < s.pointers.len() implies #[trigger] s.pointers[i] <= i by {
            if i > 0 {
                assert(p.step_ok(f_model, pointers_model, i));
            }
        }
        assert(s.well_formed());
    }
    let chains = get_best_chains(f, pointer_array, anchors, seeds_ref, seeds_q, chain_reads);
    let ghost order = choose|order: Seq<(Score, usize)>|
        is_ranking(f_model, order) && chains_match(chains@, #[trigger] s.best_chains(order));
    (chains, Ghost(Round { f: f_model, pointers: pointers_model, order }))
}


/// The score of an emitted chain is the score of an anchor, and its ranges
/// are made of orders of seeds of its anchors.
proof fn lemma_first_chain(p: ChainProblem, r: Round)
    requires
        p.well_formed(),
        p.anchors.len() > 0,
        is_round(p, r),
        round_chains(p, r).len() > 0,
    ensures
        0 <= round_chains(p, r)[0].score <= p.anchors.len() * 0x2000_0000_0000,
        exists|i: int|
            0 <= i < p.anchors.len() && round_chains(p, r)[0].range_ref.1 == #[trigger] p.ref_order(i)
                && round_chains(p, r)[0].range_query.1 == p.query_order(i),
{
    let s = Scored {
        f: r.f,
        pointers: r.pointers,
        anchors: p.anchors,
        seeds_ref: p.seeds_ref,
        seeds_q: p.seeds_q,
        chain_reads: p.chain_reads,
    };
    lemma_best_chains(s, r.order);
    let c = s.best_chains(r.order)[0];
    assert(sourced(s, r.order, c));
    let k = choose|k: int|
        0 <= k < r.order.len() && c == s.chain_at(#[trigger] r.order[k].1) && !below_cutoff(
            r.order[k].0,
            r.order[0].0,
        );
    let i = r.order[k].1 as int;
    assert(r.order[k].1 < r.f.len());
    if i > 0 {
        assert(p.step_ok(r.f, r.pointers, i));
    }
    assert(c.range_ref.1 == p.ref_order(i));
}

/// The chains of the fine chainer for the anchors of one strand.
///
/// The anchors are sorted by the order of their reference seed and left
/// so. In the backward strand the query orders are counted from the other
/// end while the chains are made; the seeds are given back as they were.
pub fn get_chains(
    seeds_ref: &Vec<KmerNode>,
    seeds_q: &mut Vec<KmerNode>,
    h: usize,
    chain_heuristic: bool,
    chain_reads: bool,
    circular: bool,
    forward_strand: bool,
    anchors: &mut Vec<(u32, u32)>,
) -> (chains: Vec<(Anchors, Score)>)
    requires
        anchors_in_range(old(anchors)@, seeds_ref@.len(), old(seeds_q)@.len()),
        seeds_ref@.len() <= u32::MAX,
        old(seeds_q)@.len() <= u32::MAX,
        !forward_strand ==> orders_in_range(old(seeds_q)@),
        circular && !chain_reads ==> orders_in_range(seeds_ref@) && orders_in_range(old(seeds_q)@),
    ensures
        final(seeds_q)@ == old(seeds_q)@,
        is_sorted_by_ref(final(anchors)@, old(anchors)@, seeds_ref@),
        is_chaining(
            chains_view(chains@),
            final(anchors)@,
            seeds_ref@,
            effective_query(old(seeds_q)@, forward_strand),
            h as nat,
            chain_heuristic,
            chain_reads,
            circular,
        ),
{
    if !forward_strand {
        flip_orders(seeds_q);
        proof {
            lemma_flipped_twice(old(seeds_q)@);
        }
    }
    let ghost qs = seeds_q@;
    assert(qs == effective_query(old(seeds_q)@, forward_strand));
    let mut chains: Vec<(Anchors, Score)> = Vec::new();
    sort_by_ref_order(anchors, seeds_ref);
    proof {
        broadcast use vstd::seq_lib::group_to_multiset_ensures;

        assert(anchors@.len() == old(anchors)@.len()) by {
            assert(anchors@.to_multiset().len() == old(anchors)@.to_multiset().len());
        }
        assert forall|k: int| 0 <= k < anchors@.len() implies (#[trigger] anchors@[k]).0 < seeds_ref@.len()
            && anchors@[k].1 < qs.len() by {
            assert(anchors@.to_multiset().count(anchors@[k]) > 0);
            assert(old(anchors)@.contains(anchors@[k]));
        }
    }
    let ghost sorted = anchors@;
    if anchors.len() == 0 {
        chains.push((Vec::new(), 0));
        assert(chains_view(chains@) =~~= seq![(Seq::<(u32, u32)>::empty(), 0i128)]);
    } else {
        let ghost problem_a = problem(sorted, seeds_ref@, qs, chain_heuristic, chain_reads, h as nat, (0, 0));
        assert(problem_a.well_formed()) by {
            assert forall|k: int| 0 <= k < problem_a.anchors.len() implies #[trigger] problem_a.countable(k) by {}
        }
        let first_round = chain_round(anchors, seeds_ref, seeds_q, h, chain_heuristic, chain_reads, (0, 0));
        let chain_range_vec = first_round.0;
        let ghost round_a = first_round.1@;
        let ghost chains_a = round_chains(problem_a, round_a);
        let ghost mut round_b = round_a;
        if chain_reads {
            let mut k: usize = 0;
            while k < chain_range_vec.len()
                invariant
                    k <= chain_range_vec@.len(),
                    chains_match(chain_range_vec@, chains_a),
                    chains@.len() == k,
                    forall|j: int|
                        0 <= j < k ==> (#[trigger] chains@[j]).0@ == chains_a[j].anchors && chains@[j].1
                            == chains_a[j].score,
                decreases chain_range_vec@.len() - k,
            {
                chains.push((copy_anchors(&chain_range_vec[k].0), chain_range_vec[k].3));
                k = k + 1;
            }
            assert(chains_view(chains@) =~~= plain(chains_a));
        } else if chain_range_vec.len() == 0 {
        } else {
            let mut best_seq_anchors_1 = copy_anchors(&chain_range_vec[0].0);
            let range_ref = chain_range_vec[0].1;
            let range_query = chain_range_vec[0].2;
            let best_aln_score = chain_range_vec[0].3;
            proof {
                lemma_first_chain(problem_a, round_a);
            }
            if !circular {
                chains.push((best_seq_anchors_1, best_aln_score));
                assert(chains_view(chains@) =~~= seq![(chains_a[0].anchors, chains_a[0].score)]);
            } else {
                let second = second_round_anchors(anchors, seeds_ref, seeds_q, range_ref, range_query);
                let ghost problem_b = second_problem(sorted, seeds_ref@, qs, h as nat, chain_heuristic, chains_a[0]);
                assert(problem_b.anchors == second@);
                if second.len() == 0 {
                    chains.push((best_seq_anchors_1, best_aln_score));
                    assert(chains_view(chains@) =~~= seq![(chains_a[0].anchors, chains_a[0].score)]);
                } else {
                    assert(problem_b.well_formed()) by {
                        let i = choose|i: int|
                            0 <= i < problem_a.anchors.len() && chains_a[0].range_ref.1 == #[trigger] problem_a.ref_order(i)
                                && chains_a[0].range_query.1 == problem_a.query_order(i);
                        assert(seeds_ref@[sorted[i].0 as int].order < seeds_ref@.len());
                        assert(qs[sorted[i].1 as int].order < qs.len());
                        assert forall|k: int| 0 <= k < problem_b.anchors.len() implies #[trigger] problem_b.countable(k) by {}
                    }
                    let second_round = chain_round(
                        &second,
                        seeds_ref,
                        seeds_q,
                        h,
                        chain_heuristic,
                        false,
                        (range_ref.1, range_query.1),
                    );
                    let second_chains = second_round.0;
                    proof {
                        round_b = second_round.1@;
                    }
                    let ghost chains_b = round_chains(problem_b, round_b);
                    if second_chains.len() == 0 {
                        chains.push((best_seq_anchors_1, best_aln_score));
                        assert(chains_view(chains@) =~~= seq![(chains_a[0].anchors, chains_a[0].score)]);
                    } else {
                        proof {
                            lemma_first_chain(problem_b, round_b);
                        }
                        let mut best_seq_anchors_2 = copy_anchors(&second_chains[0].0);
                        let second_best_aln_score = second_chains[0].3;
                        best_seq_anchors_1.append(&mut best_seq_anchors_2);
                        chains.push((best_seq_anchors_1, second_best_aln_score + best_aln_score));
                        assert(chains_view(chains@) =~~= seq![
                            (chains_a[0].anchors + chains_b[0].anchors, (chains_a[0].score + chains_b[0].score) as i128),
                        ]);
                    }
                }
            }
        }
        assert(chain_witness(
            chains_view(chains@),
            sorted,
            seeds_ref@,
            qs,
            h as nat,
            chain_heuristic,
            chain_reads,
            circular,
            round_a,
            round_b,
        ));
    }
    if !forward_strand {
        flip_orders(seeds_q);
    }
    chains
}


/// The chains `view`, each with the strand `forward`.
pub open spec fn tag(view: Seq<(Seq<(u32, u32)>, Score)>, forward: bool) -> Seq<(Seq<(u32, u32)>, Score, bool)> {
    Seq::new(view.len(), |k: int| (view[k].0, view[k].1, forward))
}

/// The anchors, the score and the strand of every returned chain.
pub open spec fn tagged_view(chains: Seq<(Anchors, Score, bool)>) -> Seq<(Seq<(u32, u32)>, Score, bool)> {
    Seq::new(chains.len(), |k: int| (chains[k].0@, chains[k].1, chains[k].2))
}

/// What is chained, and how.
pub struct ChainSetup {
    pub seeds_ref: Seq<KmerNode>,
    pub seeds_q: Seq<KmerNode>,
    pub h: nat,
    pub chain_heuristic: bool,
    pub chain_reads: bool,
    pub circular: bool,
}

impl ChainSetup {
    /// Whether `view` is what the fine chainer gives for `anchors` in the
    /// strand `forward`, where `sorted` holds the anchors sorted.
    pub open spec fn strand_witness(
        self,
        view: Seq<(Seq<(u32, u32)>, Score)>,
        anchors: Seq<(u32, u32)>,
        forward: bool,
        sorted: Seq<(u32, u32)>,
    ) -> bool {
        &&& is_sorted_by_ref(sorted, anchors, self.seeds_ref)
        &&& is_chaining(
            view,
            sorted,
            self.seeds_ref,
            effective_query(self.seeds_q, forward),
            self.h,
            self.chain_heuristic,
            self.chain_reads,
            self.circular,
        )
    }

    /// Whether `view` is what the fine chainer gives for `anchors` in the
    /// strand `forward`.
    pub open spec fn chains_strand(
        self,
        view: Seq<(Seq<(u32, u32)>, Score)>,
        anchors: Seq<(u32, u32)>,
        forward: bool,
    ) -> bool {
        exists|sorted: Seq<(u32, u32)>| #[trigger] self.strand_witness(view, anchors, forward, sorted)
    }

    /// Whether `view` holds the chains `forward_view` of the forward
    /// anchors and then the chains `backward_view` of the backward anchors.
    pub open spec fn both_witness(
        self,
        view: Seq<(Seq<(u32, u32)>, Score, bool)>,
        hits: Hits,
        forward_view: Seq<(Seq<(u32, u32)>, Score)>,
        backward_view: Seq<(Seq<(u32, u32)>, Score)>,
    ) -> bool {
        &&& self.chains_strand(forward_view, hits.forward, true)
        &&& self.chains_strand(backward_view, hits.backward, false)
        &&& view == tag(forward_view, true) + tag(backward_view, false)
    }

    /// Whether `view` holds the chains `one` of the anchors of the strand
    /// `forward`.
    pub open spec fn one_witness(
        self,
        view: Seq<(Seq<(u32, u32)>, Score, bool)>,
        hits: Hits,
        forward: bool,
        one: Seq<(Seq<(u32, u32)>, Score)>,
    ) -> bool {
        &&& self.chains_strand(
            one,
            if forward {
                hits.forward
            } else {
                hits.backward
            },
            forward,
        )
        &&& view == tag(one, forward)
    }

    /// Whether `view` is what the fine chainer gives for the anchors
    /// `hits`.
    ///
    /// In genome mode, where the k-mer counts speak for one strand, only
    /// the anchors of that strand are chained. Otherwise both strands are
    /// chained and the chains of the forward strand come first.
    pub open spec fn chains_seeds(self, view: Seq<(Seq<(u32, u32)>, Score, bool)>, hits: Hits) -> bool {
        let strand = strand_of(hits.forward_kmers.len(), hits.backward_kmers.len());
        let forward = strand == Strand::Forward;
        if strand != Strand::Ambiguous && !self.chain_reads {
            exists|one: Seq<(Seq<(u32, u32)>, Score)>| #[trigger] self.one_witness(view, hits, forward, one)
        } else {
            exists|forward_view: Seq<(Seq<(u32, u32)>, Score)>, backward_view: Seq<(Seq<(u32, u32)>, Score)>|
                #[trigger] self.both_witness(view, hits, forward_view, backward_view)
        }
    }
}

/// The chains of the one strand that the k-mer counts speak for are the
/// chains of the seeds in genome mode.
proof fn lemma_chains_one(
    setup: ChainSetup,
    view: Seq<(Seq<(u32, u32)>, Score, bool)>,
    hits: Hits,
    one: Seq<(Seq<(u32, u32)>, Score)>,
)
    requires
        strand_of(hits.forward_kmers.len(), hits.backward_kmers.len()) != Strand::Ambiguous,
        !setup.chain_reads,
        setup.one_witness(
            view,
            hits,
            strand_of(hits.forward_kmers.len(), hits.backward_kmers.len()) == Strand::Forward,
            one,
        ),
    ensures
        setup.chains_seeds(view, hits),
{
}

/// The chains of both strands are the chains of the seeds in read mode
/// and where the k-mer counts speak for no strand.
proof fn lemma_chains_both(
    setup: ChainSetup,
    view: Seq<(Seq<(u32, u32)>, Score, bool)>,
    hits: Hits,
    forward_view: Seq<(Seq<(u32, u32)>, Score)>,
    backward_view: Seq<(Seq<(u32, u32)>, Score)>,
)
    requires
        strand_of(hits.forward_kmers.len(), hits.backward_kmers.len()) == Strand::Ambiguous
            || setup.chain_reads,
        setup.both_witness(view, hits, forward_view, backward_view),
    ensures
        setup.chains_seeds(view, hits),
{
}

/// Adds the chains `found` to `chains`, each with the strand `forward`.
fn push_tagged(chains: &mut Vec<(Anchors, Score, bool)>, found: &Vec<(Anchors, Score)>, forward: bool)
    ensures
        tagged_view(final(chains)@) == tagged_view(old(chains)@) + tag(chains_view(found@), forward),
{
    let mut k: usize = 0;
    assert(tagged_view(chains@) =~~= tagged_view(old(chains)@) + tag(chains_view(found@), forward).take(0));
    while k < found.len()
        invariant
            k <= found@.len(),
            tagged_view(chains@) == tagged_view(old(chains)@) + tag(chains_view(found@), forward).take(k as int),
        decreases found@.len() - k,
    {
        let ghost before = chains@;
        chains.push((copy_anchors(&found[k].0), found[k].1, forward));
        assert(tagged_view(chains@) =~~= tagged_view(before).push(
            (found@[k as int].0@, found@[k as int].1, forward),
        ));
        assert(tag(chains_view(found@), forward).take(k + 1) =~~= tag(chains_view(found@), forward).take(
            k as int,
        ).push((found@[k as int].0@, found@[k as int].1, forward)));
        k = k + 1;
    }
    assert(tag(chains_view(found@), forward).take(k as int) =~~= tag(chains_view(found@), forward));
}

/// The chains of the fine chainer for a query.
///
/// The anchors are made from the two indexes and the strand is
/// chosen by the ten-to-eight rule. Every chain comes with its score and
/// its strand. The query seeds are given back as they were.
pub fn chain_seeds(
    seeds_ref: &Vec<KmerNode>,
    seeds_q: &mut Vec<KmerNode>,
    ref_hash_map: &FxHashMap<u32, Vec<u32>>,
    q_hash_map: &FxHashMap<u32, Vec<u32>>,
    h: usize,
    chain_heuristic: bool,
    chain_reads: bool,
    not_used_kmers: &FxHashSet<u32>,
    circular: bool,
) -> (chains: Vec<(Anchors, Score, bool)>)
    requires
        ids_are_indices(seeds_ref@),
        ids_are_indices(old(seeds_q)@),
        ids_in_range(ref_hash_map@, seeds_ref@.len()),
        ids_in_range(q_hash_map@, old(seeds_q)@.len()),
        orders_in_range(old(seeds_q)@),
        circular && !chain_reads ==> orders_in_range(seeds_ref@),
    ensures
        final(seeds_q)@ == old(seeds_q)@,
        exists|keys: Seq<u32>|
            keys.no_duplicates() && keys.to_set() == q_hash_map@.dom() && (ChainSetup {
                seeds_ref: seeds_ref@,
                seeds_q: old(seeds_q)@,
                h: h as nat,
                chain_heuristic,
                chain_reads,
                circular,
            }).chains_seeds(
                tagged_view(chains@),
                #[trigger] hits_of_keys(
                    keys,
                    seeds_ref@,
                    old(seeds_q)@,
                    ref_hash_map@,
                    q_hash_map@,
                    not_used_kmers@,
                    keys.len() as int,
                ),
            ),
{
    let ghost setup = ChainSetup {
        seeds_ref: seeds_ref@,
        seeds_q: old(seeds_q)@,
        h: h as nat,
        chain_heuristic,
        chain_reads,
        circular,
    };
    let found = anchors_from_seeds(seeds_ref, seeds_q, ref_hash_map, q_hash_map, not_used_kmers);
    let ghost keys = choose|keys: Seq<u32>|
        keys.no_duplicates() && keys.to_set() == q_hash_map@.dom() && hits_match(
            found,
            #[trigger] hits_of_keys(
                keys,
                seeds_ref@,
                seeds_q@,
                ref_hash_map@,
                q_hash_map@,
                not_used_kmers@,
                keys.len() as int,
            ),
        );
    let ghost hits = hits_of_keys(
        keys,
        seeds_ref@,
        seeds_q@,
        ref_hash_map@,
        q_hash_map@,
        not_used_kmers@,
        keys.len() as int,
    );
    proof {
        lemma_hits_in_range(
            keys,
            seeds_ref@,
            seeds_q@,
            ref_hash_map@,
            q_hash_map@,
            not_used_kmers@,
            keys.len() as int,
        );
    }
    let mut forward_anchors = found.0;
    let mut backward_anchors = found.1;
    let strand = resolve_strand(found.2, found.3);
    let mut return_chains: Vec<(Anchors, Score, bool)> = Vec::new();
    assert(tagged_view(return_chains@) =~~= Seq::empty());
    let ambig = match strand {
        Strand::Ambiguous => true,
        _ => false,
    };
    if !ambig && !chain_reads {
        let forward_strand = match strand {
            Strand::Forward => true,
            _ => false,
        };
        let chains_scores = if forward_strand {
            get_chains(
                seeds_ref,
                seeds_q,
                h,
                chain_heuristic,
                chain_reads,
                circular,
                forward_strand,
                &mut forward_anchors,
            )
        } else {
            get_chains(
                seeds_ref,
                seeds_q,
                h,
                chain_heuristic,
                chain_reads,
                circular,
                forward_strand,
                &mut backward_anchors,
            )
        };
        push_tagged(&mut return_chains, &chains_scores, forward_strand);
        proof {
            let one = chains_view(chains_scores@);
            let sorted = if forward_strand {
                forward_anchors@
            } else {
                backward_anchors@
            };
            let anchors = if forward_strand {
                hits.forward
            } else {
                hits.backward
            };
            assert(setup.strand_witness(one, anchors, forward_strand, sorted));
            assert(tagged_view(return_chains@) =~~= tag(one, forward_strand));
            assert(setup.one_witness(tagged_view(return_chains@), hits, forward_strand, one));
            assert(strand == strand_of(hits.forward_kmers.len(), hits.backward_kmers.len()));
            assert(strand != Strand::Ambiguous);
            assert(forward_strand == (strand == Strand::Forward));
            lemma_chains_one(setup, tagged_view(return_chains@), hits, one);
        }
    } else {
        let chains_scores_forward = get_chains(
            seeds_ref,
            seeds_q,
            h,
            chain_heuristic,
            chain_reads,
            circular,
            true,
            &mut forward_anchors,
        );
        let chains_scores_backward = get_chains(
            seeds_ref,
            seeds_q,
            h,
            chain_heuristic,
            chain_reads,
            circular,
            false,
            &mut backward_anchors,
        );
        push_tagged(&mut return_chains, &chains_scores_forward, true);
        push_tagged(&mut return_chains, &chains_scores_backward, false);
        proof {
            let forward_view = chains_view(chains_scores_forward@);
            let backward_view = chains_view(chains_scores_backward@);
            assert(setup.strand_witness(forward_view, hits.forward, true, forward_anchors@));
            assert(setup.strand_witness(backward_view, hits.backward, false, backward_anchors@));
            assert(tagged_view(return_chains@) =~~= tag(forward_view, true) + tag(backward_view, false));
            assert(setup.both_witness(tagged_view(return_chains@), hits, forward_view, backward_view));
            lemma_chains_both(setup, tagged_view(return_chains@), hits, forward_view, backward_view);
        }
    }
    return_chains
}

} // verus!
