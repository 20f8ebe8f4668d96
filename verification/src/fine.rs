//! The fine chainer: scoring every anchor against its possible
//! predecessors.
//!
//! The anchors come sorted by reference order. Anchor `i` gets the score
//! `f[i]` of the best chain that ends in it, and a pointer to the anchor
//! before it in that chain, or to itself where it starts a chain.

use crate::rmq::lemma_position_of;
use crate::rmq::position_of;
use crate::rmq::Entry;
use crate::rmq::SearchTree;
use crate::coarse::landmark_distance;
use crate::coarse::positions_of;
use crate::score::gap_score;
use crate::score::super_gap_score;
use crate::score::heuristic_score;
use crate::score::lemma_gap_score_bound;
use crate::score::modulo_n;
use crate::score::modulo_n_spec;
use crate::score::Score;
use crate::seed::anchors_in_range;
use crate::seed::Anchors;
use crate::seed::Color;
use crate::seed::KmerNode;
use vstd::prelude::*;

verus! {

/// What one run of the scoring is given.
///
/// `coarse` selects the chaining over landmarks, which looks back over the
/// last `h` anchors and reads `forward`, `samp_freq` and `read_length`.
/// Otherwise `windowed` selects the heuristic that looks back over the last
/// `h` anchors; without it every earlier anchor is a possible predecessor.
pub struct ChainProblem {
    pub anchors: Seq<(u32, u32)>,
    pub seeds_ref: Seq<KmerNode>,
    pub seeds_q: Seq<KmerNode>,
    pub windowed: bool,
    pub chain_reads: bool,
    pub h: nat,
    pub modulo_positions: (u32, u32),
    pub coarse: bool,
    pub forward: bool,
    pub samp_freq: nat,
    pub read_length: int,
}

/// The problem that the arguments of [`score_anchors`] describe.
pub open spec fn problem(
    anchors: Seq<(u32, u32)>,
    seeds_ref: Seq<KmerNode>,
    seeds_q: Seq<KmerNode>,
    chain_heuristic: bool,
    chain_reads: bool,
    h: nat,
    modulo_positions: (u32, u32),
) -> ChainProblem {
    ChainProblem {
        anchors,
        seeds_ref,
        seeds_q,
        windowed: chain_heuristic && chain_reads,
        chain_reads,
        h,
        modulo_positions,
        coarse: false,
        forward: true,
        samp_freq: 0,
        read_length: 0,
    }
}

/// The problem of chaining the anchors of landmarks.
pub open spec fn coarse_problem(
    anchors: Seq<(u32, u32)>,
    seeds_ref: Seq<KmerNode>,
    seeds_q: Seq<KmerNode>,
    h: nat,
    forward: bool,
    samp_freq: nat,
    read_length: int,
) -> ChainProblem {
    ChainProblem {
        anchors,
        seeds_ref,
        seeds_q,
        windowed: true,
        chain_reads: true,
        h,
        modulo_positions: (0, 0),
        coarse: true,
        forward,
        samp_freq,
        read_length,
    }
}

impl ChainProblem {
    /// The anchors name seeds that exist. In the exact mode the seeds can be
    /// counted in 32 bits and every order can be counted from the modulo
    /// position. In the coarse mode every query seed of an anchor has a
    /// position in the read.
    pub open spec fn well_formed(self) -> bool {
        &&& anchors_in_range(self.anchors, self.seeds_ref.len(), self.seeds_q.len())
        &&& !self.windowed ==> self.seeds_ref.len() <= u32::MAX
        &&& !self.windowed ==> self.seeds_q.len() <= u32::MAX
        &&& !self.windowed ==> forall|k: int|
            0 <= k < self.anchors.len() ==> #[trigger] self.countable(k)
        &&& self.coarse ==> self.windowed && forall|k: int|
            0 <= k < self.anchors.len() ==> #[trigger] self.placed(k)
    }

    /// The query seed of anchor `k` has a position in the read, which in
    /// the backward strand is not beyond the length of the read.
    pub open spec fn placed(self, k: int) -> bool {
        &&& self.seeds_q[self.anchors[k].1 as int].actual_ref_positions@.len() > 0
        &&& !self.forward ==> self.seeds_q[self.anchors[k].1 as int].actual_ref_positions@[0]
            <= self.read_length
    }

    /// The position in the read of the query seed of anchor `i`, counted
    /// from the end of the read in the backward strand.
    pub open spec fn read_position(self, i: int) -> int {
        let at = self.seeds_q[self.anchors[i].1 as int].actual_ref_positions@[0] as int;
        if self.forward {
            at
        } else {
            self.read_length - at
        }
    }

    /// The distance between the landmarks of the anchors `j` and `i`.
    pub open spec fn landmark_gap(self, j: int, i: int) -> Option<nat> {
        let later = positions_of(self.seeds_ref[self.anchors[i].0 as int]);
        landmark_distance(positions_of(self.seeds_ref[self.anchors[j].0 as int]), later, later.len() as int)
    }

    /// Whether the landmark anchor `j` may come directly before `i`: it is
    /// before `i` in the reference and in the read, their colors share a
    /// genome, and their landmarks have a coordinate in a common genome.
    pub open spec fn coarse_compatible(self, j: int, i: int) -> bool {
        &&& self.ref_order(j) < self.ref_order(i)
        &&& self.color(j) & self.color(i) != 0
        &&& self.read_position(j) < self.read_position(i)
        &&& self.landmark_gap(j, i) is Some
    }

    /// The orders of anchor `k` can be counted from the modulo position:
    /// neither lies more than the number of seeds before it.
    pub open spec fn countable(self, k: int) -> bool {
        &&& self.modulo_positions.0 <= self.ref_order(k) + self.seeds_ref.len()
        &&& self.modulo_positions.1 <= self.query_order(k) + self.seeds_q.len()
    }

    /// The reference order of anchor `i`.
    pub open spec fn ref_order(self, i: int) -> int {
        self.seeds_ref[self.anchors[i].0 as int].order as int
    }

    /// The query order of anchor `i`.
    pub open spec fn query_order(self, i: int) -> int {
        self.seeds_q[self.anchors[i].1 as int].order as int
    }

    /// The color of the reference node of anchor `i`.
    pub open spec fn color(self, i: int) -> Color {
        self.seeds_ref[self.anchors[i].0 as int].color
    }

    /// The reference order of anchor `i`, counted from the modulo position.
    pub open spec fn ref_pos(self, i: int) -> int {
        modulo_n_spec(self.ref_order(i), self.seeds_ref.len() as int, self.modulo_positions.0 as int)
    }

    /// The query order of anchor `i`, counted from the modulo position.
    pub open spec fn query_pos(self, i: int) -> int {
        modulo_n_spec(self.query_order(i), self.seeds_q.len() as int, self.modulo_positions.1 as int)
    }

    /// Whether anchor `j` may come directly before anchor `i` in a chain,
    /// by the three rules of the windowed mode: `j` is before `i` in the
    /// reference and in the query, and their colors share a genome.
    pub open spec fn compatible(self, j: int, i: int) -> bool {
        &&& self.ref_order(j) < self.ref_order(i)
        &&& self.query_order(j) < self.query_order(i)
        &&& self.color(j) & self.color(i) != 0
    }

    /// Whether anchor `j` is looked at as a predecessor of anchor `i`.
    pub open spec fn is_candidate(self, j: int, i: int) -> bool {
        if self.coarse {
            i - self.h <= j && 0 <= j < i && self.coarse_compatible(j, i)
        } else if self.windowed {
            i - self.h <= j && 0 <= j < i && self.compatible(j, i)
        } else {
            0 <= j < i && self.query_pos(j) < self.query_pos(i)
        }
    }

    /// The bonus of one step in the exact mode, in points.
    pub open spec fn bonus(self) -> int {
        if self.chain_reads {
            10
        } else {
            100
        }
    }

    /// What the exact mode stores for anchor `j`, whose score is `fj`.
    pub open spec fn stored(self, fj: Score, j: int) -> int {
        fj + 1000 * (self.ref_pos(j) + self.query_pos(j)) + if j == 0 {
            0
        } else {
            1000 * self.bonus()
        }
    }

    /// The score of anchor `i` where anchor `j` comes directly before it.
    pub open spec fn gain(self, f: Seq<Score>, j: int, i: int) -> int {
        if self.coarse {
            f[j] + super_gap_score(
                self.landmark_gap(j, i)->Some_0,
                (self.read_position(i) - self.read_position(j)) as nat,
                self.samp_freq,
            )
        } else if self.windowed {
            f[j] + gap_score(
                (self.ref_order(i) - self.ref_order(j)) as nat,
                (self.query_order(i) - self.query_order(j)) as nat,
            )
        } else {
            self.stored(f[j], j) - 1000 * (self.ref_pos(i) + self.query_pos(i)) + 1000 * self.bonus()
        }
    }

    /// Anchor `i` has the best score that a candidate gives it, or zero
    /// where none gives more; its pointer is the first candidate that gives
    /// that score, or `i` itself where the score is zero. No score is above
    /// what `i` steps can add up to.
    pub open spec fn step_ok(self, f: Seq<Score>, pointers: Seq<usize>, i: int) -> bool {
        &&& 0 <= f[i] <= i * 0x2000_0000_0000
        &&& forall|j: int| #[trigger] self.is_candidate(j, i) ==> self.gain(f, j, i) <= f[i]
        &&& f[i] > 0 ==> {
            &&& self.is_candidate(pointers[i] as int, i)
            &&& self.gain(f, pointers[i] as int, i) == f[i]
            &&& forall|j: int|
                j < pointers[i] && #[trigger] self.is_candidate(j, i) ==> self.gain(f, j, i) < f[i]
        }
        &&& f[i] == 0 ==> pointers[i] == i
    }

    /// Every anchor is scored: the first has score zero, and every later
    /// one satisfies `step_ok`.
    pub open spec fn scored(self, f: Seq<Score>, pointers: Seq<usize>) -> bool {
        &&& f.len() == self.anchors.len()
        &&& pointers.len() == self.anchors.len()
        &&& self.anchors.len() > 0 ==> f[0] == 0
        &&& forall|i: int| 1 <= i < self.anchors.len() ==> #[trigger] self.step_ok(f, pointers, i)
    }

    /// `step_ok` of anchor `i` reads the scores up to `i` and the pointer
    /// of `i` only.
    pub proof fn lemma_step_frame(
        self,
        f_a: Seq<Score>,
        ptr_a: Seq<usize>,
        f_b: Seq<Score>,
        ptr_b: Seq<usize>,
        i: int,
    )
        requires
            0 <= i < f_a.len(),
            i < f_b.len(),
            i < ptr_a.len(),
            i < ptr_b.len(),
            forall|j: int| 0 <= j <= i ==> f_a[j] == f_b[j],
            ptr_a[i] == ptr_b[i],
            self.step_ok(f_a, ptr_a, i),
        ensures
            self.step_ok(f_b, ptr_b, i),
    {
        assert forall|j: int| #[trigger] self.is_candidate(j, i) implies self.gain(f_b, j, i) <= f_b[i] by {
            assert(self.gain(f_a, j, i) == self.gain(f_b, j, i));
        }
        if f_b[i] > 0 {
            assert(self.gain(f_a, ptr_a[i] as int, i) == self.gain(f_b, ptr_b[i] as int, i));
            assert forall|j: int| j < ptr_b[i] && #[trigger] self.is_candidate(j, i) implies self.gain(
                f_b,
                j,
                i,
            ) < f_b[i] by {
                assert(self.gain(f_a, j, i) == self.gain(f_b, j, i));
            }
        }
    }
}


/// What the store of the exact mode holds while anchor `i` is next: a key
/// for every anchor, and a value for each of those before `i`.
pub open spec fn tree_tracks(p: ChainProblem, entries: Seq<Entry>, f: Seq<Score>, i: int) -> bool {
    &&& entries.len() == p.anchors.len()
    &&& forall|k: int|
        0 <= k < entries.len() ==> #[trigger] entries[k] == if k < i {
            Entry {
                key: (p.query_pos(k) as usize, k as usize),
                value: Some(p.stored(f[k], k) as i128),
                id: k as usize,
            }
        } else {
            Entry { key: (p.query_pos(k) as usize, k as usize), value: None, id: 0 }
        }
}

/// In a store that tracks the anchors, the key of anchor `k` is at place `k`.
proof fn lemma_tracked_position(p: ChainProblem, entries: Seq<Entry>, f: Seq<Score>, i: int, k: int)
    requires
        tree_tracks(p, entries, f, i),
        0 <= k < p.anchors.len() <= usize::MAX,
    ensures
        position_of(entries, (p.query_pos(k) as usize, k as usize)) == k,
{
    let key = (p.query_pos(k) as usize, k as usize);
    lemma_position_of(entries, key);
    let at = position_of(entries, key);
    assert(entries[k].key == key);
    if at < entries.len() {
        assert(entries[at].key.1 == at);
    }
}

/// `best_f` and `best_j` are the score and the pointer that `step_ok` asks
/// of anchor `i`.
pub open spec fn best_ok(p: ChainProblem, f: Seq<Score>, i: int, best_f: Score, best_j: usize) -> bool {
    &&& 0 <= best_f <= i * 0x2000_0000_0000
    &&& forall|j: int| #[trigger] p.is_candidate(j, i) ==> p.gain(f, j, i) <= best_f
    &&& best_f > 0 ==> {
        &&& p.is_candidate(best_j as int, i)
        &&& p.gain(f, best_j as int, i) == best_f
        &&& forall|j: int| j < best_j && #[trigger] p.is_candidate(j, i) ==> p.gain(f, j, i) < best_f
    }
    &&& best_f == 0 ==> best_j == i
}

/// Once the best score and pointer of anchor `i` are written, `step_ok`
/// holds of `i`.
pub proof fn lemma_best_is_step(
    p: ChainProblem,
    f: Seq<Score>,
    pointers: Seq<usize>,
    i: int,
    best_f: Score,
    best_j: usize,
)
    requires
        f.len() == i,
        0 <= i < pointers.len(),
        best_ok(p, f, i, best_f, best_j),
    ensures
        p.step_ok(f.push(best_f), pointers.update(i, best_j), i),
{
    let f_b = f.push(best_f);
    assert forall|j: int| #[trigger] p.is_candidate(j, i) implies p.gain(f_b, j, i) <= f_b[i] by {
        assert(p.gain(f_b, j, i) == p.gain(f, j, i));
    }
    if best_f > 0 {
        assert(p.gain(f_b, best_j as int, i) == p.gain(f, best_j as int, i));
        assert forall|j: int| j < best_j && #[trigger] p.is_candidate(j, i) implies p.gain(f_b, j, i)
            < f_b[i] by {
            assert(p.gain(f_b, j, i) == p.gain(f, j, i));
        }
    }
}

/// The best predecessor of anchor `i` among the `h` anchors before it.
fn windowed_best(
    f: &Vec<Score>,
    anchors: &Anchors,
    seeds_ref: &Vec<KmerNode>,
    seeds_q: &Vec<KmerNode>,
    h: usize,
    i: usize,
    Ghost(p): Ghost<ChainProblem>,
) -> (best: (Score, usize))
    requires
        p.well_formed(),
        p.windowed,
        !p.coarse,
        p.anchors == anchors@,
        p.seeds_ref == seeds_ref@,
        p.seeds_q == seeds_q@,
        p.h == h,
        1 <= i < anchors@.len(),
        f@.len() == i,
        forall|k: int| 0 <= k < i ==> 0 <= #[trigger] f@[k] <= k * 0x2000_0000_0000,
    ensures
        best_ok(p, f@, i as int, best.0, best.1),
{
    let mut best_f: Score = 0;
    let mut best_j: usize = i;
    let anchor_i = anchors[i];
    let start: usize = if i > h {
        i - h
    } else {
        0
    };
    let oiq = seeds_q[anchor_i.1 as usize].order;
    let oir = seeds_ref[anchor_i.0 as usize].order;
    let color_i = seeds_ref[anchor_i.0 as usize].color;
    let mut j: usize = start;
    while j < i
        invariant
            p.well_formed(),
            p.windowed,
            !p.coarse,
            p.anchors == anchors@,
            p.seeds_ref == seeds_ref@,
            p.seeds_q == seeds_q@,
            i < anchors@.len(),
            f@.len() == i,
            start <= j <= i,
            oiq == p.query_order(i as int),
            oir == p.ref_order(i as int),
            color_i == p.color(i as int),
            forall|k: int| 0 <= k < i ==> 0 <= #[trigger] f@[k] <= k * 0x2000_0000_0000,
            0 <= best_f <= i * 0x2000_0000_0000,
            forall|k: int|
                start <= k < j && p.compatible(k, i as int) ==> #[trigger] p.gain(f@, k, i as int)
                    <= best_f,
            best_f > 0 ==> {
                &&& start <= best_j < j
                &&& p.compatible(best_j as int, i as int)
                &&& p.gain(f@, best_j as int, i as int) == best_f
                &&& forall|k: int|
                    start <= k < best_j && p.compatible(k, i as int) ==> #[trigger] p.gain(
                        f@,
                        k,
                        i as int,
                    ) < best_f
            },
            best_f == 0 ==> best_j == i,
        decreases i - j,
    {
        let anchor_j = anchors[j];
        let ojq = seeds_q[anchor_j.1 as usize].order;
        let ojr = seeds_ref[anchor_j.0 as usize].order;
        let color_j = seeds_ref[anchor_j.0 as usize].color;
        if ojr < oir && color_j & color_i != 0 && ojq < oiq {
            proof {
                lemma_gap_score_bound((oir - ojr) as nat, (oiq - ojq) as nat);
            }
            let cand: Score = f[j] + heuristic_score(oir - ojr, oiq - ojq);
            assert(cand == p.gain(f@, j as int, i as int));
            if cand > best_f {
                best_f = cand;
                best_j = j;
            }
        }
        j = j + 1;
    }
    (best_f, best_j)
}

/// The best predecessor of anchor `i` among all anchors before it, read
/// from the store.
fn exact_best(
    tree: &SearchTree,
    f: &Vec<Score>,
    i: usize,
    iq: usize,
    ir: usize,
    w: i128,
    Ghost(p): Ghost<ChainProblem>,
) -> (best: (Score, usize))
    requires
        p.well_formed(),
        !p.windowed,
        1 <= i < p.anchors.len(),
        f@.len() == i,
        forall|k: int| 0 <= k < i ==> 0 <= #[trigger] f@[k] <= k * 0x2000_0000_0000,
        tree_tracks(p, tree@, f@, i as int),
        iq == p.query_pos(i as int),
        ir == p.ref_pos(i as int),
        w == p.bonus(),
    ensures
        best_ok(p, f@, i as int, best.0, best.1),
{
    assert(p.countable(i as int));
    let found = tree.mrq((0, 0), (iq, i));
    match found {
        None => {
            assert forall|j: int| #[trigger] p.is_candidate(j, i as int) implies p.gain(f@, j, i as int)
                <= 0 by {
                assert(p.countable(j));
                assert(crate::rmq::in_range(tree@[j], (0, 0), (iq, i)));
            }
            (0, i)
        },
        Some((best, id)) => {
            let ghost at = choose|at: int|
                0 <= at < tree@.len() && crate::rmq::is_first_maximum(tree@, (0, 0), (iq, i), at)
                    && found->Some_0 == (tree@[at].value->Some_0, tree@[at].id);
            assert(at == id && at < i);
            assert(p.countable(at));
            let cand: Score = best - 1000 * ((ir as i128) + (iq as i128)) + 1000 * w;
            assert(cand == p.gain(f@, at, i as int));
            assert forall|j: int| #[trigger] p.is_candidate(j, i as int) implies p.gain(f@, j, i as int)
                <= cand by {
                assert(p.countable(j));
                assert(crate::rmq::in_range(tree@[j], (0, 0), (iq, i)));
            }
            if cand > 0 {
                assert forall|j: int| j < id && #[trigger] p.is_candidate(j, i as int) implies p.gain(
                    f@,
                    j,
                    i as int,
                ) < cand by {
                    assert(p.countable(j));
                    assert(crate::rmq::in_range(tree@[j], (0, 0), (iq, i)));
                }
                (cand, id)
            } else {
                (0, i)
            }
        },
    }
}

/// A store with a key for every anchor and the value of the first.
fn exact_store(
    anchors: &Anchors,
    seeds_ref: &Vec<KmerNode>,
    seeds_q: &Vec<KmerNode>,
    modulo_positions: (u32, u32),
    Ghost(p): Ghost<ChainProblem>,
) -> (tree: SearchTree)
    requires
        p.well_formed(),
        !p.windowed,
        p.anchors == anchors@,
        p.seeds_ref == seeds_ref@,
        p.seeds_q == seeds_q@,
        p.modulo_positions == modulo_positions,
        anchors@.len() >= 1,
    ensures
        tree_tracks(p, tree@, seq![0i128], 1),
{
    let n = anchors.len();
    let q_len = seeds_q.len() as u32;
    let r_len = seeds_ref.len() as u32;
    let mut tree = SearchTree::new();
    let mut k: usize = 0;
    while k < n
        invariant
            n == anchors@.len(),
            p.well_formed(),
            !p.windowed,
            p.anchors == anchors@,
            p.seeds_ref == seeds_ref@,
            p.seeds_q == seeds_q@,
            p.modulo_positions == modulo_positions,
            k <= n,
            q_len == seeds_q@.len(),
            tree@.len() == k,
            forall|m: int|
                0 <= m < k ==> #[trigger] tree@[m] == (Entry {
                    key: (p.query_pos(m) as usize, m as usize),
                    value: None,
                    id: 0,
                }),
        decreases n - k,
    {
        let a = anchors[k];
        assert(p.countable(k as int));
        let key_q = modulo_n(seeds_q[a.1 as usize].order, q_len, modulo_positions.1);
        proof {
            lemma_position_of(tree@, (key_q, k));
            let at = position_of(tree@, (key_q, k));
            if at < tree@.len() {
                assert(tree@[at].key.1 == at);
            }
        }
        tree.insert((key_q, k));
        k = k + 1;
    }
    let a0 = anchors[0];
    assert(p.countable(0));
    let q0 = modulo_n(seeds_q[a0.1 as usize].order, q_len, modulo_positions.1);
    let r0 = modulo_n(seeds_ref[a0.0 as usize].order, r_len, modulo_positions.0);
    proof {
        lemma_position_of(tree@, (q0, 0));
        assert(tree@[0].key == (q0, 0usize));
    }
    tree.update_query_info((q0, 0), 1000 * ((q0 as i128) + (r0 as i128)), 0);
    tree
}

/// Scores the anchors.
///
/// On entry `f` holds the score of the first anchor, which is zero, and
/// `pointer_array` has a place for every anchor. On return `f` holds a score
/// for every anchor and `pointer_array` the predecessor of every anchor but
/// the first, whose place is left as it was.
pub fn score_anchors(
    f: &mut Vec<Score>,
    pointer_array: &mut Vec<usize>,
    anchors: &Anchors,
    chain_heuristic: bool,
    chain_reads: bool,
    h: usize,
    seeds_ref: &Vec<KmerNode>,
    seeds_q: &Vec<KmerNode>,
    modulo_positions: (u32, u32),
)
    requires
        old(f)@ == seq![0i128],
        old(pointer_array)@.len() == anchors@.len(),
        anchors@.len() >= 1 || (chain_heuristic && chain_reads),
        problem(
            anchors@,
            seeds_ref@,
            seeds_q@,
            chain_heuristic,
            chain_reads,
            h as nat,
            modulo_positions,
        ).well_formed(),
    ensures
        anchors@.len() >= 1 ==> problem(
            anchors@,
            seeds_ref@,
            seeds_q@,
            chain_heuristic,
            chain_reads,
            h as nat,
            modulo_positions,
        ).scored(final(f)@, final(pointer_array)@),
        anchors@.len() >= 1 ==> final(pointer_array)@[0] == old(pointer_array)@[0],
        anchors@.len() == 0 ==> final(f)@ == old(f)@ && final(pointer_array)@ == old(pointer_array)@,
{
    let n = anchors.len();
    let ghost p = problem(
        anchors@,
        seeds_ref@,
        seeds_q@,
        chain_heuristic,
        chain_reads,
        h as nat,
        modulo_positions,
    );
    if n == 0 {
        return ;
    }
    let windowed = chain_heuristic && chain_reads;
    let q_len = seeds_q.len() as u32;
    let r_len = seeds_ref.len() as u32;
    let w: i128 = if chain_reads {
        10
    } else {
        100
    };
    let mut tree = if windowed {
        SearchTree::new()
    } else {
        exact_store(anchors, seeds_ref, seeds_q, modulo_positions, Ghost(p))
    };
    let mut i: usize = 1;
    while i < n
        invariant
            n == anchors@.len(),
            p == problem(
                anchors@,
                seeds_ref@,
                seeds_q@,
                chain_heuristic,
                chain_reads,
                h as nat,
                modulo_positions,
            ),
            p.well_formed(),
            windowed == p.windowed,
            w == p.bonus(),
            !windowed ==> q_len == seeds_q@.len(),
            !windowed ==> r_len == seeds_ref@.len(),
            1 <= i <= n,
            f@.len() == i,
            pointer_array@.len() == n,
            f@[0] == 0,
            old(pointer_array)@.len() == n,
            pointer_array@[0] == old(pointer_array)@[0],
            forall|k: int| 1 <= k < i ==> #[trigger] p.step_ok(f@, pointer_array@, k),
            forall|k: int| 0 <= k < i ==> 0 <= #[trigger] f@[k] <= k * 0x2000_0000_0000,
            !windowed ==> tree_tracks(p, tree@, f@, i as int),
        decreases n - i,
    {
        let ghost f0 = f@;
        let ghost ptr0 = pointer_array@;
        let ghost tree0 = tree@;
        let anchor_i = anchors[i];
        let mut iq: usize = 0;
        let mut ir: usize = 0;
        let best = if windowed {
            windowed_best(f, anchors, seeds_ref, seeds_q, h, i, Ghost(p))
        } else {
            assert(p.countable(i as int));
            iq = modulo_n(seeds_q[anchor_i.1 as usize].order, q_len, modulo_positions.1);
            ir = modulo_n(seeds_ref[anchor_i.0 as usize].order, r_len, modulo_positions.0);
            exact_best(&tree, f, i, iq, ir, w, Ghost(p))
        };
        f.push(best.0);
        if !windowed {
            proof {
                lemma_tracked_position(p, tree@, f0, i as int, i as int);
            }
            tree.update_query_info(
                (iq, i),
                best.0 + 1000 * w + 1000 * ((ir as i128) + (iq as i128)),
                i,
            );
        }
        pointer_array.set(i, best.1);
        proof {
            assert forall|k: int| 1 <= k < i implies #[trigger] p.step_ok(f@, pointer_array@, k) by {
                p.lemma_step_frame(f0, ptr0, f@, pointer_array@, k);
            }
            lemma_best_is_step(p, f0, ptr0, i as int, best.0, best.1);
            if !windowed {
                assert forall|k: int| 0 <= k < tree@.len() implies #[trigger] tree@[k] == if k < i + 1 {
                    Entry {
                        key: (p.query_pos(k) as usize, k as usize),
                        value: Some(p.stored(f@[k], k) as i128),
                        id: k as usize,
                    }
                } else {
                    Entry { key: (p.query_pos(k) as usize, k as usize), value: None, id: 0 }
                } by {
                    assert(tree0[k] == tree0[k]);
                }
            }
        }
        i = i + 1;
    }
}

/// The anchors have one scoring only: the scores and the pointers of two
/// scorings that agree on the pointer of the first anchor are the same.
pub proof fn lemma_scoring_is_unique(
    p: ChainProblem,
    f_a: Seq<Score>,
    ptr_a: Seq<usize>,
    f_b: Seq<Score>,
    ptr_b: Seq<usize>,
)
    requires
        p.scored(f_a, ptr_a),
        p.scored(f_b, ptr_b),
        p.anchors.len() > 0 ==> ptr_a[0] == ptr_b[0],
    ensures
        f_a == f_b,
        ptr_a == ptr_b,
{
    if p.anchors.len() > 0 {
        lemma_same_scores_up_to(p, f_a, ptr_a, f_b, ptr_b, p.anchors.len() - 1);
    }
    assert(f_a =~= f_b);
    assert(ptr_a =~= ptr_b);
}

/// Two scorings agree on every anchor up to `i`.
proof fn lemma_same_scores_up_to(
    p: ChainProblem,
    f_a: Seq<Score>,
    ptr_a: Seq<usize>,
    f_b: Seq<Score>,
    ptr_b: Seq<usize>,
    i: int,
)
    requires
        p.scored(f_a, ptr_a),
        p.scored(f_b, ptr_b),
        ptr_a[0] == ptr_b[0],
        0 <= i < p.anchors.len(),
    ensures
        forall|k: int| 0 <= k <= i ==> f_a[k] == f_b[k] && ptr_a[k] == ptr_b[k],
    decreases i,
{
    if i > 0 {
        lemma_same_scores_up_to(p, f_a, ptr_a, f_b, ptr_b, i - 1);
        assert(p.step_ok(f_a, ptr_a, i));
        assert(p.step_ok(f_b, ptr_b, i));
        assert forall|j: int| #[trigger] p.is_candidate(j, i) implies p.gain(f_a, j, i) == p.gain(f_b, j, i) by {
            assert(f_a[j] == f_b[j]);
        }
        if f_a[i] > 0 {
            assert(p.is_candidate(ptr_a[i] as int, i));
        }
        if f_b[i] > 0 {
            assert(p.is_candidate(ptr_b[i] as int, i));
        }
    }
}

/// A chain link of the windowed mode goes forward in the reference and in
/// the query, between two nodes that share a genome.
pub proof fn lemma_windowed_link(p: ChainProblem, f: Seq<Score>, pointers: Seq<usize>, i: int)
    requires
        p.windowed,
        !p.coarse,
        p.scored(f, pointers),
        0 <= i < p.anchors.len(),
        pointers[i] != i,
        i == 0 ==> pointers[0] == 0,
    ensures
        0 <= pointers[i] < i,
        p.ref_order(pointers[i] as int) < p.ref_order(i),
        p.query_order(pointers[i] as int) < p.query_order(i),
        p.color(pointers[i] as int) & p.color(i) != 0,
{
    assert(p.step_ok(f, pointers, i));
}

/// A chain link of the exact mode goes to an earlier anchor that is
/// earlier in the query too, counted from the modulo position.
pub proof fn lemma_exact_link(p: ChainProblem, f: Seq<Score>, pointers: Seq<usize>, i: int)
    requires
        !p.windowed,
        !p.coarse,
        p.scored(f, pointers),
        0 <= i < p.anchors.len(),
        pointers[i] != i,
        i == 0 ==> pointers[0] == 0,
    ensures
        0 <= pointers[i] < i,
        p.query_pos(pointers[i] as int) < p.query_pos(i),
{
    assert(p.step_ok(f, pointers, i));
}

} // verus!
