//! The coarse chainer: chaining over landmark nodes.
//!
//! A landmark is a sparsely sampled reference seed that knows its
//! coordinate in every genome it belongs to. Every anchor is moved to the
//! landmark nearest before its reference seed, landmarks with too few
//! anchors are dropped, and the anchors of the others are chained with a
//! window, by the distance between the landmarks in a genome they share.

use crate::anchor::anchors_from_seeds;
use crate::anchor::hits_match;
use crate::anchor::hits_of_keys;
use crate::anchor::ids_in_range;
use crate::anchor::lemma_hits_in_range;
use crate::anchor::Hits;
use crate::anchor::majority_is_forward;
use crate::extract::chains_match;
use crate::extract::get_best_chains;
use crate::extract::EmittedChain;
use crate::extract::Scored;
use crate::fine::best_ok;
use crate::fine::coarse_problem;
use crate::fine::lemma_best_is_step;
use crate::fine::ChainProblem;
use crate::fx::map_entry_or_insert;
use crate::fx::map_get;
use crate::fx::map_insert;
use crate::fx::map_keys;
use crate::fx::map_new;
use crate::rank::is_ranking;
use crate::score::heuristic_super_score;
use crate::score::Score;
use crate::seed::anchors_in_range;
use crate::seed::get_first_nonzero_bit;
use crate::seed::get_nonzero_bits;
use crate::seed::lowest_genome;
use crate::seed::Color;
use crate::seed::ids_are_indices;
use crate::seed::nonzero_bits;
use crate::seed::Anchors;
use crate::seed::KmerNode;
use crate::sorting::pair_before;
use crate::sorting::sort_pairs;
use fxhash::FxHashMap;
use fxhash::FxHashSet;
use vstd::prelude::*;

verus! {

broadcast use vstd::std_specs::hash::group_hash_axioms;

/// The coordinates of a landmark: for the `k`-th lowest genome of its
/// color the `k`-th of its positions, as far as both lists go.
pub open spec fn positions_of(node: KmerNode) -> Seq<(usize, usize)> {
    let bits = nonzero_bits(node.color);
    let positions = node.actual_ref_positions@;
    let n = if bits.len() <= positions.len() {
        bits.len()
    } else {
        positions.len()
    };
    Seq::new(n, |k: int| (bits[bits.len() - 1 - k], positions[k]))
}

/// The coordinates of a landmark.
pub fn landmark_positions(node: &KmerNode) -> (list: Vec<(usize, usize)>)
    ensures
        list@ == positions_of(*node),
{
    let bits = get_nonzero_bits(node.color);
    let mut list: Vec<(usize, usize)> = Vec::new();
    let mut k: usize = 0;
    while k < bits.len() && k < node.actual_ref_positions.len()
        invariant
            k <= bits@.len(),
            k <= node.actual_ref_positions@.len(),
            bits@ == nonzero_bits(node.color),
            list@.len() == k,
            forall|j: int|
                0 <= j < k ==> #[trigger] list@[j] == (
                    bits@[bits@.len() - 1 - j],
                    node.actual_ref_positions@[j],
                ),
        decreases bits@.len() - k,
    {
        list.push((bits[bits.len() - 1 - k], node.actual_ref_positions[k]));
        k = k + 1;
    }
    assert(list@ =~= positions_of(*node));
    list
}

/// The smaller of `a` and `b`, where `a` may be missing.
pub open spec fn least(a: Option<nat>, b: nat) -> Option<nat> {
    match a {
        None => Some(b),
        Some(x) => Some(
            if b < x {
                b
            } else {
                x
            },
        ),
    }
}

/// The distance between two coordinates.
pub open spec fn coordinate_gap(a: usize, b: usize) -> nat {
    if a >= b {
        (a - b) as nat
    } else {
        (b - a) as nat
    }
}

/// The least distance between the coordinate `pos` in the genome `col`
/// and a coordinate in that genome among the first `n` of `list`.
pub open spec fn genome_distance(list: Seq<(usize, usize)>, col: usize, pos: usize, n: int) -> Option<nat>
    decreases n,
{
    if n <= 0 {
        None
    } else {
        let before = genome_distance(list, col, pos, n - 1);
        if list[n - 1].0 == col {
            least(before, coordinate_gap(pos, list[n - 1].1))
        } else {
            before
        }
    }
}

/// The least distance between a coordinate of `earlier` and one among the
/// first `m` of `later` in the same genome; `None` where they share none.
pub open spec fn landmark_distance(earlier: Seq<(usize, usize)>, later: Seq<(usize, usize)>, m: int) -> Option<
    nat,
>
    decreases m,
{
    if m <= 0 {
        None
    } else {
        let before = landmark_distance(earlier, later, m - 1);
        match genome_distance(earlier, later[m - 1].0, later[m - 1].1, earlier.len() as int) {
            None => before,
            Some(d) => least(before, d),
        }
    }
}

/// The least distance between two landmarks in a genome that both have a
/// coordinate in; `None` where there is no such genome.
pub fn min_dist_ref_nodes(ref_node1: &Vec<(usize, usize)>, ref_node2: &Vec<(usize, usize)>) -> (best_dist:
    Option<usize>)
    ensures
        best_dist is Some == landmark_distance(ref_node1@, ref_node2@, ref_node2@.len() as int) is Some,
        best_dist is Some ==> best_dist->Some_0 == landmark_distance(
            ref_node1@,
            ref_node2@,
            ref_node2@.len() as int,
        )->Some_0,
{
    let mut best_dist: Option<usize> = None;
    let mut m: usize = 0;
    while m < ref_node2.len()
        invariant
            m <= ref_node2@.len(),
            best_dist is Some == landmark_distance(ref_node1@, ref_node2@, m as int) is Some,
            best_dist is Some ==> best_dist->Some_0 == landmark_distance(ref_node1@, ref_node2@, m as int)->Some_0,
        decreases ref_node2@.len() - m,
    {
        let col = ref_node2[m].0;
        let pos = ref_node2[m].1;
        let mut n: usize = 0;
        let ghost start = best_dist;
        let ghost mut inner: Option<nat> = None;
        while n < ref_node1.len()
            invariant
                n <= ref_node1@.len(),
                inner == genome_distance(ref_node1@, col, pos, n as int),
                best_dist is Some == (start is Some || inner is Some),
                best_dist is Some ==> best_dist->Some_0 == match inner {
                    None => start->Some_0 as nat,
                    Some(d) => least(
                        match start {
                            None => None,
                            Some(x) => Some(x as nat),
                        },
                        d,
                    )->Some_0,
                },
            decreases ref_node1@.len() - n,
        {
            if ref_node1[n].0 == col {
                let other = ref_node1[n].1;
                let gap = if pos >= other {
                    pos - other
                } else {
                    other - pos
                };
                proof {
                    inner = least(inner, coordinate_gap(pos, other));
                }
                best_dist = match best_dist {
                    None => Some(gap),
                    Some(x) => Some(
                        if gap < x {
                            gap
                        } else {
                            x
                        },
                    ),
                };
            }
            n = n + 1;
        }
        m = m + 1;
    }
    best_dist
}


/// The first coordinate in the genome `col` among `list[from..]`.
pub open spec fn first_in_genome(list: Seq<(usize, usize)>, col: usize, from: int) -> Option<usize>
    decreases list.len() - from,
{
    if from < 0 || from >= list.len() {
        None
    } else if list[from].0 == col {
        Some(list[from].1)
    } else {
        first_in_genome(list, col, from + 1)
    }
}

/// The first coordinate of `ref_node1` in the genome `col`, or `None`.
fn find_in_genome(list: &Vec<(usize, usize)>, col: usize) -> (found: Option<usize>)
    ensures
        found == first_in_genome(list@, col, 0),
{
    let mut k: usize = 0;
    while k < list.len()
        invariant
            k <= list@.len(),
            first_in_genome(list@, col, 0) == first_in_genome(list@, col, k as int),
        decreases list@.len() - k,
    {
        if list[k].0 == col {
            return Some(list[k].1);
        }
        k = k + 1;
    }
    None
}

/// The distance between two landmarks in the lowest genome of
/// `shared_col`: between the first coordinate of each in that genome,
/// where the later landmark counts as being at zero if it has none;
/// `None` where the earlier landmark has no coordinate in that genome.
pub fn min_dist_ref_nodes_lazy(
    ref_node1: &Vec<(usize, usize)>,
    ref_node2: &Vec<(usize, usize)>,
    shared_col: Color,
) -> (dist: Option<usize>)
    ensures
        ({
            let col = lowest_genome(shared_col);
            let here = match first_in_genome(ref_node2@, col, 0) {
                Some(pos) => pos,
                None => 0,
            };
            match first_in_genome(ref_node1@, col, 0) {
                Some(pos) => dist == Some(coordinate_gap(pos, here) as usize),
                None => dist is None,
            }
        }),
{
    let shared_col_ind = get_first_nonzero_bit(shared_col);
    let shared_pos = match find_in_genome(ref_node2, shared_col_ind) {
        Some(pos) => pos,
        None => 0,
    };
    match find_in_genome(ref_node1, shared_col_ind) {
        Some(pos) => {
            if shared_pos < pos {
                Some(pos - shared_pos)
            } else {
                Some(shared_pos - pos)
            }
        },
        None => None,
    }
}

/// The number of anchors that a landmark must exceed to be kept:
/// `0.35 * 0.9^16 * samp_freq`, rounded down.
pub open spec fn density_cutoff(samp_freq: nat) -> nat {
    samp_freq * 64855706609814435 / 1_000_000_000_000_000_000
}

/// The number of anchors that a landmark must exceed to be kept.
pub fn landmark_cutoff(samp_freq: usize) -> (cutoff: usize)
    ensures
        cutoff == density_cutoff(samp_freq as nat),
{
    ((samp_freq as u128) * 64855706609814435u128 / 1_000_000_000_000_000_000u128) as usize
}

/// The hits of the landmark `c` among the first `n` anchors: for every
/// anchor whose reference seed has `c` as its landmark, the position and
/// the id of its query seed.
pub open spec fn landmark_hits(
    anchors: Seq<(u32, u32)>,
    closest: Seq<Option<u32>>,
    seeds_q: Seq<KmerNode>,
    c: u32,
    n: int,
) -> Seq<(usize, u32)>
    decreases n,
{
    if n <= 0 {
        Seq::empty()
    } else {
        let before = landmark_hits(anchors, closest, seeds_q, c, n - 1);
        let a = anchors[n - 1];
        if closest[a.0 as int] == Some(c) {
            before.push((seeds_q[a.1 as int].actual_ref_positions@[0], a.1))
        } else {
            before
        }
    }
}

/// What the coarse chainer is given besides the anchors.
pub struct Landmarks {
    pub seeds_ref: Seq<KmerNode>,
    pub seeds_q: Seq<KmerNode>,
    pub closest: Seq<Option<u32>>,
    pub samp_freq: nat,
    pub read_length: int,
}

impl Landmarks {
    /// Every reference seed has a place in `closest`, every landmark is a
    /// reference seed, and every query seed has a position, which is not
    /// beyond the length of the read.
    pub open spec fn well_formed(self) -> bool {
        &&& self.closest.len() == self.seeds_ref.len()
        &&& forall|r: int|
            0 <= r < self.closest.len() && (#[trigger] self.closest[r]) is Some ==> self.closest[r]->Some_0
                < self.seeds_ref.len()
        &&& forall|q: int|
            0 <= q < self.seeds_q.len() ==> (#[trigger] self.seeds_q[q]).actual_ref_positions@.len() > 0
                && self.seeds_q[q].actual_ref_positions@[0] <= self.read_length
    }

    /// All the hits of the landmark `c`.
    pub open spec fn hits(self, anchors: Seq<(u32, u32)>, c: u32) -> Seq<(usize, u32)> {
        landmark_hits(anchors, self.closest, self.seeds_q, c, anchors.len() as int)
    }

    /// Whether the landmark `c` has more hits than the cutoff.
    pub open spec fn survives(self, anchors: Seq<(u32, u32)>, c: u32) -> bool {
        self.hits(anchors, c).len() > density_cutoff(self.samp_freq)
    }

    /// Whether `groups` lists the landmarks that survive, each once with
    /// its order before it, in ascending order.
    pub open spec fn is_listing(self, anchors: Seq<(u32, u32)>, groups: Seq<(u32, u32)>) -> bool {
        &&& forall|k: int|
            0 <= k < groups.len() ==> {
                &&& (#[trigger] groups[k]).1 < self.seeds_ref.len()
                &&& groups[k].0 == self.seeds_ref[groups[k].1 as int].order
                &&& self.survives(anchors, groups[k].1)
            }
        &&& forall|c: u32|
            c < self.seeds_ref.len() && #[trigger] self.survives(anchors, c) ==> exists|k: int|
                0 <= k < groups.len() && (#[trigger] groups[k]).1 == c
        &&& forall|a: int, b: int| 0 <= a < b < groups.len() ==> pair_before(groups[a], groups[b])
    }

    /// The anchors of the first `k` landmarks of `groups`: for every hit
    /// of a landmark the landmark and the query seed.
    pub open spec fn expand(self, anchors: Seq<(u32, u32)>, groups: Seq<(u32, u32)>, k: int) -> Seq<(u32, u32)>
        decreases k,
    {
        if k <= 0 {
            Seq::empty()
        } else {
            let c = groups[k - 1].1;
            let hits = self.hits(anchors, c);
            self.expand(anchors, groups, k - 1) + Seq::new(hits.len(), |j: int| (c, hits[j].1))
        }
    }
}

/// The landmarks that survive have one listing only.
pub proof fn lemma_listing_is_unique(
    l: Landmarks,
    anchors: Seq<(u32, u32)>,
    first: Seq<(u32, u32)>,
    second: Seq<(u32, u32)>,
)
    requires
        l.is_listing(anchors, first),
        l.is_listing(anchors, second),
    ensures
        first == second,
{
    if first.len() <= second.len() {
        lemma_listings_agree(l, anchors, first, second);
    } else {
        lemma_listings_agree(l, anchors, second, first);
    }
}

/// Of two listings the shorter is the longer.
proof fn lemma_listings_agree(l: Landmarks, anchors: Seq<(u32, u32)>, short: Seq<(u32, u32)>, long: Seq<(u32, u32)>)
    requires
        l.is_listing(anchors, short),
        l.is_listing(anchors, long),
        short.len() <= long.len(),
    ensures
        short == long,
{
    if short.len() > 0 {
        lemma_listings_agree_up_to(l, anchors, short, long, short.len() - 1);
    }
    if short.len() < long.len() {
        let extra = long[short.len() as int];
        assert(l.survives(anchors, extra.1));
        let k = choose|k: int| 0 <= k < short.len() && (#[trigger] short[k]).1 == extra.1;
        assert(short[k] == long[k]);
        assert(pair_before(long[k], long[short.len() as int]));
    }
    assert(short =~= long);
}

/// Two listings agree at every place up to `k`.
proof fn lemma_listings_agree_up_to(
    l: Landmarks,
    anchors: Seq<(u32, u32)>,
    short: Seq<(u32, u32)>,
    long: Seq<(u32, u32)>,
    k: int,
)
    requires
        l.is_listing(anchors, short),
        l.is_listing(anchors, long),
        0 <= k < short.len() <= long.len(),
    ensures
        forall|m: int| 0 <= m <= k ==> short[m] == long[m],
    decreases k,
{
    if k > 0 {
        lemma_listings_agree_up_to(l, anchors, short, long, k - 1);
    }
    lemma_listed_not_before(l, anchors, short, long, k);
    lemma_listed_not_before(l, anchors, long, short, k);
}

/// Where two listings agree before the place `k`, what the first holds at
/// `k` is not before what the second holds there.
proof fn lemma_listed_not_before(
    l: Landmarks,
    anchors: Seq<(u32, u32)>,
    first: Seq<(u32, u32)>,
    second: Seq<(u32, u32)>,
    k: int,
)
    requires
        l.is_listing(anchors, first),
        l.is_listing(anchors, second),
        0 <= k < first.len(),
        k < second.len(),
        forall|m: int| 0 <= m < k ==> first[m] == second[m],
    ensures
        !pair_before(first[k], second[k]),
{
    if pair_before(first[k], second[k]) {
        assert(l.survives(anchors, first[k].1));
        let m = choose|m: int| 0 <= m < second.len() && (#[trigger] second[m]).1 == first[k].1;
        assert(second[m] == first[k]);
        if m > k {
            assert(pair_before(second[k], second[m]));
        } else if m < k {
            assert(pair_before(first[m], first[k]));
        }
    }
}

/// Whether `dict` holds the hits of every landmark that has one.
pub open spec fn is_grouping(dict: Map<u32, Vec<(usize, u32)>>, l: Landmarks, anchors: Seq<(u32, u32)>, n: int) -> bool {
    forall|c: u32|
        #![trigger dict.contains_key(c)]
        #![trigger landmark_hits(anchors, l.closest, l.seeds_q, c, n)]
        {
            &&& dict.contains_key(c) <==> landmark_hits(anchors, l.closest, l.seeds_q, c, n).len() > 0
            &&& dict.contains_key(c) ==> dict[c]@ == landmark_hits(anchors, l.closest, l.seeds_q, c, n)
        }
}

/// A landmark with a hit is a reference seed, and every hit names a query
/// seed.
pub proof fn lemma_landmark_hits(l: Landmarks, anchors: Seq<(u32, u32)>, c: u32, n: int)
    requires
        l.well_formed(),
        0 <= n <= anchors.len(),
        forall|k: int|
            0 <= k < anchors.len() ==> (#[trigger] anchors[k]).0 < l.seeds_ref.len() && anchors[k].1
                < l.seeds_q.len(),
    ensures
        landmark_hits(anchors, l.closest, l.seeds_q, c, n).len() > 0 ==> c < l.seeds_ref.len(),
        forall|j: int|
            0 <= j < landmark_hits(anchors, l.closest, l.seeds_q, c, n).len() ==> (#[trigger] landmark_hits(
                anchors,
                l.closest,
                l.seeds_q,
                c,
                n,
            )[j]).1 < l.seeds_q.len(),
    decreases n,
{
    if n > 0 {
        lemma_landmark_hits(l, anchors, c, n - 1);
        let a = anchors[n - 1];
        assert(a.0 < l.seeds_ref.len());
        if l.closest[a.0 as int] == Some(c) {
            assert(l.closest[a.0 as int] is Some);
        }
        let before = landmark_hits(anchors, l.closest, l.seeds_q, c, n - 1);
        let now = landmark_hits(anchors, l.closest, l.seeds_q, c, n);
        assert forall|j: int| 0 <= j < now.len() implies (#[trigger] now[j]).1 < l.seeds_q.len() by {
            if j < before.len() {
                assert(now[j] == before[j]);
            }
        }
    }
}

/// The hits of every landmark.
fn group_by_landmark(
    normal_anchors: &Anchors,
    seeds_q: &Vec<KmerNode>,
    closest_kmer_vec: &Vec<Option<u32>>,
    Ghost(l): Ghost<Landmarks>,
) -> (dict: FxHashMap<u32, Vec<(usize, u32)>>)
    requires
        l.well_formed(),
        l.seeds_q == seeds_q@,
        l.closest == closest_kmer_vec@,
        forall|k: int|
            0 <= k < normal_anchors@.len() ==> (#[trigger] normal_anchors@[k]).0 < l.seeds_ref.len()
                && normal_anchors@[k].1 < l.seeds_q.len(),
    ensures
        is_grouping(dict@, l, normal_anchors@, normal_anchors@.len() as int),
{
    let mut super_nodes_map: FxHashMap<u32, Vec<(usize, u32)>> = map_new();
    let mut i: usize = 0;
    while i < normal_anchors.len()
        invariant
            l.well_formed(),
            l.seeds_q == seeds_q@,
            l.closest == closest_kmer_vec@,
            forall|k: int|
                0 <= k < normal_anchors@.len() ==> (#[trigger] normal_anchors@[k]).0 < l.seeds_ref.len()
                    && normal_anchors@[k].1 < l.seeds_q.len(),
            i <= normal_anchors@.len(),
            is_grouping(super_nodes_map@, l, normal_anchors@, i as int),
        decreases normal_anchors@.len() - i,
    {
        let ref_id = normal_anchors[i].0;
        let q_id = normal_anchors[i].1;
        let ghost before = super_nodes_map@;
        match closest_kmer_vec[ref_id as usize] {
            Some(closest_coord_node) => {
                assert(l.seeds_q[q_id as int].actual_ref_positions@.len() > 0);
                let position = seeds_q[q_id as usize].actual_ref_positions[0];
                let list_of_hits = map_entry_or_insert(&mut super_nodes_map, closest_coord_node, Vec::new());
                list_of_hits.push((position, q_id));
            },
            None => {},
        }
        proof {
            assert forall|c: u32|
                #![trigger super_nodes_map@.contains_key(c)]
                #![trigger landmark_hits(normal_anchors@, l.closest, l.seeds_q, c, i + 1)]
                {
                    &&& super_nodes_map@.contains_key(c) <==> landmark_hits(
                        normal_anchors@,
                        l.closest,
                        l.seeds_q,
                        c,
                        i + 1,
                    ).len() > 0
                    &&& super_nodes_map@.contains_key(c) ==> super_nodes_map@[c]@ == landmark_hits(
                        normal_anchors@,
                        l.closest,
                        l.seeds_q,
                        c,
                        i + 1,
                    )
                } by {
                let done = landmark_hits(normal_anchors@, l.closest, l.seeds_q, c, i as int);
                assert(before.contains_key(c) <==> done.len() > 0);
                assert(before.contains_key(c) ==> before[c]@ == done);
            }
        }
        i = i + 1;
    }
    super_nodes_map
}

/// The landmarks that survive, each with its order before it, in ascending
/// order.
fn list_landmarks(
    super_nodes_map: &FxHashMap<u32, Vec<(usize, u32)>>,
    seeds_ref: &Vec<KmerNode>,
    samp_freq: usize,
    Ghost(l): Ghost<Landmarks>,
    Ghost(anchors): Ghost<Seq<(u32, u32)>>,
) -> (groups: Vec<(u32, u32)>)
    requires
        l.well_formed(),
        l.seeds_ref == seeds_ref@,
        l.samp_freq == samp_freq,
        forall|k: int|
            0 <= k < anchors.len() ==> (#[trigger] anchors[k]).0 < l.seeds_ref.len() && anchors[k].1
                < l.seeds_q.len(),
        is_grouping(super_nodes_map@, l, anchors, anchors.len() as int),
    ensures
        l.is_listing(anchors, groups@),
{
    let keys = map_keys(super_nodes_map);
    let cutoff = landmark_cutoff(samp_freq);
    let mut groups: Vec<(u32, u32)> = Vec::new();
    let mut i: usize = 0;
    while i < keys.len()
        invariant
            l.well_formed(),
            l.seeds_ref == seeds_ref@,
            cutoff == density_cutoff(l.samp_freq),
            forall|k: int|
                0 <= k < anchors.len() ==> (#[trigger] anchors[k]).0 < l.seeds_ref.len() && anchors[k].1
                    < l.seeds_q.len(),
            is_grouping(super_nodes_map@, l, anchors, anchors.len() as int),
            keys@.no_duplicates(),
            keys@.to_set() == super_nodes_map@.dom(),
            i <= keys@.len(),
            forall|k: int|
                0 <= k < groups@.len() ==> {
                    &&& (#[trigger] groups@[k]).1 < l.seeds_ref.len()
                    &&& groups@[k].0 == l.seeds_ref[groups@[k].1 as int].order
                    &&& l.survives(anchors, groups@[k].1)
                    &&& exists|m: int| 0 <= m < i && keys@[m] == groups@[k].1
                },
            forall|m: int|
                0 <= m < i && l.survives(anchors, #[trigger] keys@[m]) ==> exists|k: int|
                    0 <= k < groups@.len() && (#[trigger] groups@[k]).1 == keys@[m],
            forall|a: int, b: int| 0 <= a < b < groups@.len() ==> groups@[a].1 != groups@[b].1,
        decreases keys@.len() - i,
    {
        let coord_node = keys[i];
        assert(keys@.to_set().contains(coord_node));
        assert(super_nodes_map@.contains_key(coord_node));
        proof {
            lemma_landmark_hits(l, anchors, coord_node, anchors.len() as int);
        }
        let ghost before = groups@;
        match map_get(super_nodes_map, &coord_node) {
            Some(list_of_hits) => {
                if list_of_hits.len() > cutoff {
                    groups.push((seeds_ref[coord_node as usize].order, coord_node));
                    assert(groups@[before.len() as int].1 == keys@[i as int]);
                    assert forall|m: int|
                        0 <= m < i + 1 && l.survives(anchors, #[trigger] keys@[m]) implies exists|k: int|
                        0 <= k < groups@.len() && (#[trigger] groups@[k]).1 == keys@[m] by {
                        if m < i {
                            let k = choose|k: int| 0 <= k < before.len() && (#[trigger] before[k]).1 == keys@[m];
                            assert(groups@[k].1 == keys@[m]);
                        }
                    }
                    assert forall|a: int, b: int| 0 <= a < b < groups@.len() implies groups@[a].1
                        != groups@[b].1 by {
                        if b == before.len() {
                            let m = choose|m: int| 0 <= m < i && keys@[m] == before[a].1;
                        }
                    }
                } else {
                    assert forall|m: int|
                        0 <= m < i + 1 && l.survives(anchors, #[trigger] keys@[m]) implies exists|k: int|
                        0 <= k < groups@.len() && (#[trigger] groups@[k]).1 == keys@[m] by {}
                }
            },
            None => {},
        }
        i = i + 1;
    }
    let ghost unsorted = groups@;
    assert(unsorted.no_duplicates());
    sort_pairs(&mut groups);
    proof {
        broadcast use vstd::seq_lib::group_to_multiset_ensures;

        unsorted.lemma_multiset_has_no_duplicates();
        groups@.lemma_multiset_has_no_duplicates_conv();
        assert forall|k: int| 0 <= k < groups@.len() implies {
            &&& (#[trigger] groups@[k]).1 < l.seeds_ref.len()
            &&& groups@[k].0 == l.seeds_ref[groups@[k].1 as int].order
            &&& l.survives(anchors, groups@[k].1)
        } by {
            assert(groups@.to_multiset().count(groups@[k]) > 0);
            assert(unsorted.contains(groups@[k]));
        }
        assert forall|c: u32| c < l.seeds_ref.len() && #[trigger] l.survives(anchors, c) implies exists|
            k: int,
        |
            0 <= k < groups@.len() && (#[trigger] groups@[k]).1 == c by {
            assert(super_nodes_map@.contains_key(c));
            assert(keys@.to_set().contains(c));
            let m = choose|m: int| 0 <= m < keys@.len() && keys@[m] == c;
            let k0 = choose|k: int| 0 <= k < unsorted.len() && (#[trigger] unsorted[k]).1 == keys@[m];
            assert(unsorted.contains(unsorted[k0]));
            assert(groups@.to_multiset().count(unsorted[k0]) > 0);
            assert(groups@.contains(unsorted[k0]));
            let k = choose|k: int| 0 <= k < groups@.len() && groups@[k] == unsorted[k0];
            assert(groups@[k].1 == c);
        }
        assert forall|a: int, b: int| 0 <= a < b < groups@.len() implies pair_before(
            groups@[a],
            groups@[b],
        ) by {
            assert(groups@[a] != groups@[b]);
            assert(!pair_before(groups@[b], groups@[a]));
        }
    }
    groups
}


/// Whether `col_list` has the coordinates of the landmark of every one of
/// `super_anchors`, and every one of them names seeds that exist.
pub open spec fn has_coordinates(
    col_list: Map<u32, Vec<(usize, usize)>>,
    super_anchors: Seq<(u32, u32)>,
    seeds_ref: Seq<KmerNode>,
    seeds_q: Seq<KmerNode>,
) -> bool {
    forall|k: int|
        0 <= k < super_anchors.len() ==> {
            &&& (#[trigger] super_anchors[k]).0 < seeds_ref.len()
            &&& super_anchors[k].1 < seeds_q.len()
            &&& col_list.contains_key(super_anchors[k].0)
            &&& col_list[super_anchors[k].0]@ == positions_of(seeds_ref[super_anchors[k].0 as int])
        }
}

/// The anchors of the landmarks of `groups`, and the coordinates of every
/// one of these landmarks.
fn build_super_anchors(
    groups: &Vec<(u32, u32)>,
    super_nodes_map: &FxHashMap<u32, Vec<(usize, u32)>>,
    seeds_ref: &Vec<KmerNode>,
    Ghost(l): Ghost<Landmarks>,
    Ghost(anchors): Ghost<Seq<(u32, u32)>>,
) -> (built: (Anchors, FxHashMap<u32, Vec<(usize, usize)>>))
    requires
        l.well_formed(),
        l.seeds_ref == seeds_ref@,
        forall|k: int|
            0 <= k < anchors.len() ==> (#[trigger] anchors[k]).0 < l.seeds_ref.len() && anchors[k].1
                < l.seeds_q.len(),
        is_grouping(super_nodes_map@, l, anchors, anchors.len() as int),
        l.is_listing(anchors, groups@),
    ensures
        built.0@ == l.expand(anchors, groups@, groups@.len() as int),
        has_coordinates(built.1@, built.0@, l.seeds_ref, l.seeds_q),
{
    let mut super_anchors: Anchors = Vec::new();
    let mut col_list: FxHashMap<u32, Vec<(usize, usize)>> = map_new();
    let mut k: usize = 0;
    while k < groups.len()
        invariant
            l.well_formed(),
            l.seeds_ref == seeds_ref@,
            forall|j: int|
                0 <= j < anchors.len() ==> (#[trigger] anchors[j]).0 < l.seeds_ref.len() && anchors[j].1
                    < l.seeds_q.len(),
            is_grouping(super_nodes_map@, l, anchors, anchors.len() as int),
            l.is_listing(anchors, groups@),
            k <= groups@.len(),
            super_anchors@ == l.expand(anchors, groups@, k as int),
            has_coordinates(col_list@, super_anchors@, l.seeds_ref, l.seeds_q),
        decreases groups@.len() - k,
    {
        let coord_node = groups[k].1;
        assert(l.survives(anchors, groups@[k as int].1));
        proof {
            lemma_landmark_hits(l, anchors, coord_node, anchors.len() as int);
        }
        let ghost hits_model = l.hits(anchors, coord_node);
        assert(super_nodes_map@.contains_key(coord_node));
        let ghost group_start = super_anchors@;
        let ghost cols_before = col_list@;
        map_insert(&mut col_list, coord_node, landmark_positions(&seeds_ref[coord_node as usize]));
        assert(has_coordinates(col_list@, super_anchors@, l.seeds_ref, l.seeds_q)) by {
            assert forall|j: int| 0 <= j < super_anchors@.len() implies {
                &&& (#[trigger] super_anchors@[j]).0 < l.seeds_ref.len()
                &&& super_anchors@[j].1 < l.seeds_q.len()
                &&& col_list@.contains_key(super_anchors@[j].0)
                &&& col_list@[super_anchors@[j].0]@ == positions_of(l.seeds_ref[super_anchors@[j].0 as int])
            } by {
                assert(cols_before.contains_key(super_anchors@[j].0));
            }
        }
        match map_get(super_nodes_map, &coord_node) {
            Some(hits) => {
                let mut j: usize = 0;
                while j < hits.len()
                    invariant
                        hits@ == hits_model,
                        coord_node < l.seeds_ref.len(),
                        forall|t: int| 0 <= t < hits_model.len() ==> (#[trigger] hits_model[t]).1 < l.seeds_q.len(),
                        col_list@.contains_key(coord_node),
                        col_list@[coord_node]@ == positions_of(l.seeds_ref[coord_node as int]),
                        j <= hits@.len(),
                        super_anchors@ == group_start + Seq::new(j as nat, |t: int| (coord_node, hits_model[t].1)),
                        has_coordinates(col_list@, super_anchors@, l.seeds_ref, l.seeds_q),
                    decreases hits@.len() - j,
                {
                    let ghost before = super_anchors@;
                    super_anchors.push((coord_node, hits[j].1));
                    assert(super_anchors@ =~= group_start + Seq::new(
                        (j + 1) as nat,
                        |t: int| (coord_node, hits_model[t].1),
                    ));
                    assert forall|t: int| 0 <= t < super_anchors@.len() implies {
                        &&& (#[trigger] super_anchors@[t]).0 < l.seeds_ref.len()
                        &&& super_anchors@[t].1 < l.seeds_q.len()
                        &&& col_list@.contains_key(super_anchors@[t].0)
                        &&& col_list@[super_anchors@[t].0]@ == positions_of(
                            l.seeds_ref[super_anchors@[t].0 as int],
                        )
                    } by {
                        if t < before.len() {
                            assert(super_anchors@[t] == before[t]);
                        } else {
                            assert(hits_model[j as int].1 < l.seeds_q.len());
                        }
                    }
                    j = j + 1;
                }
            },
            None => {},
        }
        k = k + 1;
    }
    (super_anchors, col_list)
}

/// The best predecessor of the landmark anchor `i` among the `h` anchors
/// before it.
fn coarse_best(
    f: &Vec<Score>,
    super_anchors: &Anchors,
    seeds_ref: &Vec<KmerNode>,
    seeds_q: &Vec<KmerNode>,
    col_list: &FxHashMap<u32, Vec<(usize, usize)>>,
    h: usize,
    i: usize,
    forward_strand: bool,
    samp_freq: usize,
    read_length: usize,
    Ghost(p): Ghost<ChainProblem>,
) -> (best: (Score, usize))
    requires
        p == coarse_problem(
            super_anchors@,
            seeds_ref@,
            seeds_q@,
            h as nat,
            forward_strand,
            samp_freq as nat,
            read_length as int,
        ),
        p.well_formed(),
        has_coordinates(col_list@, super_anchors@, seeds_ref@, seeds_q@),
        1 <= i < super_anchors@.len(),
        f@.len() == i,
        forall|k: int| 0 <= k < i ==> 0 <= #[trigger] f@[k] <= k * 0x2000_0000_0000,
    ensures
        best_ok(p, f@, i as int, best.0, best.1),
{
    let mut best_f: Score = 0;
    let mut best_j: usize = i;
    let anchor_i = super_anchors[i];
    let start: usize = if i > h {
        i - h
    } else {
        0
    };
    assert(p.placed(i as int));
    let at_i = seeds_q[anchor_i.1 as usize].actual_ref_positions[0];
    let anchoriq: usize = if forward_strand {
        at_i
    } else {
        read_length - at_i
    };
    let anchorir_o = seeds_ref[anchor_i.0 as usize].order;
    let color_ir = seeds_ref[anchor_i.0 as usize].color;
    let cols_i = match map_get(col_list, &anchor_i.0) {
        Some(v) => v,
        None => {
            return (0, i);
        },
    };
    let mut j: usize = start;
    while j < i
        invariant
            p == coarse_problem(
                super_anchors@,
                seeds_ref@,
                seeds_q@,
                h as nat,
                forward_strand,
                samp_freq as nat,
                read_length as int,
            ),
            p.well_formed(),
            has_coordinates(col_list@, super_anchors@, seeds_ref@, seeds_q@),
            i < super_anchors@.len(),
            f@.len() == i,
            start <= j <= i,
            anchor_i == super_anchors@[i as int],
            anchoriq == p.read_position(i as int),
            anchorir_o == p.ref_order(i as int),
            color_ir == p.color(i as int),
            cols_i@ == positions_of(seeds_ref@[anchor_i.0 as int]),
            forall|k: int| 0 <= k < i ==> 0 <= #[trigger] f@[k] <= k * 0x2000_0000_0000,
            0 <= best_f <= i * 0x2000_0000_0000,
            forall|k: int|
                start <= k < j && p.coarse_compatible(k, i as int) ==> #[trigger] p.gain(f@, k, i as int)
                    <= best_f,
            best_f > 0 ==> {
                &&& start <= best_j < j
                &&& p.coarse_compatible(best_j as int, i as int)
                &&& p.gain(f@, best_j as int, i as int) == best_f
                &&& forall|k: int|
                    start <= k < best_j && p.coarse_compatible(k, i as int) ==> #[trigger] p.gain(
                        f@,
                        k,
                        i as int,
                    ) < best_f
            },
            best_f == 0 ==> best_j == i,
        decreases i - j,
    {
        let anchor_j = super_anchors[j];
        assert(p.placed(j as int));
        let at_j = seeds_q[anchor_j.1 as usize].actual_ref_positions[0];
        let anchorjq: usize = if forward_strand {
            at_j
        } else {
            read_length - at_j
        };
        let anchorjr_o = seeds_ref[anchor_j.0 as usize].order;
        let color_history_jr = seeds_ref[anchor_j.0 as usize].color;
        if anchorjr_o < anchorir_o && color_history_jr & color_ir != 0 && anchorjq < anchoriq {
            match map_get(col_list, &anchor_j.0) {
                Some(cols_j) => {
                    match min_dist_ref_nodes(cols_j, cols_i) {
                        Some(ref_order_dist) => {
                            let cand: Score = f[j] + heuristic_super_score(
                                ref_order_dist,
                                anchoriq - anchorjq,
                                samp_freq,
                            );
                            assert(cand == p.gain(f@, j as int, i as int));
                            if cand > best_f {
                                best_f = cand;
                                best_j = j;
                            }
                        },
                        None => {},
                    }
                },
                None => {},
            }
        }
        j = j + 1;
    }
    (best_f, best_j)
}

/// Scores the landmark anchors.
pub fn score_super_anchors(
    super_anchors: &Anchors,
    seeds_ref: &Vec<KmerNode>,
    seeds_q: &Vec<KmerNode>,
    col_list: &FxHashMap<u32, Vec<(usize, usize)>>,
    h: usize,
    forward_strand: bool,
    samp_freq: usize,
    read_length: usize,
) -> (scored: (Vec<Score>, Vec<usize>))
    requires
        coarse_problem(
            super_anchors@,
            seeds_ref@,
            seeds_q@,
            h as nat,
            forward_strand,
            samp_freq as nat,
            read_length as int,
        ).well_formed(),
        has_coordinates(col_list@, super_anchors@, seeds_ref@, seeds_q@),
    ensures
        super_anchors@.len() == 0 ==> scored.0@ == seq![0i128] && scored.1@.len() == 0,
        super_anchors@.len() > 0 ==> scored.1@[0] == 0 && coarse_problem(
            super_anchors@,
            seeds_ref@,
            seeds_q@,
            h as nat,
            forward_strand,
            samp_freq as nat,
            read_length as int,
        ).scored(scored.0@, scored.1@),
{
    let ghost p = coarse_problem(
        super_anchors@,
        seeds_ref@,
        seeds_q@,
        h as nat,
        forward_strand,
        samp_freq as nat,
        read_length as int,
    );
    let n = super_anchors.len();
    let mut pointer_array: Vec<usize> = Vec::new();
    let mut t: usize = 0;
    while t < n
        invariant
            t <= n,
            pointer_array@.len() == t,
            forall|k: int| 0 <= k < t ==> #[trigger] pointer_array@[k] == 0,
        decreases n - t,
    {
        pointer_array.push(0);
        t = t + 1;
    }
    let mut f: Vec<Score> = Vec::new();
    f.push(0);
    let mut i: usize = 1;
    while i < n
        invariant
            p == coarse_problem(
                super_anchors@,
                seeds_ref@,
                seeds_q@,
                h as nat,
                forward_strand,
                samp_freq as nat,
                read_length as int,
            ),
            p.well_formed(),
            has_coordinates(col_list@, super_anchors@, seeds_ref@, seeds_q@),
            n == super_anchors@.len(),
            1 <= i,
            n > 0 ==> i <= n,
            n == 0 ==> i == 1,
            f@.len() == i,
            pointer_array@.len() == n,
            f@[0] == 0,
            n > 0 ==> pointer_array@[0] == 0,
            forall|k: int| 1 <= k < i ==> #[trigger] p.step_ok(f@, pointer_array@, k),
            forall|k: int| 0 <= k < i ==> 0 <= #[trigger] f@[k] <= k * 0x2000_0000_0000,
        decreases n - i,
    {
        let ghost f0 = f@;
        let ghost ptr0 = pointer_array@;
        let best = coarse_best(
            &f,
            super_anchors,
            seeds_ref,
            seeds_q,
            col_list,
            h,
            i,
            forward_strand,
            samp_freq,
            read_length,
            Ghost(p),
        );
        f.push(best.0);
        pointer_array.set(i, best.1);
        proof {
            assert forall|k: int| 1 <= k < i implies #[trigger] p.step_ok(f@, pointer_array@, k) by {
                p.lemma_step_frame(f0, ptr0, f@, pointer_array@, k);
            }
            lemma_best_is_step(p, f0, ptr0, i as int, best.0, best.1);
        }
        i = i + 1;
    }
    assert(n == 0 ==> f@ =~= seq![0i128]);
    (f, pointer_array)
}


/// Whether the returned chains are the emitted chains, each with the
/// strand.
pub open spec fn tagged_match(chains: Seq<(Anchors, Score, bool)>, out: Seq<EmittedChain>, forward: bool) -> bool {
    &&& chains.len() == out.len()
    &&& forall|k: int|
        0 <= k < chains.len() ==> {
            &&& (#[trigger] chains[k]).0@ == out[k].anchors
            &&& chains[k].1 == out[k].score
            &&& chains[k].2 == forward
        }
}

/// Whether `chains` are the chains of the anchors `anchors`, where `groups`
/// lists the landmarks that survive, `f` and `pointers` score their
/// anchors, and `order` ranks the scores.
pub open spec fn super_witness(
    chains: Seq<(Anchors, Score, bool)>,
    anchors: Seq<(u32, u32)>,
    forward: bool,
    l: Landmarks,
    h: nat,
    groups: Seq<(u32, u32)>,
    f: Seq<Score>,
    pointers: Seq<usize>,
    order: Seq<(Score, usize)>,
) -> bool {
    let super_anchors = l.expand(anchors, groups, groups.len() as int);
    &&& l.is_listing(anchors, groups)
    &&& super_anchors.len() == 0 ==> chains.len() == 0
    &&& super_anchors.len() > 0 ==> {
        &&& coarse_problem(super_anchors, l.seeds_ref, l.seeds_q, h, forward, l.samp_freq, l.read_length).scored(
            f,
            pointers,
        )
        &&& pointers[0] == 0
        &&& is_ranking(f, order)
        &&& tagged_match(
            chains,
            (Scored {
                f,
                pointers,
                anchors: super_anchors,
                seeds_ref: l.seeds_ref,
                seeds_q: l.seeds_q,
                chain_reads: true,
            }).best_chains(order),
            forward,
        )
    }
}

/// Whether `chains` are the chains that the coarse chainer makes of the
/// anchors `anchors`.
pub open spec fn is_super_chaining(
    chains: Seq<(Anchors, Score, bool)>,
    anchors: Seq<(u32, u32)>,
    forward: bool,
    l: Landmarks,
    h: nat,
) -> bool {
    exists|groups: Seq<(u32, u32)>, f: Seq<Score>, pointers: Seq<usize>, order: Seq<(Score, usize)>|
        #[trigger] super_witness(chains, anchors, forward, l, h, groups, f, pointers, order)
}

/// A copy of `anchors`.
pub fn copy_anchors(anchors: &Anchors) -> (copy: Anchors)
    ensures
        copy@ == anchors@,
{
    let mut copy: Anchors = Vec::new();
    let mut i: usize = 0;
    while i < anchors.len()
        invariant
            i <= anchors@.len(),
            copy@ == anchors@.take(i as int),
        decreases anchors@.len() - i,
    {
        copy.push(anchors[i]);
        assert(copy@ == anchors@.take(i + 1));
        i = i + 1;
    }
    assert(anchors@.take(i as int) == anchors@);
    copy
}

/// The landmarks that the arguments of the coarse chainer describe.
pub open spec fn landmarks(
    seeds_ref: Seq<KmerNode>,
    seeds_q: Seq<KmerNode>,
    closest: Seq<Option<u32>>,
    samp_freq: nat,
    read_length: int,
) -> Landmarks {
    Landmarks { seeds_ref, seeds_q, closest, samp_freq, read_length }
}

/// The chains of the coarse chainer for the anchors of one strand.
pub fn super_chains_from_anchors(
    normal_anchors: &Anchors,
    forward_strand: bool,
    seeds_ref: &Vec<KmerNode>,
    seeds_q: &Vec<KmerNode>,
    h: usize,
    closest_kmer_vec: &Vec<Option<u32>>,
    samp_freq: usize,
    read_length: usize,
) -> (chains: Vec<(Anchors, Score, bool)>)
    requires
        landmarks(seeds_ref@, seeds_q@, closest_kmer_vec@, samp_freq as nat, read_length as int).well_formed(),
        forall|k: int|
            0 <= k < normal_anchors@.len() ==> (#[trigger] normal_anchors@[k]).0 < seeds_ref@.len()
                && normal_anchors@[k].1 < seeds_q@.len(),
    ensures
        is_super_chaining(
            chains@,
            normal_anchors@,
            forward_strand,
            landmarks(seeds_ref@, seeds_q@, closest_kmer_vec@, samp_freq as nat, read_length as int),
            h as nat,
        ),
{
    let ghost l = landmarks(seeds_ref@, seeds_q@, closest_kmer_vec@, samp_freq as nat, read_length as int);
    let super_nodes_map = group_by_landmark(normal_anchors, seeds_q, closest_kmer_vec, Ghost(l));
    let groups = list_landmarks(&super_nodes_map, seeds_ref, samp_freq, Ghost(l), Ghost(normal_anchors@));
    let built = build_super_anchors(&groups, &super_nodes_map, seeds_ref, Ghost(l), Ghost(normal_anchors@));
    let super_anchors = built.0;
    let col_list = built.1;
    let ghost p = coarse_problem(
        super_anchors@,
        seeds_ref@,
        seeds_q@,
        h as nat,
        forward_strand,
        samp_freq as nat,
        read_length as int,
    );
    assert(p.well_formed()) by {
        assert forall|k: int| 0 <= k < p.anchors.len() implies #[trigger] p.placed(k) by {
            assert(super_anchors@[k].1 < seeds_q@.len());
            assert(l.seeds_q[super_anchors@[k].1 as int].actual_ref_positions@.len() > 0);
        }
        assert(anchors_in_range(p.anchors, p.seeds_ref.len(), p.seeds_q.len()));
    }
    let scored = score_super_anchors(
        &super_anchors,
        seeds_ref,
        seeds_q,
        &col_list,
        h,
        forward_strand,
        samp_freq,
        read_length,
    );
    let f = scored.0;
    let pointer_array = scored.1;
    let ghost f_model = f@;
    let ghost pointers_model = pointer_array@;
    let ghost s = Scored {
        f: f_model,
        pointers: pointers_model,
        anchors: super_anchors@,
        seeds_ref: seeds_ref@,
        seeds_q: seeds_q@,
        chain_reads: true,
    };
    proof {
        if super_anchors@.len() > 0 {
            assert forall|i: int| 0 <= i < s.pointers.len() implies #[trigger] s.pointers[i] <= i by {
                if i > 0 {
                    assert(p.step_ok(f_model, pointers_model, i));
                }
            }
            assert(s.well_formed());
        }
    }
    let best = get_best_chains(f, pointer_array, &super_anchors, seeds_ref, seeds_q, true);
    let ghost order = choose|order: Seq<(Score, usize)>|
        is_ranking(f_model, order) && chains_match(best@, #[trigger] s.best_chains(order));
    let mut chains: Vec<(Anchors, Score, bool)> = Vec::new();
    let mut k: usize = 0;
    while k < best.len()
        invariant
            k <= best@.len(),
            chains_match(best@, s.best_chains(order)),
            chains@.len() == k,
            forall|j: int|
                0 <= j < k ==> {
                    &&& (#[trigger] chains@[j]).0@ == s.best_chains(order)[j].anchors
                    &&& chains@[j].1 == s.best_chains(order)[j].score
                    &&& chains@[j].2 == forward_strand
                },
        decreases best@.len() - k,
    {
        chains.push((copy_anchors(&best[k].0), best[k].3, forward_strand));
        k = k + 1;
    }
    proof {
        if super_anchors@.len() == 0 {
            assert(order[0].0 == 0);
        }
        assert(super_witness(
            chains@,
            normal_anchors@,
            forward_strand,
            l,
            h as nat,
            groups@,
            f_model,
            pointers_model,
            order,
        ));
    }
    chains
}


/// The anchors of the strand that the majority of the k-mers speaks for.
pub open spec fn majority_anchors(hits: Hits) -> Seq<(u32, u32)> {
    if hits.forward_kmers.len() >= hits.backward_kmers.len() {
        hits.forward
    } else {
        hits.backward
    }
}

/// The chains of the coarse chainer.
///
/// The anchors are made from the two indexes, the strand with the
/// more k-mers is taken, forward where both have as many, and the anchors
/// of that strand are chained over the landmarks. Every chain comes with
/// its score and the strand.
pub fn get_super_chains(
    seeds_ref: &Vec<KmerNode>,
    seeds_q: &Vec<KmerNode>,
    ref_hash_map: &FxHashMap<u32, Vec<u32>>,
    q_hash_map: &FxHashMap<u32, Vec<u32>>,
    h: usize,
    chain_heuristic: bool,
    not_used_kmers: &FxHashSet<u32>,
    closest_kmer_vec: &Vec<Option<u32>>,
    samp_freq: usize,
    read_length: usize,
) -> (chains: Vec<(Anchors, Score, bool)>)
    requires
        ids_are_indices(seeds_ref@),
        ids_are_indices(seeds_q@),
        ids_in_range(ref_hash_map@, seeds_ref@.len()),
        ids_in_range(q_hash_map@, seeds_q@.len()),
        landmarks(seeds_ref@, seeds_q@, closest_kmer_vec@, samp_freq as nat, read_length as int).well_formed(),
    ensures
        exists|keys: Seq<u32>|
            keys.no_duplicates() && keys.to_set() == q_hash_map@.dom() && {
                let hits = #[trigger] hits_of_keys(
                    keys,
                    seeds_ref@,
                    seeds_q@,
                    ref_hash_map@,
                    q_hash_map@,
                    not_used_kmers@,
                    keys.len() as int,
                );
                is_super_chaining(
                    chains@,
                    majority_anchors(hits),
                    hits.forward_kmers.len() >= hits.backward_kmers.len(),
                    landmarks(seeds_ref@, seeds_q@, closest_kmer_vec@, samp_freq as nat, read_length as int),
                    h as nat,
                )
            },
{
    let found = anchors_from_seeds(seeds_ref, seeds_q, ref_hash_map, q_hash_map, not_used_kmers);
    let ghost keys = choose|keys: Seq<u32>|
        keys.no_duplicates() && keys.to_set() == q_hash_map@.dom() && hits_match(
            found,
            #[trigger] hits_of_keys(
                keys,
                seeds_ref@,
                seeds_q@,
                ref_hash_map@,
                q_hash_map@,
                not_used_kmers@,
                keys.len() as int,
            ),
        );
    proof {
        lemma_hits_in_range(
            keys,
            seeds_ref@,
            seeds_q@,
            ref_hash_map@,
            q_hash_map@,
            not_used_kmers@,
            keys.len() as int,
        );
    }
    let forward_strand = majority_is_forward(found.2, found.3);
    let chains = if forward_strand {
        super_chains_from_anchors(
            &found.0,
            forward_strand,
            seeds_ref,
            seeds_q,
            h,
            closest_kmer_vec,
            samp_freq,
            read_length,
        )
    } else {
        super_chains_from_anchors(
            &found.1,
            forward_strand,
            seeds_ref,
            seeds_q,
            h,
            closest_kmer_vec,
            samp_freq,
            read_length,
        )
    };
    chains
}

} // verus!
