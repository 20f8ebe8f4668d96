//! Path reconstruction: the color-pure sub-chains of a chain.
//!
//! The nodes of the reference graph are visited in topological order from
//! the node of the chain's first anchor to the node of its last. Every
//! visited node gets a list of hypotheses, each a path from an earlier
//! anchor with the genomes that can walk it, its score, the reference
//! distance since the last anchor, and the anchor at which it began.

use crate::fx::map_entry_or_insert;
use crate::fx::map_get;
use crate::fx::map_insert;
use crate::fx::map_new;
use crate::fx::set_contains;
use crate::fx::set_insert;
use crate::fx::set_new;
use crate::score::Score;
use crate::seed::anchors_in_range;
use crate::seed::ids_are_indices;
use crate::seed::Anchors;
use crate::seed::Color;
use crate::seed::KmerNode;
use fxhash::FxHashMap;
use fxhash::FxHashSet;
use vstd::prelude::*;

verus! {

broadcast use vstd::std_specs::hash::group_hash_axioms;

/// The score of the hypothesis at the first anchor: 10 points.
pub const START_SCORE: Score = 10_000;

/// The score below which a reconstruction fails: -25000 points.
pub const FAIL_SCORE: Score = -25_000_000;

/// One path hypothesis at a node.
#[derive(Clone, Copy, Debug)]
pub struct Hypothesis {
    /// The genomes that can walk the path.
    pub color: Color,
    /// The score of the path.
    pub score: Score,
    /// The reference distance walked since the last anchor.
    pub ref_distance: u64,
    /// The index of the anchor at which the path began.
    pub origin: usize,
}

/// Why a reconstruction was given up.
#[derive(Clone, Copy, Debug)]
pub enum PathError {
    /// Two hypotheses at the node `node` have the same color.
    DuplicateColor { node: u32 },
}

/// What a reconstruction is given.
pub struct PathInput {
    pub anchors: Seq<(u32, u32)>,
    pub ref_nodes: Seq<KmerNode>,
    pub order_to_id: Seq<u32>,
    pub query_nodes: Seq<KmerNode>,
}

/// What a reconstruction knows between two nodes: for every node id the
/// visited parents and the hypotheses, the index of the anchor that is
/// expected next, and the best anchor node so far with its score.
pub struct PathState {
    pub in_edges: Seq<Seq<u32>>,
    pub paths: Seq<Seq<Hypothesis>>,
    pub current: int,
    pub best_node: u32,
    pub best_score: Option<Score>,
}

/// `in_edges` with `parent` added to the parents of each of `children`.
pub open spec fn register(in_edges: Seq<Seq<u32>>, children: Seq<u32>, parent: u32) -> Seq<Seq<u32>>
    decreases children.len(),
{
    if children.len() == 0 {
        in_edges
    } else {
        let before = register(in_edges, children.drop_last(), parent);
        let child = children.last() as int;
        if child < before.len() {
            before.update(child, before[child].push(parent))
        } else {
            before
        }
    }
}

/// Over the first `n` edges of `node`: the union of the colors, the sum of
/// the distances and the number of the edges that lead to `child`.
pub open spec fn edge_fold(node: KmerNode, child: u32, n: int) -> (Color, int, int)
    decreases n,
{
    if n <= 0 {
        (0, 0, 0)
    } else {
        let before = edge_fold(node, child, n - 1);
        let edge = node.child_edge_distance@[n - 1];
        if edge.1.1 < node.child_nodes@.len() && node.child_nodes@[edge.1.1 as int] == child {
            (before.0 | edge.1.0, before.1 + edge.0, before.2 + 1)
        } else {
            before
        }
    }
}

/// The union of the colors of the edges from `node` to `child`.
pub open spec fn edge_color(node: KmerNode, child: u32) -> Color {
    edge_fold(node, child, node.child_edge_distance@.len() as int).0
}

/// The mean distance of the edges from `node` to `child`, rounded down;
/// zero where there is no such edge.
pub open spec fn edge_distance(node: KmerNode, child: u32) -> int {
    let all = edge_fold(node, child, node.child_edge_distance@.len() as int);
    if all.2 > 0 {
        all.1 / all.2
    } else {
        0
    }
}

/// The hypothesis `h` carried over an edge of color `color` and distance
/// `distance`. At an anchor (`hit`) the score changes by five points less
/// the difference between `query_gap` and the reference distance walked,
/// and the distance starts again from zero.
pub open spec fn advance(h: Hypothesis, color: Color, distance: int, hit: bool, query_gap: int) -> Hypothesis {
    let walked = h.ref_distance + distance;
    if hit {
        let gap_cost = if query_gap >= walked {
            query_gap - walked
        } else {
            walked - query_gap
        };
        Hypothesis {
            color: h.color & color,
            score: (h.score + 1000 * (5 - gap_cost)) as i128,
            ref_distance: 0,
            origin: h.origin,
        }
    } else {
        Hypothesis { color: h.color & color, score: h.score, ref_distance: walked as u64, origin: h.origin }
    }
}

/// The hypotheses of a parent that can be carried over an edge of color
/// `color`, carried over it.
pub open spec fn derive(hyps: Seq<Hypothesis>, color: Color, distance: int, hit: bool, query_gap: int) -> Seq<
    Hypothesis,
>
    decreases hyps.len(),
{
    if hyps.len() == 0 {
        Seq::empty()
    } else {
        let before = derive(hyps.drop_last(), color, distance, hit, query_gap);
        if hyps.last().color & color != 0 {
            before.push(advance(hyps.last(), color, distance, hit, query_gap))
        } else {
            before
        }
    }
}

/// The union of the colors of `hyps`.
pub open spec fn union_colors(hyps: Seq<Hypothesis>) -> Color
    decreases hyps.len(),
{
    if hyps.len() == 0 {
        0
    } else {
        union_colors(hyps.drop_last()) | hyps.last().color
    }
}

/// The best score among `hyps`.
pub open spec fn max_score(hyps: Seq<Hypothesis>) -> Option<Score>
    decreases hyps.len(),
{
    if hyps.len() == 0 {
        None
    } else {
        match max_score(hyps.drop_last()) {
            None => Some(hyps.last().score),
            Some(m) => Some(
                if hyps.last().score > m {
                    hyps.last().score
                } else {
                    m
                },
            ),
        }
    }
}

/// Whether two of `hyps` have the same color.
pub open spec fn has_duplicate_color(hyps: Seq<Hypothesis>) -> bool {
    exists|a: int, b: int| 0 <= a < b < hyps.len() && #[trigger] hyps[a].color == #[trigger] hyps[b].color
}

/// `hyps` with one more hypothesis for the genomes of the node that no
/// hypothesis of a parent has, where the node has parents and such genomes.
/// It scores what the best of `hyps` scores, and not less than zero.
pub open spec fn with_uncovered(
    hyps: Seq<Hypothesis>,
    node_color: Color,
    all_colors: Color,
    has_parents: bool,
    current: int,
) -> Seq<Hypothesis> {
    let remaining = node_color & !all_colors;
    if has_parents && remaining != 0 {
        hyps.push(
            Hypothesis {
                color: remaining,
                score: match max_score(hyps) {
                    Some(m) if m > 0 => m,
                    _ => 0,
                },
                ref_distance: 0,
                origin: current as usize,
            },
        )
    } else {
        hyps
    }
}

/// The anchors among `anchors[origin..n]` whose reference node has every
/// genome of `color`.
pub open spec fn consistent(
    anchors: Seq<(u32, u32)>,
    ref_nodes: Seq<KmerNode>,
    color: Color,
    origin: int,
    n: int,
) -> Seq<(u32, u32)>
    decreases n,
{
    if n <= origin || n <= 0 {
        Seq::empty()
    } else {
        let before = consistent(anchors, ref_nodes, color, origin, n - 1);
        if ref_nodes[anchors[n - 1].0 as int].color & color == color {
            before.push(anchors[n - 1])
        } else {
            before
        }
    }
}


/// Whether the map `m` holds, for every node id, the list that `model`
/// holds for it; a node id that `m` does not have stands for the empty list.
pub open spec fn agrees<T>(m: Map<u32, Vec<T>>, model: Seq<Seq<T>>) -> bool {
    forall|id: u32|
        id < model.len() ==> #[trigger] model[id as int] == if m.contains_key(id) {
            m[id]@
        } else {
            Seq::empty()
        }
}

/// Whether every parent in `in_edges` is below `n`.
pub open spec fn parents_in_range(in_edges: Seq<Seq<u32>>, n: int) -> bool {
    forall|v: int, j: int|
        0 <= v < in_edges.len() && 0 <= j < in_edges[v].len() ==> (#[trigger] in_edges[v][j]) < n
}

/// Whether the distance and the score of `h` are what `t` steps can reach.
pub open spec fn bounded(h: Hypothesis, t: int) -> bool {
    &&& h.ref_distance <= 65535 * t
    &&& -(0x800_0000_0000_0000_0000 * t) - 10_000 <= h.score <= 0x800_0000_0000_0000_0000 * t + 10_000
}

/// Whether every one of `hyps` is bounded by `t` steps.
pub open spec fn all_bounded(hyps: Seq<Hypothesis>, t: int) -> bool {
    forall|j: int| 0 <= j < hyps.len() ==> bounded(#[trigger] hyps[j], t)
}

/// Registering children keeps the number of nodes and the range of the
/// parents.
pub proof fn lemma_register(in_edges: Seq<Seq<u32>>, children: Seq<u32>, parent: u32, n: int)
    requires
        parent < n,
        parents_in_range(in_edges, n),
    ensures
        register(in_edges, children, parent).len() == in_edges.len(),
        parents_in_range(register(in_edges, children, parent), n),
    decreases children.len(),
{
    if children.len() > 0 {
        lemma_register(in_edges, children.drop_last(), parent, n);
    }
}

/// Adds `node` as a parent of each of its children.
fn register_children(
    in_edges_dict: &mut FxHashMap<u32, Vec<u32>>,
    node: &KmerNode,
    Ghost(model): Ghost<Seq<Seq<u32>>>,
)
    requires
        agrees(old(in_edges_dict)@, model),
    ensures
        agrees(final(in_edges_dict)@, register(model, node.child_nodes@, node.id)),
{
    let mut c: usize = 0;
    assert(node.child_nodes@.take(0) =~= Seq::empty());
    while c < node.child_nodes.len()
        invariant
            c <= node.child_nodes@.len(),
            agrees(in_edges_dict@, register(model, node.child_nodes@.take(c as int), node.id)),
        decreases node.child_nodes@.len() - c,
    {
        let child = node.child_nodes[c];
        let ghost before = register(model, node.child_nodes@.take(c as int), node.id);
        let ghost map_before = in_edges_dict@;
        assert(node.child_nodes@.take(c + 1).drop_last() == node.child_nodes@.take(c as int));
        let parent_vec = map_entry_or_insert(in_edges_dict, child, Vec::new());
        parent_vec.push(node.id);
        proof {
            let after = register(model, node.child_nodes@.take(c + 1), node.id);
            assert forall|id: u32| id < after.len() implies #[trigger] after[id as int] == if in_edges_dict@.contains_key(
                id,
            ) {
                in_edges_dict@[id]@
            } else {
                Seq::empty()
            } by {
                assert(before[id as int] == if map_before.contains_key(id) {
                    map_before[id]@
                } else {
                    Seq::empty()
                });
            }
        }
        c = c + 1;
    }
    assert(node.child_nodes@.take(c as int) == node.child_nodes@);
}

/// The color and the mean distance of the edges from `parent` to `child`.
fn edge_summary(parent: &KmerNode, child: u32) -> (edge: (Color, u64))
    ensures
        edge.0 == edge_color(*parent, child),
        edge.1 == edge_distance(*parent, child),
        edge.1 <= 65535,
{
    let mut color: Color = 0;
    let mut sum: u128 = 0;
    let mut count: usize = 0;
    let mut k: usize = 0;
    while k < parent.child_edge_distance.len()
        invariant
            k <= parent.child_edge_distance@.len(),
            (color, sum as int, count as int) == edge_fold(*parent, child, k as int),
            count <= k,
            sum <= 65535 * count,
        decreases parent.child_edge_distance@.len() - k,
    {
        let edge = parent.child_edge_distance[k];
        let ind = edge.1.1 as usize;
        if ind < parent.child_nodes.len() && parent.child_nodes[ind] == child {
            color = color | edge.1.0;
            sum = sum + edge.0 as u128;
            count = count + 1;
        }
        k = k + 1;
    }
    if count > 0 {
        let mean = sum / (count as u128);
        assert(mean <= 65535) by (nonlinear_arith)
            requires
                mean == sum / (count as u128),
                count > 0,
                sum <= 65535 * count,
        ;
        (color, mean as u64)
    } else {
        (color, 0)
    }
}

/// Carries the hypotheses of one parent over an edge and adds them to
/// `out`; returns the union of the colors of the parent's hypotheses.
fn derive_into(
    hyps: &Vec<Hypothesis>,
    color: Color,
    distance: u64,
    hit: bool,
    query_gap: u64,
    out: &mut Vec<Hypothesis>,
    Ghost(t): Ghost<int>,
) -> (all_colors: Color)
    requires
        1 <= t <= 0x1_0000_0000,
        distance <= 65535,
        all_bounded(hyps@, t - 1),
        all_bounded(old(out)@, t),
    ensures
        final(out)@ == old(out)@ + derive(hyps@, color, distance as int, hit, query_gap as int),
        all_bounded(final(out)@, t),
        all_colors == union_colors(hyps@),
{
    let mut all_colors: Color = 0;
    let mut l: usize = 0;
    assert(hyps@.take(0) =~= Seq::empty());
    assert(out@ + Seq::<Hypothesis>::empty() =~= out@);
    while l < hyps.len()
        invariant
            1 <= t <= 0x1_0000_0000,
            distance <= 65535,
            all_bounded(hyps@, t - 1),
            l <= hyps@.len(),
            out@ == old(out)@ + derive(hyps@.take(l as int), color, distance as int, hit, query_gap as int),
            all_bounded(out@, t),
            all_colors == union_colors(hyps@.take(l as int)),
        decreases hyps@.len() - l,
    {
        let parent_path = hyps[l];
        assert(hyps@.take(l + 1).drop_last() == hyps@.take(l as int));
        assert(bounded(hyps@[l as int], t - 1));
        all_colors = all_colors | parent_path.color;
        if parent_path.color & color != 0 {
            let new_color = parent_path.color & color;
            let walked: u64 = parent_path.ref_distance + distance;
            let ghost done = derive(hyps@.take(l as int), color, distance as int, hit, query_gap as int);
            let updated = if hit {
                let gap_cost: u64 = if query_gap >= walked {
                    query_gap - walked
                } else {
                    walked - query_gap
                };
                Hypothesis {
                    color: new_color,
                    score: parent_path.score + 1000 * (5 - (gap_cost as i128)),
                    ref_distance: 0,
                    origin: parent_path.origin,
                }
            } else {
                Hypothesis {
                    color: new_color,
                    score: parent_path.score,
                    ref_distance: walked,
                    origin: parent_path.origin,
                }
            };
            assert(updated == advance(parent_path, color, distance as int, hit, query_gap as int));
            assert(bounded(updated, t));
            out.push(updated);
            assert(out@ == old(out)@ + done.push(updated));
        }
        l = l + 1;
    }
    assert(hyps@.take(l as int) == hyps@);
    all_colors
}

/// The best score among `hyps`.
fn best_of(hyps: &Vec<Hypothesis>) -> (best: Option<Score>)
    ensures
        best == max_score(hyps@),
{
    let mut best: Option<Score> = None;
    let mut l: usize = 0;
    assert(hyps@.take(0) =~= Seq::empty());
    while l < hyps.len()
        invariant
            l <= hyps@.len(),
            best == max_score(hyps@.take(l as int)),
        decreases hyps@.len() - l,
    {
        assert(hyps@.take(l + 1).drop_last() == hyps@.take(l as int));
        let score = hyps[l].score;
        best = match best {
            None => Some(score),
            Some(m) => Some(
                if score > m {
                    score
                } else {
                    m
                },
            ),
        };
        l = l + 1;
    }
    assert(hyps@.take(l as int) == hyps@);
    best
}

/// The best score among `hyps` lies between the least and the greatest of
/// their bounds.
pub proof fn lemma_max_score_bounded(hyps: Seq<Hypothesis>, t: int)
    requires
        all_bounded(hyps, t),
        hyps.len() > 0,
    ensures
        max_score(hyps) is Some,
        -(0x800_0000_0000_0000_0000 * t) - 10_000 <= max_score(hyps)->Some_0 <= 0x800_0000_0000_0000_0000 * t
            + 10_000,
    decreases hyps.len(),
{
    assert(bounded(hyps[hyps.len() - 1], t));
    if hyps.len() > 1 {
        assert(all_bounded(hyps.drop_last(), t)) by {
            assert forall|j: int| 0 <= j < hyps.drop_last().len() implies bounded(
                #[trigger] hyps.drop_last()[j],
                t,
            ) by {
                assert(bounded(hyps[j], t));
            }
        }
        lemma_max_score_bounded(hyps.drop_last(), t);
    } else {
        assert(hyps.drop_last().len() == 0);
    }
}

/// Whether two of `hyps` have the same color.
fn find_duplicate_color(hyps: &Vec<Hypothesis>) -> (found: bool)
    ensures
        found == has_duplicate_color(hyps@),
{
    let mut color_set: FxHashSet<Color> = set_new();
    let mut l: usize = 0;
    while l < hyps.len()
        invariant
            l <= hyps@.len(),
            forall|c: Color|
                #![trigger color_set@.contains(c)]
                color_set@.contains(c) <==> exists|a: int| 0 <= a < l && #[trigger] hyps@[a].color == c,
            forall|a: int, b: int|
                0 <= a < b < l ==> #[trigger] hyps@[a].color != #[trigger] hyps@[b].color,
        decreases hyps@.len() - l,
    {
        let color = hyps[l].color;
        if set_contains(&color_set, &color) {
            let ghost a = choose|a: int| 0 <= a < l && #[trigger] hyps@[a].color == color;
            assert(hyps@[a].color == hyps@[l as int].color);
            return true;
        }
        let ghost before = color_set@;
        set_insert(&mut color_set, color);
        proof {
            assert forall|c: Color|
                #![trigger color_set@.contains(c)]
                color_set@.contains(c) <==> exists|a: int|
                    0 <= a < l + 1 && #[trigger] hyps@[a].color == c by {
                if before.contains(c) {
                    let a = choose|a: int| 0 <= a < l && #[trigger] hyps@[a].color == c;
                    assert(hyps@[a].color == c);
                }
                if c == color {
                    assert(hyps@[l as int].color == c);
                }
            }
        }
        l = l + 1;
    }
    false
}

/// The anchors from `origin` on whose reference node has every genome of
/// `color`.
fn consistent_anchors(anchors: &Anchors, ref_nodes: &Vec<KmerNode>, color: Color, origin: usize) -> (kept:
    Anchors)
    requires
        forall|k: int| 0 <= k < anchors@.len() ==> (#[trigger] anchors@[k]).0 < ref_nodes@.len(),
    ensures
        kept@ == consistent(anchors@, ref_nodes@, color, origin as int, anchors@.len() as int),
{
    let mut kept: Anchors = Vec::new();
    let mut i: usize = origin;
    if origin >= anchors.len() {
        return kept;
    }
    while i < anchors.len()
        invariant
            origin <= i <= anchors@.len(),
            forall|k: int| 0 <= k < anchors@.len() ==> (#[trigger] anchors@[k]).0 < ref_nodes@.len(),
            kept@ == consistent(anchors@, ref_nodes@, color, origin as int, i as int),
        decreases anchors@.len() - i,
    {
        let anchor = anchors[i];
        if ref_nodes[anchor.0 as usize].color & color == color {
            kept.push(anchor);
        }
        i = i + 1;
    }
    kept
}

impl PathInput {
    /// The anchors name seeds that exist, every reference seed's id is its
    /// index, every order between the first and the last anchor has a node,
    /// and the query seed of every anchor has a position.
    pub open spec fn well_formed(self) -> bool {
        &&& anchors_in_range(self.anchors, self.ref_nodes.len(), self.query_nodes.len())
        &&& ids_are_indices(self.ref_nodes)
        &&& forall|k: int|
            0 <= k < self.anchors.len() ==> (#[trigger] self.query_nodes[self.anchors[k].1
                as int]).actual_ref_positions@.len() > 0
        &&& self.anchors.len() > 0 ==> forall|o: int|
            self.first().order < o <= self.last().order ==> o < self.order_to_id.len()
                && #[trigger] self.order_to_id[o] < self.ref_nodes.len()
    }

    /// The node of the first anchor.
    pub open spec fn first(self) -> KmerNode {
        self.ref_nodes[self.anchors[0].0 as int]
    }

    /// The node of the last anchor.
    pub open spec fn last(self) -> KmerNode {
        self.ref_nodes[self.anchors.last().0 as int]
    }

    /// The position in the read of the query seed of anchor `k`.
    pub open spec fn query_position(self, k: int) -> int {
        self.query_nodes[self.anchors[k].1 as int].actual_ref_positions@[0] as int
    }

    /// The distance in the read between anchor `k` and the one before it.
    pub open spec fn query_gap(self, k: int) -> int {
        let here = self.query_position(k);
        let before = self.query_position(k - 1);
        if here >= before {
            here - before
        } else {
            before - here
        }
    }

    /// Whether the node `node` is the node of the anchor expected next.
    pub open spec fn is_hit(self, current: int, node: KmerNode) -> bool {
        0 <= current < self.anchors.len() && self.anchors[current].0 == node.id
    }

    /// Whether the anchor expected next lies before the node `node` in the
    /// topological order, so that it cannot be reached any more.
    pub open spec fn is_past(self, current: int, node: KmerNode) -> bool {
        &&& 0 <= current < self.anchors.len()
        &&& self.anchors[current].0 != node.id
        &&& self.ref_nodes[self.anchors[current].0 as int].order < node.order
    }

    /// The hypotheses that the parents `parents` give to the node
    /// `node_id`, and the union of the colors of all their hypotheses.
    pub open spec fn derive_all(
        self,
        paths: Seq<Seq<Hypothesis>>,
        parents: Seq<u32>,
        node_id: u32,
        hit: bool,
        query_gap: int,
    ) -> (Seq<Hypothesis>, Color)
        decreases parents.len(),
    {
        if parents.len() == 0 {
            (Seq::empty(), 0)
        } else {
            let before = self.derive_all(paths, parents.drop_last(), node_id, hit, query_gap);
            let parent = self.ref_nodes[parents.last() as int];
            let hyps = paths[parents.last() as int];
            (
                before.0 + derive(
                    hyps,
                    edge_color(parent, node_id),
                    edge_distance(parent, node_id),
                    hit,
                    query_gap,
                ),
                before.1 | union_colors(hyps),
            )
        }
    }

    /// The state before the first step.
    pub open spec fn initial(self) -> PathState {
        let n = self.ref_nodes.len();
        let first = self.first();
        PathState {
            in_edges: register(Seq::new(n, |i: int| Seq::empty()), first.child_nodes@, first.id),
            paths: Seq::new(n, |i: int| Seq::empty()).update(
                first.id as int,
                seq![Hypothesis { color: first.color, score: START_SCORE, ref_distance: 0, origin: 0 }],
            ),
            current: 1,
            best_node: first.id,
            best_score: None,
        }
    }

    /// The state after the node `node` is visited in the state `st`, or the
    /// id of the node where two of its hypotheses have the same color.
    pub open spec fn step(self, st: PathState, node: KmerNode) -> Result<PathState, u32> {
        let in_edges = register(st.in_edges, node.child_nodes@, node.id);
        let parents = in_edges[node.id as int];
        let hit = self.is_hit(st.current, node);
        let past = self.is_past(st.current, node);
        let derived = self.derive_all(st.paths, parents, node.id, hit, self.query_gap(st.current));
        let better = hit && match (max_score(derived.0), st.best_score) {
            (Some(m), Some(b)) => m > b,
            (Some(m), None) => true,
            (None, _) => false,
        };
        let hyps = with_uncovered(derived.0, node.color, derived.1, parents.len() > 0, st.current);
        if has_duplicate_color(hyps) {
            Err(node.id)
        } else {
            Ok(
                PathState {
                    in_edges,
                    paths: st.paths.update(node.id as int, hyps),
                    current: if hit || past {
                        st.current + 1
                    } else {
                        st.current
                    },
                    best_node: if better {
                        node.id
                    } else {
                        st.best_node
                    },
                    best_score: if better {
                        max_score(derived.0)
                    } else {
                        st.best_score
                    },
                },
            )
        }
    }

    /// The state after the first `k` nodes behind the node of the first
    /// anchor are visited.
    pub open spec fn run(self, k: int) -> Result<PathState, u32>
        decreases k,
    {
        if k <= 0 {
            Ok(self.initial())
        } else {
            match self.run(k - 1) {
                Err(node) => Err(node),
                Ok(st) => self.step(st, self.ref_nodes[self.order_to_id[self.first().order + k] as int]),
            }
        }
    }

    /// The colors and the sub-chains that the state `st` gives: one for
    /// every hypothesis at the best node, and none where that node has no
    /// hypothesis or the best of them scores below -25000 points.
    pub open spec fn finish(self, st: PathState) -> (Seq<Color>, Seq<(Seq<(u32, u32)>, Score)>) {
        let hyps = st.paths[st.best_node as int];
        if hyps.len() == 0 || max_score(hyps)->Some_0 < FAIL_SCORE {
            (Seq::empty(), Seq::empty())
        } else {
            (
                Seq::new(hyps.len(), |j: int| hyps[j].color),
                Seq::new(
                    hyps.len(),
                    |j: int|
                        (
                            consistent(
                                self.anchors,
                                self.ref_nodes,
                                hyps[j].color,
                                hyps[j].origin as int,
                                self.anchors.len() as int,
                            ),
                            hyps[j].score,
                        ),
                ),
            )
        }
    }

    /// What the reconstruction returns.
    pub open spec fn reconstruct(self) -> Result<(Seq<Color>, Seq<(Seq<(u32, u32)>, Score)>), u32> {
        if self.anchors.len() == 0 {
            Ok((Seq::empty(), Seq::empty()))
        } else {
            match self.run(self.last().order - self.first().order) {
                Err(node) => Err(node),
                Ok(st) => Ok(self.finish(st)),
            }
        }
    }
}

} // verus!

verus! {

/// The input that the arguments of [`get_best_path_from_chain2`] describe.
pub open spec fn path_input(
    anchors: Seq<(u32, u32)>,
    ref_nodes: Seq<KmerNode>,
    order_to_id: Seq<u32>,
    query_nodes: Seq<KmerNode>,
) -> PathInput {
    PathInput { anchors, ref_nodes, order_to_id, query_nodes }
}

/// Whether the returned sub-chains are the sub-chains `model`.
pub open spec fn sub_chains_match(chains: Seq<(Anchors, Score)>, model: Seq<(Seq<(u32, u32)>, Score)>) -> bool {
    &&& chains.len() == model.len()
    &&& forall|j: int|
        0 <= j < chains.len() ==> (#[trigger] chains[j]).0@ == model[j].0 && chains[j].1 == model[j].1
}

/// The hypotheses that one visited node gets from its parents, with the
/// union of the colors of all their hypotheses.
fn derive_from_parents(
    parents: &Vec<u32>,
    best_paths: &FxHashMap<u32, Vec<Hypothesis>>,
    ref_nodes: &Vec<KmerNode>,
    node_id: u32,
    hit: bool,
    query_gap: u64,
    Ghost(input): Ghost<PathInput>,
    Ghost(paths): Ghost<Seq<Seq<Hypothesis>>>,
    Ghost(t): Ghost<int>,
) -> (derived: (Vec<Hypothesis>, Color))
    requires
        1 <= t <= 0x1_0000_0000,
        input.ref_nodes == ref_nodes@,
        paths.len() == ref_nodes@.len(),
        agrees(best_paths@, paths),
        forall|j: int| 0 <= j < parents@.len() ==> #[trigger] parents@[j] < ref_nodes@.len(),
        forall|id: int| 0 <= id < paths.len() ==> all_bounded(#[trigger] paths[id], t - 1),
    ensures
        (derived.0@, derived.1) == input.derive_all(paths, parents@, node_id, hit, query_gap as int),
        all_bounded(derived.0@, t),
{
    let mut best_node_paths: Vec<Hypothesis> = Vec::new();
    let mut all_colors: Color = 0;
    let mut pi: usize = 0;
    assert(parents@.take(0) =~= Seq::empty());
    while pi < parents.len()
        invariant
            1 <= t <= 0x1_0000_0000,
            input.ref_nodes == ref_nodes@,
            paths.len() == ref_nodes@.len(),
            agrees(best_paths@, paths),
            forall|j: int| 0 <= j < parents@.len() ==> #[trigger] parents@[j] < ref_nodes@.len(),
            forall|id: int| 0 <= id < paths.len() ==> all_bounded(#[trigger] paths[id], t - 1),
            pi <= parents@.len(),
            (best_node_paths@, all_colors) == input.derive_all(
                paths,
                parents@.take(pi as int),
                node_id,
                hit,
                query_gap as int,
            ),
            all_bounded(best_node_paths@, t),
        decreases parents@.len() - pi,
    {
        let parent_id = parents[pi];
        let parent_node = &ref_nodes[parent_id as usize];
        assert(parents@.take(pi + 1).drop_last() == parents@.take(pi as int));
        assert(parents@.take(pi + 1).last() == parent_id);
        let edge = edge_summary(parent_node, node_id);
        let ghost before = best_node_paths@;
        let ghost colors_before = all_colors;
        assert(paths[parent_id as int] == if best_paths@.contains_key(parent_id) {
            best_paths@[parent_id]@
        } else {
            Seq::empty()
        });
        assert(all_bounded(paths[parent_id as int], t - 1));
        match map_get(best_paths, &parent_id) {
            Some(parent_paths) => {
                let colors = derive_into(
                    parent_paths,
                    edge.0,
                    edge.1,
                    hit,
                    query_gap,
                    &mut best_node_paths,
                    Ghost(t),
                );
                all_colors = all_colors | colors;
            },
            None => {
                assert(before + Seq::<Hypothesis>::empty() =~= before);
                assert(colors_before | 0 == colors_before) by (bit_vector);
            },
        }
        pi = pi + 1;
    }
    assert(parents@.take(pi as int) == parents@);
    (best_node_paths, all_colors)
}

/// Reconstructs the best paths of a chain through the reference graph and
/// splits the chain into one sub-chain for each of them.
///
/// The paths that count are the hypotheses at the anchor node with the
/// best score, or at the node of the first anchor where no path reaches a
/// later anchor node. Returns the colors of these paths and, for each
/// color, the anchors of the chain from the origin of the path on that lie
/// on a node with every genome of that color, with the score of the path.
/// Both are empty where the chain is empty or the best of the paths scores
/// below -25000 points. The error names the node at which two hypotheses
/// had the same color.
pub fn get_best_path_from_chain2(
    anchors: &Anchors,
    ref_nodes: &Vec<KmerNode>,
    order_to_id: &Vec<u32>,
    query_nodes: &Vec<KmerNode>,
) -> (result: Result<(Vec<Color>, Vec<(Anchors, Score)>), PathError>)
    requires
        path_input(anchors@, ref_nodes@, order_to_id@, query_nodes@).well_formed(),
    ensures
        match result {
            Ok(found) => {
                let model = path_input(anchors@, ref_nodes@, order_to_id@, query_nodes@).reconstruct();
                &&& model is Ok
                &&& found.0@ == model->Ok_0.0
                &&& sub_chains_match(found.1@, model->Ok_0.1)
            },
            Err(PathError::DuplicateColor { node }) => path_input(
                anchors@,
                ref_nodes@,
                order_to_id@,
                query_nodes@,
            ).reconstruct() == Err::<(Seq<Color>, Seq<(Seq<(u32, u32)>, Score)>), u32>(node),
        },
{
    let ghost input = path_input(anchors@, ref_nodes@, order_to_id@, query_nodes@);
    if anchors.len() == 0 {
        return Ok((Vec::new(), Vec::new()));
    }
    let n_anchors = anchors.len();
    let first_id = anchors[0].0;
    let last_id = anchors[n_anchors - 1].0;
    let first_node = &ref_nodes[first_id as usize];
    let last_node = &ref_nodes[last_id as usize];
    assert(first_node.id == first_id && last_node.id == last_id);
    let mut in_edges_dict: FxHashMap<u32, Vec<u32>> = map_new();
    let mut best_paths: FxHashMap<u32, Vec<Hypothesis>> = map_new();
    let ghost n = ref_nodes@.len() as int;
    let ghost empty_edges = Seq::new(n as nat, |i: int| Seq::<u32>::empty());
    let ghost empty_paths = Seq::new(n as nat, |i: int| Seq::<Hypothesis>::empty());
    register_children(&mut in_edges_dict, first_node, Ghost(empty_edges));
    let mut start: Vec<Hypothesis> = Vec::new();
    start.push(Hypothesis { color: first_node.color, score: START_SCORE, ref_distance: 0, origin: 0 });
    map_insert(&mut best_paths, first_id, start);
    let mut current_anchor_id: usize = 1;
    let mut best_node: u32 = first_id;
    let mut cumulative_best_score: Option<Score> = None;
    let ghost mut st = input.initial();
    proof {
        lemma_register(empty_edges, first_node.child_nodes@, first_id, n);
        assert(st.paths[first_id as int] == start@);
        assert(all_bounded(start@, 0));
    }
    let span: u32 = if last_node.order > first_node.order {
        last_node.order - first_node.order
    } else {
        0
    };
    let mut k: u32 = 0;
    while k < span
        invariant
            input == path_input(anchors@, ref_nodes@, order_to_id@, query_nodes@),
            input.well_formed(),
            n_anchors == anchors@.len(),
            n_anchors > 0,
            n == ref_nodes@.len(),
            first_node == input.first(),
            last_node == input.last(),
            span == if last_node.order > first_node.order {
                last_node.order - first_node.order
            } else {
                0
            },
            k <= span,
            input.run(k as int) == Ok::<PathState, u32>(st),
            st.in_edges.len() == n,
            st.paths.len() == n,
            parents_in_range(st.in_edges, n),
            agrees(in_edges_dict@, st.in_edges),
            agrees(best_paths@, st.paths),
            forall|id: int| 0 <= id < n ==> all_bounded(#[trigger] st.paths[id], k as int),
            st.current == current_anchor_id,
            1 <= current_anchor_id <= k + 1,
            st.best_node == best_node,
            best_node < n,
            st.best_score == cumulative_best_score,
        decreases span - k,
    {
        k = k + 1;
        let ghost t = k as int;
        let order: usize = (first_node.order + k) as usize;
        assert(first_node.order < order <= last_node.order);
        let id_of_node = order_to_id[order];
        assert(input.order_to_id[order as int] < n);
        let intermediate_node = &ref_nodes[id_of_node as usize];
        assert(intermediate_node.id == id_of_node);
        proof {
            lemma_register(st.in_edges, intermediate_node.child_nodes@, id_of_node, n);
        }
        register_children(&mut in_edges_dict, intermediate_node, Ghost(st.in_edges));
        let ghost in_edges = register(st.in_edges, intermediate_node.child_nodes@, intermediate_node.id);
        let anchor_hit = current_anchor_id < n_anchors && anchors[current_anchor_id].0 == id_of_node;
        let unreachable_past = current_anchor_id < n_anchors && !anchor_hit && ref_nodes[anchors[current_anchor_id].0 as usize].order
            < intermediate_node.order;
        assert(anchor_hit == input.is_hit(st.current, *intermediate_node));
        assert(unreachable_past == input.is_past(st.current, *intermediate_node));
        let query_gap: u64 = if anchor_hit {
            let here = query_nodes[anchors[current_anchor_id].1 as usize].actual_ref_positions[0];
            let before = query_nodes[anchors[current_anchor_id - 1].1 as usize].actual_ref_positions[0];
            if here >= before {
                (here - before) as u64
            } else {
                (before - here) as u64
            }
        } else {
            0
        };
        assert(anchor_hit ==> query_gap == input.query_gap(st.current));
        let no_parents: Vec<u32> = Vec::new();
        assert(in_edges[id_of_node as int] == if in_edges_dict@.contains_key(id_of_node) {
            in_edges_dict@[id_of_node]@
        } else {
            Seq::empty()
        });
        let parent_vec: &Vec<u32> = match map_get(&in_edges_dict, &id_of_node) {
            Some(v) => v,
            None => &no_parents,
        };
        assert(parent_vec@ == in_edges[id_of_node as int]);
        assert forall|id: int| 0 <= id < st.paths.len() implies all_bounded(#[trigger] st.paths[id], t - 1) by {}
        let derived = derive_from_parents(
            parent_vec,
            &best_paths,
            ref_nodes,
            id_of_node,
            anchor_hit,
            query_gap,
            Ghost(input),
            Ghost(st.paths),
            Ghost(t),
        );
        let mut best_node_paths = derived.0;
        let all_colors = derived.1;
        proof {
            if !anchor_hit {
                lemma_derive_all_no_hit(input, st.paths, parent_vec@, id_of_node, query_gap as int, input.query_gap(st.current));
            }
        }
        let ghost derived_model = input.derive_all(
            st.paths,
            in_edges[id_of_node as int],
            id_of_node,
            anchor_hit,
            input.query_gap(st.current),
        );
        assert(derived_model == (best_node_paths@, all_colors));
        let curr_best = best_of(&best_node_paths);
        let mut better = false;
        if anchor_hit {
            match curr_best {
                Some(m) => {
                    better = match cumulative_best_score {
                        Some(b) => m > b,
                        None => true,
                    };
                },
                None => {},
            }
        }
        if better {
            best_node = id_of_node;
            cumulative_best_score = curr_best;
        }
        let remaining_colors = intermediate_node.color & !all_colors;
        if parent_vec.len() > 0 && remaining_colors != 0 {
            let lowest_score: Score = match curr_best {
                Some(m) => if m > 0 {
                    m
                } else {
                    0
                },
                None => 0,
            };
            proof {
                if best_node_paths@.len() > 0 {
                    lemma_max_score_bounded(best_node_paths@, t);
                }
            }
            best_node_paths.push(
                Hypothesis {
                    color: remaining_colors,
                    score: lowest_score,
                    ref_distance: 0,
                    origin: current_anchor_id,
                },
            );
        }
        assert(best_node_paths@ == with_uncovered(
            derived_model.0,
            intermediate_node.color,
            derived_model.1,
            in_edges[id_of_node as int].len() > 0,
            st.current,
        ));
        if find_duplicate_color(&best_node_paths) {
            assert(input.run(k as int) == Err::<PathState, u32>(id_of_node));
            proof {
                lemma_run_error_stays(input, k as int, span as int);
            }
            return Err(PathError::DuplicateColor { node: id_of_node });
        }
        proof {
            let paths_before = st.paths;
            st =
            PathState {
                in_edges,
                paths: st.paths.update(id_of_node as int, best_node_paths@),
                current: if anchor_hit || unreachable_past {
                    st.current + 1
                } else {
                    st.current
                },
                best_node,
                best_score: cumulative_best_score,
            };
            assert forall|id: int| 0 <= id < n implies all_bounded(#[trigger] st.paths[id], k as int) by {
                if id != id_of_node {
                    assert(all_bounded(paths_before[id], k - 1));
                    assert forall|j: int| 0 <= j < st.paths[id].len() implies bounded(
                        #[trigger] st.paths[id][j],
                        k as int,
                    ) by {
                        assert(bounded(paths_before[id][j], k - 1));
                    }
                }
            }
        }
        map_insert(&mut best_paths, id_of_node, best_node_paths);
        if anchor_hit || unreachable_past {
            current_anchor_id = current_anchor_id + 1;
        }
    }
    assert(span == input.last().order - input.first().order || (span == 0 && input.last().order
        - input.first().order <= 0));
    assert(input.run(input.last().order - input.first().order) == Ok::<PathState, u32>(st));
    let mut best_path_colors: Vec<Color> = Vec::new();
    let mut consistent_color_anchors: Vec<(Anchors, Score)> = Vec::new();
    assert(st.paths[best_node as int] == if best_paths@.contains_key(best_node) {
        best_paths@[best_node]@
    } else {
        Seq::empty()
    });
    let best_path = match map_get(&best_paths, &best_node) {
        Some(v) => v,
        None => {
            return Ok((best_path_colors, consistent_color_anchors));
        },
    };
    let best_path_score = match best_of(best_path) {
        Some(m) => m,
        None => {
            return Ok((best_path_colors, consistent_color_anchors));
        },
    };
    if best_path_score < FAIL_SCORE {
        return Ok((best_path_colors, consistent_color_anchors));
    }
    let ghost model = input.finish(st);
    let mut j: usize = 0;
    while j < best_path.len()
        invariant
            j <= best_path@.len(),
            model.0.len() == best_path@.len(),
            model.1.len() == best_path@.len(),
            model == input.finish(st),
            best_path@ == st.paths[best_node as int],
            st.best_node == best_node,
            best_path@.len() > 0,
            max_score(best_path@) == Some(best_path_score),
            best_path_score >= FAIL_SCORE,
            input == path_input(anchors@, ref_nodes@, order_to_id@, query_nodes@),
            input.well_formed(),
            best_path_colors@ == model.0.take(j as int),
            consistent_color_anchors@.len() == j,
            forall|i: int|
                0 <= i < j ==> (#[trigger] consistent_color_anchors@[i]).0@ == model.1[i].0
                    && consistent_color_anchors@[i].1 == model.1[i].1,
        decreases best_path@.len() - j,
    {
        let path = best_path[j];
        best_path_colors.push(path.color);
        let consistent_anchors = consistent_anchors(anchors, ref_nodes, path.color, path.origin);
        consistent_color_anchors.push((consistent_anchors, path.score));
        assert(best_path_colors@ == model.0.take(j + 1));
        j = j + 1;
    }
    assert(model.0.take(j as int) == model.0);
    Ok((best_path_colors, consistent_color_anchors))
}

/// Where the node is no anchor node, the query gap plays no part in what
/// the parents give.
proof fn lemma_derive_all_no_hit(
    input: PathInput,
    paths: Seq<Seq<Hypothesis>>,
    parents: Seq<u32>,
    node_id: u32,
    gap1: int,
    gap2: int,
)
    ensures
        input.derive_all(paths, parents, node_id, false, gap1) == input.derive_all(
            paths,
            parents,
            node_id,
            false,
            gap2,
        ),
    decreases parents.len(),
{
    if parents.len() > 0 {
        lemma_derive_all_no_hit(input, paths, parents.drop_last(), node_id, gap1, gap2);
        let parent = input.ref_nodes[parents.last() as int];
        lemma_derive_no_hit(
            paths[parents.last() as int],
            edge_color(parent, node_id),
            edge_distance(parent, node_id),
            gap1,
            gap2,
        );
    }
}

/// Where the node is no anchor node, the query gap plays no part in what
/// one parent gives.
proof fn lemma_derive_no_hit(hyps: Seq<Hypothesis>, color: Color, distance: int, gap1: int, gap2: int)
    ensures
        derive(hyps, color, distance, false, gap1) == derive(hyps, color, distance, false, gap2),
    decreases hyps.len(),
{
    if hyps.len() > 0 {
        lemma_derive_no_hit(hyps.drop_last(), color, distance, gap1, gap2);
    }
}

/// Once a step has failed, every later state is the same failure.
proof fn lemma_run_error_stays(input: PathInput, k: int, m: int)
    requires
        k <= m,
        input.run(k) is Err,
    ensures
        input.run(m) == input.run(k),
    decreases m - k,
{
    if k < m {
        lemma_run_error_stays(input, k, m - 1);
    }
}

} // verus!
