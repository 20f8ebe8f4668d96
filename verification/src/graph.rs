//! Distances in the reference graph.

use crate::fx::set_contains;
use crate::fx::set_insert;
use crate::fx::set_new;
use crate::seed::KmerNode;
use fxhash::FxHashSet;
use smallvec::SmallVec;
use vstd::prelude::*;

verus! {

broadcast use vstd::std_specs::hash::group_hash_axioms;

/// A small vector of node ids of the `smallvec` crate. Verus does not
/// look inside: what it holds is `small_items`.
#[verifier::external_body]
pub struct SmallIds {
    items: SmallVec<[u32; 20]>,
}

/// The items of a small vector, from the first to the last.
pub uninterp spec fn small_items(v: SmallIds) -> Seq<u32>;

/// `SmallVec::new`: a new vector holds nothing.
#[verifier::external_body]
fn small_new() -> (v: SmallIds)
    ensures
        small_items(v) == Seq::<u32>::empty(),
{
    SmallIds { items: SmallVec::new() }
}

/// `SmallVec::push`: the item is added behind the others.
#[verifier::external_body]
fn small_push(v: &mut SmallIds, value: u32)
    ensures
        small_items(*final(v)) == small_items(*old(v)).push(value),
{
    v.items.push(value);
}

/// `SmallVec::clear`: afterwards the vector holds nothing.
#[verifier::external_body]
fn small_clear(v: &mut SmallIds)
    ensures
        small_items(*final(v)) == Seq::<u32>::empty(),
{
    v.items.clear();
}

/// `SmallVec::len`: the number of items.
#[verifier::external_body]
fn small_len(v: &SmallIds) -> (n: usize)
    ensures
        n == small_items(*v).len(),
{
    v.items.len()
}

/// `SmallVec::as_slice`, read at one place: the item at `i`.
#[verifier::external_body]
fn small_get(v: &SmallIds, i: usize) -> (item: u32)
    requires
        i < small_items(*v).len(),
    ensures
        item == small_items(*v)[i as int],
{
    v.items.as_slice()[i]
}

/// The children of the first `t` of `nodes`, in their order.
pub open spec fn children_of(all_nodes: Seq<KmerNode>, nodes: Seq<u32>, t: int) -> Seq<u32>
    decreases t,
{
    if t <= 0 {
        Seq::empty()
    } else {
        children_of(all_nodes, nodes, t - 1) + all_nodes[nodes[t - 1] as int].child_nodes@
    }
}

/// The nodes at the end of the walks of `level` edges from `start`, one
/// entry for every walk.
pub open spec fn frontier(all_nodes: Seq<KmerNode>, start: u32, level: nat) -> Seq<u32>
    decreases level,
{
    if level == 0 {
        seq![start]
    } else {
        let before = frontier(all_nodes, start, (level - 1) as nat);
        children_of(all_nodes, before, before.len() as int)
    }
}

/// Whether every child of every node is a node.
pub open spec fn children_in_range(all_nodes: Seq<KmerNode>) -> bool {
    forall|i: int, c: int|
        0 <= i < all_nodes.len() && 0 <= c < all_nodes[i].child_nodes@.len() ==> (
        #[trigger] all_nodes[i].child_nodes@[c]) < all_nodes.len()
}

/// The children of nodes are nodes, and the children of the first nodes
/// are among the children of all.
proof fn lemma_children_of(all_nodes: Seq<KmerNode>, nodes: Seq<u32>, t: int, x: u32)
    requires
        children_in_range(all_nodes),
        0 <= t <= nodes.len(),
        forall|j: int| 0 <= j < nodes.len() ==> #[trigger] nodes[j] < all_nodes.len(),
    ensures
        forall|j: int|
            0 <= j < children_of(all_nodes, nodes, t).len() ==> #[trigger] children_of(all_nodes, nodes, t)[j]
                < all_nodes.len(),
        children_of(all_nodes, nodes, t).contains(x) ==> children_of(
            all_nodes,
            nodes,
            nodes.len() as int,
        ).contains(x),
    decreases nodes.len() - t,
{
    lemma_children_in_range(all_nodes, nodes, t);
    if t < nodes.len() {
        lemma_children_of(all_nodes, nodes, t + 1, x);
        let now = children_of(all_nodes, nodes, t);
        let next = children_of(all_nodes, nodes, t + 1);
        if now.contains(x) {
            let j = choose|j: int| 0 <= j < now.len() && now[j] == x;
            assert(next[j] == x);
        }
    }
}

/// The children of nodes are nodes.
proof fn lemma_children_in_range(all_nodes: Seq<KmerNode>, nodes: Seq<u32>, t: int)
    requires
        children_in_range(all_nodes),
        0 <= t <= nodes.len(),
        forall|j: int| 0 <= j < nodes.len() ==> #[trigger] nodes[j] < all_nodes.len(),
    ensures
        forall|j: int|
            0 <= j < children_of(all_nodes, nodes, t).len() ==> #[trigger] children_of(all_nodes, nodes, t)[j]
                < all_nodes.len(),
    decreases t,
{
    if t > 0 {
        lemma_children_in_range(all_nodes, nodes, t - 1);
        let before = children_of(all_nodes, nodes, t - 1);
        let now = children_of(all_nodes, nodes, t);
        let kids = all_nodes[nodes[t - 1] as int].child_nodes@;
        assert forall|j: int| 0 <= j < now.len() implies #[trigger] now[j] < all_nodes.len() by {
            if j < before.len() {
                assert(now[j] == before[j]);
            } else {
                assert(now[j] == kids[j - before.len()]);
            }
        }
    }
}

/// The number of edges of the shortest walk from `node_back` to
/// `node_forward`, where it is at most `n` and at most the difference of
/// the orders of the two nodes; `None` where there is no such walk.
pub fn graph_dist(node_forward: &KmerNode, node_back: &KmerNode, n: usize, all_nodes: &Vec<KmerNode>) -> (dist:
    Option<usize>)
    requires
        children_in_range(all_nodes@),
        node_back.id < all_nodes@.len(),
        node_back.order <= node_forward.order,
    ensures
        match dist {
            Some(d) => {
                &&& 1 <= d <= n
                &&& d <= node_forward.order - node_back.order
                &&& frontier(all_nodes@, node_back.id, d as nat).contains(node_forward.id)
                &&& forall|l: nat|
                    1 <= l < d ==> !(#[trigger] frontier(all_nodes@, node_back.id, l)).contains(
                        node_forward.id,
                    )
            },
            None => forall|l: nat|
                1 <= l <= n && l <= node_forward.order - node_back.order ==> !(#[trigger] frontier(
                    all_nodes@,
                    node_back.id,
                    l,
                )).contains(node_forward.id),
        },
{
    let order_dist = node_forward.order - node_back.order;
    let limit: usize = if (order_dist as usize) < n {
        order_dist as usize
    } else {
        n
    };
    let mut visited: FxHashSet<u32> = set_new();
    let mut nodes_to_visit = small_new();
    let mut nodes_visited = small_new();
    small_push(&mut nodes_to_visit, node_back.id);
    assert(small_items(nodes_to_visit) =~= frontier(all_nodes@, node_back.id, 0));
    let mut i: usize = 0;
    while i < limit
        invariant
            children_in_range(all_nodes@),
            i <= limit,
            limit <= n,
            limit <= node_forward.order - node_back.order,
            small_items(nodes_to_visit) == frontier(all_nodes@, node_back.id, i as nat),
            small_items(nodes_visited) == Seq::<u32>::empty(),
            forall|j: int|
                0 <= j < small_items(nodes_to_visit).len() ==> #[trigger] small_items(nodes_to_visit)[j]
                    < all_nodes@.len(),
            forall|l: nat|
                1 <= l <= i ==> !(#[trigger] frontier(all_nodes@, node_back.id, l)).contains(
                    node_forward.id,
                ),
            !visited@.contains(node_forward.id),
        decreases limit - i,
    {
        let ghost level = frontier(all_nodes@, node_back.id, i as nat);
        let mut t: usize = 0;
        while t < small_len(&nodes_to_visit)
            invariant
                children_in_range(all_nodes@),
                i < limit,
                limit <= n,
                limit <= node_forward.order - node_back.order,
                level == frontier(all_nodes@, node_back.id, i as nat),
                forall|l: nat|
                    1 <= l <= i ==> !(#[trigger] frontier(all_nodes@, node_back.id, l)).contains(
                        node_forward.id,
                    ),
                small_items(nodes_to_visit) == level,
                forall|j: int| 0 <= j < level.len() ==> #[trigger] level[j] < all_nodes@.len(),
                t <= level.len(),
                small_items(nodes_visited) == children_of(all_nodes@, level, t as int),
                !visited@.contains(node_forward.id),
                !children_of(all_nodes@, level, t as int).contains(node_forward.id),
            decreases level.len() - t,
        {
            let node = small_get(&nodes_to_visit, t);
            let children = &all_nodes[node as usize].child_nodes;
            let ghost before = small_items(nodes_visited);
            let ghost seen = visited@;
            let mut c: usize = 0;
            while c < children.len()
                invariant
                    c <= children@.len(),
                    small_items(nodes_visited) == before + children@.take(c as int),
                    forall|x: u32|
                        #![trigger visited@.contains(x)]
                        visited@.contains(x) <==> (seen.contains(x) || children@.take(c as int).contains(x)),
                decreases children@.len() - c,
            {
                let child = children[c];
                let ghost set_before = visited@;
                small_push(&mut nodes_visited, child);
                set_insert(&mut visited, child);
                proof {
                    let a = children@.take(c as int);
                    let b = children@.take(c + 1);
                    assert(b == a.push(child));
                    assert(small_items(nodes_visited) == before + b);
                    assert forall|x: u32|
                        #![trigger visited@.contains(x)]
                        visited@.contains(x) <==> (seen.contains(x) || b.contains(x)) by {
                        assert(set_before.contains(x) <==> (seen.contains(x) || a.contains(x)));
                        if a.contains(x) {
                            let j = choose|j: int| 0 <= j < a.len() && a[j] == x;
                            assert(b[j] == x);
                        }
                        if x == child {
                            assert(b[c as int] == x);
                        }
                        if b.contains(x) {
                            let j = choose|j: int| 0 <= j < b.len() && b[j] == x;
                            if j < c {
                                assert(a[j] == x);
                            }
                        }
                    }
                }
                c = c + 1;
            }
            assert(children@.take(c as int) == children@);
            let ghost next = children_of(all_nodes@, level, t + 1);
            assert(next == before + children@);
            if set_contains(&visited, &node_forward.id) {
                proof {
                    let j = choose|j: int| 0 <= j < children@.len() && children@[j] == node_forward.id;
                    assert(next[before.len() + j] == node_forward.id);
                    lemma_children_of(all_nodes@, level, t + 1, node_forward.id);
                }
                return Some(i + 1);
            }
            proof {
                if next.contains(node_forward.id) {
                    let j = choose|j: int| 0 <= j < next.len() && next[j] == node_forward.id;
                    if j < before.len() {
                        assert(before[j] == node_forward.id);
                    } else {
                        assert(children@[j - before.len()] == node_forward.id);
                    }
                }
            }
            t = t + 1;
        }
        proof {
            lemma_children_in_range(all_nodes@, level, level.len() as int);
        }
        std::mem::swap(&mut nodes_to_visit, &mut nodes_visited);
        small_clear(&mut nodes_visited);
        i = i + 1;
    }
    None
}

} // verus!
