use color_chain::path::get_best_path_from_chain2;
use color_chain::path::PathError;
use color_chain::seed::KmerNode;

fn node(id: u32, color: u128, edges: Vec<(u32, u128, u16)>) -> KmerNode {
    let mut child_nodes = Vec::new();
    let mut child_edge_distance = Vec::new();
    for (k, (child, edge_color, distance)) in edges.into_iter().enumerate() {
        child_nodes.push(child);
        child_edge_distance.push((distance, (edge_color, k as u8)));
    }
    KmerNode {
        order: id,
        id,
        kmer: 0,
        canonical: true,
        color,
        actual_ref_positions: vec![],
        child_nodes,
        child_edge_distance,
    }
}

fn query(positions: Vec<usize>) -> Vec<KmerNode> {
    positions
        .into_iter()
        .enumerate()
        .map(|(i, p)| KmerNode {
            order: i as u32,
            id: i as u32,
            kmer: 0,
            canonical: true,
            color: 0,
            actual_ref_positions: vec![p],
            child_nodes: vec![],
            child_edge_distance: vec![],
        })
        .collect()
}

fn identity(n: u32) -> Vec<u32> {
    (0..n).collect()
}

fn diamond() -> Vec<KmerNode> {
    vec![
        node(0, 0b11, vec![(1, 0b01, 1), (2, 0b10, 1)]),
        node(1, 0b01, vec![(3, 0b01, 1)]),
        node(2, 0b10, vec![(3, 0b10, 1)]),
        node(3, 0b11, vec![]),
    ]
}

#[test]
fn empty_chain_gives_nothing() {
    let nodes = vec![node(0, 1, vec![])];
    let found = get_best_path_from_chain2(&vec![], &nodes, &identity(1), &query(vec![0])).unwrap();
    assert_eq!(found.0, Vec::<u128>::new());
    assert_eq!(found.1.len(), 0);
}

#[test]
fn chain_of_one_anchor_keeps_its_start_score() {
    let nodes = vec![node(0, 0b101, vec![])];
    let found = get_best_path_from_chain2(&vec![(0, 0)], &nodes, &identity(1), &query(vec![0])).unwrap();
    assert_eq!(found.0, vec![0b101]);
    assert_eq!(found.1, vec![(vec![(0, 0)], 10_000)]);
}

#[test]
fn path_along_a_line_scores_five_points_for_an_anchor_without_gap() {
    let nodes = vec![node(0, 1, vec![(1, 1, 1)]), node(1, 1, vec![(2, 1, 1)]), node(2, 1, vec![])];
    let found = get_best_path_from_chain2(&vec![(0, 0), (2, 1)], &nodes, &identity(3), &query(vec![0, 2])).unwrap();
    assert_eq!(found.0, vec![1]);
    assert_eq!(found.1, vec![(vec![(0, 0), (2, 1)], 15_000)]);
}

#[test]
fn path_pays_the_difference_between_the_query_gap_and_the_reference_distance() {
    let nodes = vec![node(0, 1, vec![(1, 1, 1)]), node(1, 1, vec![(2, 1, 1)]), node(2, 1, vec![])];
    let found = get_best_path_from_chain2(&vec![(0, 0), (2, 1)], &nodes, &identity(3), &query(vec![0, 10])).unwrap();
    assert_eq!(found.1, vec![(vec![(0, 0), (2, 1)], 7_000)]);
    let found = get_best_path_from_chain2(&vec![(0, 0), (2, 1)], &nodes, &identity(3), &query(vec![10, 9])).unwrap();
    assert_eq!(found.1, vec![(vec![(0, 0), (2, 1)], 14_000)]);
    let long = vec![node(0, 1, vec![(1, 1, 40)]), node(1, 1, vec![(2, 1, 60)]), node(2, 1, vec![])];
    let found = get_best_path_from_chain2(&vec![(0, 0), (2, 1)], &long, &identity(3), &query(vec![0, 90])).unwrap();
    assert_eq!(found.1, vec![(vec![(0, 0), (2, 1)], 5_000)]);
}

#[test]
fn edge_distance_is_the_mean_of_the_edges_to_the_child() {
    let mut first = node(0, 1, vec![(1, 1, 10)]);
    first.child_edge_distance.push((21, (1, 0)));
    let nodes = vec![first, node(1, 1, vec![])];
    let found = get_best_path_from_chain2(&vec![(0, 0), (1, 1)], &nodes, &identity(2), &query(vec![0, 15])).unwrap();
    assert_eq!(found.1, vec![(vec![(0, 0), (1, 1)], 15_000)]);
}

#[test]
fn reconstruction_fails_below_the_failure_score() {
    let nodes = vec![node(0, 1, vec![(1, 1, 1)]), node(1, 1, vec![])];
    let found = get_best_path_from_chain2(&vec![(0, 0), (1, 1)], &nodes, &identity(2), &query(vec![0, 25_017])).unwrap();
    assert_eq!(found.0.len(), 0);
    assert_eq!(found.1.len(), 0);
    let found = get_best_path_from_chain2(&vec![(0, 0), (1, 1)], &nodes, &identity(2), &query(vec![0, 25_016])).unwrap();
    assert_eq!(found.0, vec![1]);
    assert_eq!(found.1, vec![(vec![(0, 0), (1, 1)], -25_000_000)]);
}

#[test]
fn first_anchor_alone_where_no_path_reaches_the_next() {
    let nodes = vec![node(0, 0b01, vec![(1, 0b10, 1)]), node(1, 0b01, vec![])];
    let found = get_best_path_from_chain2(&vec![(0, 0), (1, 1)], &nodes, &identity(2), &query(vec![0, 1])).unwrap();
    assert_eq!(found.0, vec![0b01]);
    assert_eq!(found.1, vec![(vec![(0, 0), (1, 1)], 10_000)]);
}

#[test]
fn two_paths_of_one_color_at_a_node_are_an_error() {
    let nodes = vec![
        node(0, 1, vec![(1, 1, 1), (2, 1, 1)]),
        node(1, 1, vec![(3, 1, 1)]),
        node(2, 1, vec![(3, 1, 1)]),
        node(3, 1, vec![]),
    ];
    let result = get_best_path_from_chain2(&vec![(0, 0), (3, 1)], &nodes, &identity(4), &query(vec![0, 2]));
    assert!(matches!(result, Err(PathError::DuplicateColor { node: 3 })));
}

#[test]
fn diamond_splits_the_chain_by_color() {
    let found = get_best_path_from_chain2(&vec![(0, 0), (3, 1)], &diamond(), &identity(4), &query(vec![0, 2])).unwrap();
    assert_eq!(found.0, vec![0b01, 0b10]);
    assert_eq!(found.1, vec![(vec![(0, 0), (3, 1)], 15_000), (vec![(0, 0), (3, 1)], 15_000)]);
}

#[test]
fn sub_chain_keeps_the_anchors_that_have_its_color() {
    let nodes = diamond();
    let anchors = vec![(0, 0), (1, 1), (3, 2)];
    let found = get_best_path_from_chain2(&anchors, &nodes, &identity(4), &query(vec![0, 1, 2])).unwrap();
    assert_eq!(found.0, vec![0b01, 0b10]);
    assert_eq!(found.1, vec![(vec![(0, 0), (1, 1), (3, 2)], 20_000), (vec![(0, 0), (3, 2)], 14_000)]);
    for (color, (chain, _)) in found.0.iter().zip(found.1.iter()) {
        for anchor in chain {
            assert_eq!(nodes[anchor.0 as usize].color & color, *color);
        }
    }
}

#[test]
fn genomes_without_a_parent_path_get_a_path_of_their_own() {
    let nodes = vec![node(0, 0b01, vec![(1, 0b01, 1)]), node(1, 0b11, vec![(2, 0b11, 1)]), node(2, 0b11, vec![])];
    let found = get_best_path_from_chain2(&vec![(0, 0), (2, 1)], &nodes, &identity(3), &query(vec![0, 2])).unwrap();
    assert_eq!(found.0, vec![0b01, 0b10]);
    assert_eq!(found.1, vec![(vec![(0, 0), (2, 1)], 15_000), (vec![(2, 1)], 14_000)]);
}

#[test]
fn an_anchor_that_lies_behind_is_passed_over() {
    let mut nodes = vec![node(0, 1, vec![(2, 1, 1)]), node(1, 1, vec![]), node(2, 1, vec![(3, 1, 1)]), node(3, 1, vec![])];
    nodes[1].order = 0;
    nodes[2].order = 1;
    nodes[3].order = 2;
    let order_to_id = vec![0, 2, 3];
    let anchors = vec![(0, 0), (1, 1), (3, 2)];
    let found = get_best_path_from_chain2(&anchors, &nodes, &order_to_id, &query(vec![0, 1, 3])).unwrap();
    assert_eq!(found.0, vec![1]);
    assert_eq!(found.1, vec![(vec![(0, 0), (1, 1), (3, 2)], 15_000)]);
}
