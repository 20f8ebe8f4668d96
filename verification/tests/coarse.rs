use color_chain::coarse::copy_anchors;
use color_chain::coarse::get_super_chains;
use color_chain::coarse::landmark_positions;
use color_chain::coarse::min_dist_ref_nodes;
use color_chain::coarse::min_dist_ref_nodes_lazy;
use color_chain::coarse::score_super_anchors;
use color_chain::coarse::super_chains_from_anchors;
use color_chain::index::get_kmer_dict;
use color_chain::seed::KmerNode;
use fxhash::FxHashMap;
use fxhash::FxHashSet;

fn seed(id: u32, order: u32, kmer: u32, positions: Vec<usize>) -> KmerNode {
    KmerNode {
        order,
        id,
        kmer,
        canonical: true,
        color: 1,
        actual_ref_positions: positions,
        child_nodes: vec![],
        child_edge_distance: vec![],
    }
}

fn landmarks(n: u32) -> Vec<KmerNode> {
    (0..n).map(|i| seed(i, i, 100 + i, vec![100 * i as usize])).collect()
}

#[test]
fn landmark_positions_pair_the_genomes_from_the_lowest_with_the_positions() {
    let mut node = seed(0, 0, 0, vec![10, 20]);
    node.color = 0b101;
    assert_eq!(landmark_positions(&node), vec![(0, 10), (2, 20)]);
    node.actual_ref_positions = vec![10, 20, 30];
    assert_eq!(landmark_positions(&node), vec![(0, 10), (2, 20)]);
    node.actual_ref_positions = vec![10];
    assert_eq!(landmark_positions(&node), vec![(0, 10)]);
    node.color = 0;
    assert_eq!(landmark_positions(&node), vec![]);
}

#[test]
fn landmark_distance_is_the_least_over_the_shared_genomes() {
    assert_eq!(min_dist_ref_nodes(&vec![(0, 100), (1, 500)], &vec![(0, 180), (1, 530), (2, 7)]), Some(30));
    assert_eq!(min_dist_ref_nodes(&vec![(0, 100), (1, 500)], &vec![(0, 180), (2, 7)]), Some(80));
    assert_eq!(min_dist_ref_nodes(&vec![(0, 300)], &vec![(0, 180)]), Some(120));
    assert_eq!(min_dist_ref_nodes(&vec![(3, 9)], &vec![(3, 9)]), Some(0));
}

#[test]
fn landmark_distance_without_a_shared_genome_is_none() {
    assert_eq!(min_dist_ref_nodes(&vec![(0, 100)], &vec![(1, 100)]), None);
    assert_eq!(min_dist_ref_nodes(&vec![], &vec![(1, 100)]), None);
    assert_eq!(min_dist_ref_nodes(&vec![(1, 100)], &vec![]), None);
}

#[test]
fn lazy_landmark_distance_reads_the_lowest_shared_genome() {
    let earlier = vec![(0, 100), (2, 500)];
    let later = vec![(0, 180), (2, 530)];
    assert_eq!(min_dist_ref_nodes_lazy(&earlier, &later, 0b101), Some(80));
    assert_eq!(min_dist_ref_nodes_lazy(&earlier, &later, 0b100), Some(30));
    assert_eq!(min_dist_ref_nodes_lazy(&later, &earlier, 0b100), Some(30));
    assert_eq!(min_dist_ref_nodes_lazy(&earlier, &later, 0b010), None);
    assert_eq!(min_dist_ref_nodes_lazy(&earlier, &vec![], 0b100), Some(500));
}

#[test]
fn copy_anchors_copies() {
    assert_eq!(copy_anchors(&vec![(1, 2), (3, 4)]), vec![(1, 2), (3, 4)]);
    assert_eq!(copy_anchors(&vec![]), vec![]);
}

#[test]
fn landmark_anchors_are_scored_by_the_difference_of_the_distances() {
    let seeds_ref = landmarks(3);
    let seeds_q = vec![seed(0, 0, 0, vec![0]), seed(1, 1, 0, vec![100]), seed(2, 2, 0, vec![230])];
    let anchors = vec![(0, 0), (1, 1), (2, 2)];
    let mut col_list: FxHashMap<u32, Vec<(usize, usize)>> = FxHashMap::default();
    for node in seeds_ref.iter() {
        col_list.insert(node.id, landmark_positions(node));
    }
    let scored = score_super_anchors(&anchors, &seeds_ref, &seeds_q, &col_list, 10, true, 1, 1000);
    assert_eq!(scored.0, vec![0, 200_000, 340_000]);
    assert_eq!(scored.1, vec![0, 0, 1]);
    let scored = score_super_anchors(&anchors, &seeds_ref, &seeds_q, &col_list, 10, false, 1, 1000);
    assert_eq!(scored.0, vec![0, 0, 0]);
    assert_eq!(scored.1, vec![0, 1, 2]);
    let scored = score_super_anchors(&vec![], &seeds_ref, &seeds_q, &col_list, 10, true, 1, 1000);
    assert_eq!(scored.0, vec![0]);
    assert_eq!(scored.1, Vec::<usize>::new());
}

#[test]
fn backward_strand_counts_the_read_from_its_end() {
    let seeds_ref = landmarks(3);
    let seeds_q = vec![seed(0, 0, 0, vec![900]), seed(1, 1, 0, vec![800]), seed(2, 2, 0, vec![700])];
    let anchors = vec![(0, 0), (1, 1), (2, 2)];
    let mut col_list: FxHashMap<u32, Vec<(usize, usize)>> = FxHashMap::default();
    for node in seeds_ref.iter() {
        col_list.insert(node.id, landmark_positions(node));
    }
    let scored = score_super_anchors(&anchors, &seeds_ref, &seeds_q, &col_list, 10, false, 1, 1000);
    assert_eq!(scored.0, vec![0, 200_000, 400_000]);
    assert_eq!(scored.1, vec![0, 0, 1]);
}

#[test]
fn landmarks_without_a_shared_coordinate_are_not_chained() {
    let mut seeds_ref = landmarks(2);
    seeds_ref[0].color = 0b11;
    seeds_ref[0].actual_ref_positions = vec![0];
    seeds_ref[1].color = 0b10;
    seeds_ref[1].actual_ref_positions = vec![100];
    let seeds_q = vec![seed(0, 0, 0, vec![0]), seed(1, 1, 0, vec![100])];
    let anchors = vec![(0, 0), (1, 1)];
    let mut col_list: FxHashMap<u32, Vec<(usize, usize)>> = FxHashMap::default();
    for node in seeds_ref.iter() {
        col_list.insert(node.id, landmark_positions(node));
    }
    let scored = score_super_anchors(&anchors, &seeds_ref, &seeds_q, &col_list, 10, true, 1, 1000);
    assert_eq!(scored.0, vec![0, 0]);
    assert_eq!(scored.1, vec![0, 1]);
}

#[test]
fn coarse_chainer_chains_three_landmarks() {
    let seeds_ref = landmarks(3);
    let seeds_q: Vec<KmerNode> = (0..3).map(|i| seed(i, i, 100 + i, vec![100 * i as usize])).collect();
    let ref_map = get_kmer_dict(&seeds_ref);
    let q_map = get_kmer_dict(&seeds_q);
    let not_used: FxHashSet<u32> = FxHashSet::default();
    let closest = vec![Some(0), Some(1), Some(2)];
    let chains = get_super_chains(&seeds_ref, &seeds_q, &ref_map, &q_map, 10, true, &not_used, &closest, 1, 1000);
    assert_eq!(chains, vec![(vec![(0, 0), (1, 1), (2, 2)], 400_000, true)]);
}

#[test]
fn coarse_chainer_of_empty_arrays_gives_no_chain() {
    let seeds_ref: Vec<KmerNode> = vec![];
    let seeds_q: Vec<KmerNode> = vec![];
    let ref_map = get_kmer_dict(&seeds_ref);
    let q_map = get_kmer_dict(&seeds_q);
    let not_used: FxHashSet<u32> = FxHashSet::default();
    let chains = get_super_chains(&seeds_ref, &seeds_q, &ref_map, &q_map, 10, true, &not_used, &vec![], 1, 1000);
    assert_eq!(chains.len(), 0);
}

#[test]
fn coarse_chainer_takes_the_landmarks_in_their_order() {
    let n = 12u32;
    let mut seeds_ref: Vec<KmerNode> = (0..n).map(|i| seed(i, n - 1 - i, 100 + i, vec![100 * (n - 1 - i) as usize])).collect();
    seeds_ref[0].kmer = 100;
    let seeds_q: Vec<KmerNode> = (0..n).map(|i| seed(i, i, 100 + i, vec![100 * (n - 1 - i) as usize])).collect();
    let anchors: Vec<(u32, u32)> = (0..n).map(|i| (i, i)).collect();
    let closest: Vec<Option<u32>> = (0..n).map(Some).collect();
    let chains = super_chains_from_anchors(&anchors, true, &seeds_ref, &seeds_q, 20, &closest, 1, 10_000);
    let expected: Vec<(u32, u32)> = (0..n).rev().map(|i| (i, i)).collect();
    assert_eq!(chains, vec![(expected, 2_200_000, true)]);
}

#[test]
fn coarse_chainer_moves_anchors_to_their_landmark_and_drops_sparse_landmarks() {
    let mut seeds_ref: Vec<KmerNode> = (0..9).map(|i| seed(i, i, 0, vec![])).collect();
    for l in 0..3usize {
        seeds_ref[3 * l].actual_ref_positions = vec![1000 * l];
    }
    let seeds_q: Vec<KmerNode> = (0..9)
        .map(|i| seed(i, i, 0, vec![1000 * (i as usize / 3) + (i as usize % 3)]))
        .collect();
    let closest: Vec<Option<u32>> = (0..9).map(|i| if i == 8 { None } else { Some(3 * (i / 3)) }).collect();
    let anchors: Vec<(u32, u32)> = (0..9).map(|i| (i, i)).collect();
    let chains = super_chains_from_anchors(&anchors, true, &seeds_ref, &seeds_q, 20, &closest, 16, 10_000);
    assert_eq!(chains.len(), 1);
    assert_eq!(chains[0].0, vec![(0, 0), (3, 3), (6, 6)]);
    assert_eq!(chains[0].1, 400_000);
    let chains = super_chains_from_anchors(&anchors, true, &seeds_ref, &seeds_q, 20, &closest, 40, 10_000);
    assert_eq!(chains.len(), 0);
    let chains = super_chains_from_anchors(&anchors, true, &seeds_ref, &seeds_q, 20, &closest, 31, 10_000);
    assert_eq!(chains.len(), 0);
    let chains = super_chains_from_anchors(&anchors, true, &seeds_ref, &seeds_q, 20, &closest, 30, 10_000);
    assert_eq!(chains.len(), 1);
}

#[test]
fn coarse_chainer_takes_the_backward_anchors_where_they_are_more() {
    let seeds_ref = landmarks(3);
    let mut seeds_q: Vec<KmerNode> = (0..3).map(|i| seed(i, i, 100 + i, vec![1000 - 100 * i as usize])).collect();
    for q in seeds_q.iter_mut() {
        q.canonical = false;
    }
    let ref_map = get_kmer_dict(&seeds_ref);
    let q_map = get_kmer_dict(&seeds_q);
    let not_used: FxHashSet<u32> = FxHashSet::default();
    let closest = vec![Some(0), Some(1), Some(2)];
    let chains = get_super_chains(&seeds_ref, &seeds_q, &ref_map, &q_map, 10, true, &not_used, &closest, 1, 1000);
    assert_eq!(chains, vec![(vec![(0, 0), (1, 1), (2, 2)], 400_000, false)]);
}
