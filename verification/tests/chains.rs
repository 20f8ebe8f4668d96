use color_chain::anchor::anchors_from_keys;
use color_chain::anchor::anchors_from_seeds;
use color_chain::anchor::majority_is_forward;
use color_chain::anchor::resolve_strand;
use color_chain::anchor::Strand;
use color_chain::chainer::chain_seeds;
use color_chain::chainer::flip_orders;
use color_chain::chainer::get_chains;
use color_chain::index::get_kmer_dict;
use color_chain::index::get_kmer_dict_mut;
use color_chain::seed::KmerNode;
use fxhash::FxHashMap;
use fxhash::FxHashSet;

fn seed(id: u32, order: u32, kmer: u32, canonical: bool) -> KmerNode {
    KmerNode {
        order,
        id,
        kmer,
        canonical,
        color: 1,
        actual_ref_positions: vec![],
        child_nodes: vec![],
        child_edge_distance: vec![],
    }
}

fn line(n: u32) -> Vec<KmerNode> {
    (0..n).map(|i| seed(i, i, 100 + i, true)).collect()
}

fn orders(seeds: &Vec<KmerNode>) -> Vec<u32> {
    seeds.iter().map(|s| s.order).collect()
}

fn sorted(mut anchors: Vec<(u32, u32)>) -> Vec<(u32, u32)> {
    anchors.sort();
    anchors
}

#[test]
fn index_of_no_seeds_is_empty() {
    let dict = get_kmer_dict(&vec![]);
    assert_eq!(dict.len(), 0);
}

#[test]
fn index_lists_the_ids_of_every_kmer_in_order() {
    let seeds = vec![seed(0, 0, 5, true), seed(1, 1, 7, true), seed(2, 2, 5, false), seed(3, 3, 5, true)];
    let dict = get_kmer_dict(&seeds);
    assert_eq!(dict.len(), 2);
    assert_eq!(dict.get(&5), Some(&vec![0, 2, 3]));
    assert_eq!(dict.get(&7), Some(&vec![1]));
    assert_eq!(dict.get(&6), None);
}

#[test]
fn index_of_borrowed_seeds_leaves_them_as_they_are() {
    let mut seeds = vec![seed(0, 4, 5, true), seed(1, 3, 5, true)];
    let dict = get_kmer_dict_mut(&mut seeds);
    assert_eq!(dict.get(&5), Some(&vec![0, 1]));
    assert_eq!(orders(&seeds), vec![4, 3]);
}

#[test]
fn empty_seed_arrays_give_no_anchor() {
    let seeds_ref: Vec<KmerNode> = vec![];
    let seeds_q: Vec<KmerNode> = vec![];
    let ref_map = get_kmer_dict(&seeds_ref);
    let q_map = get_kmer_dict(&seeds_q);
    assert_eq!(ref_map.len(), 0);
    assert_eq!(q_map.len(), 0);
    let not_used: FxHashSet<u32> = FxHashSet::default();
    let found = anchors_from_seeds(&seeds_ref, &seeds_q, &ref_map, &q_map, &not_used);
    assert_eq!(found.0.len(), 0);
    assert_eq!(found.1.len(), 0);
    assert_eq!(found.2, 0);
    assert_eq!(found.3, 0);
    assert_eq!(resolve_strand(found.2, found.3), Strand::Ambiguous);
}

#[test]
fn empty_query_gives_no_anchor() {
    let seeds_ref = line(4);
    let seeds_q: Vec<KmerNode> = vec![];
    let ref_map = get_kmer_dict(&seeds_ref);
    let q_map = get_kmer_dict(&seeds_q);
    let not_used: FxHashSet<u32> = FxHashSet::default();
    let found = anchors_from_seeds(&seeds_ref, &seeds_q, &ref_map, &q_map, &not_used);
    assert_eq!((found.0.len(), found.1.len(), found.2, found.3), (0, 0, 0, 0));
}

#[test]
fn anchors_are_the_pairs_of_seeds_with_the_same_kmer() {
    let seeds_ref = vec![seed(0, 0, 5, true), seed(1, 1, 7, true), seed(2, 2, 5, false), seed(3, 3, 8, true)];
    let seeds_q = vec![seed(0, 0, 7, false), seed(1, 1, 5, true), seed(2, 2, 9, true), seed(3, 3, 5, true)];
    let ref_map = get_kmer_dict(&seeds_ref);
    let q_map = get_kmer_dict(&seeds_q);
    let not_used: FxHashSet<u32> = FxHashSet::default();
    let found = anchors_from_seeds(&seeds_ref, &seeds_q, &ref_map, &q_map, &not_used);
    assert_eq!(sorted(found.0), vec![(0, 1), (0, 3)]);
    assert_eq!(sorted(found.1), vec![(1, 0), (2, 1), (2, 3)]);
    assert_eq!(found.2, 1);
    assert_eq!(found.3, 2);
}

#[test]
fn excluded_kmers_give_no_anchor() {
    let seeds_ref = vec![seed(0, 0, 5, true), seed(1, 1, 7, true)];
    let seeds_q = vec![seed(0, 0, 7, true), seed(1, 1, 5, true)];
    let ref_map = get_kmer_dict(&seeds_ref);
    let q_map = get_kmer_dict(&seeds_q);
    let mut not_used: FxHashSet<u32> = FxHashSet::default();
    not_used.insert(5);
    let found = anchors_from_seeds(&seeds_ref, &seeds_q, &ref_map, &q_map, &not_used);
    assert_eq!(found.0, vec![(1, 0)]);
    assert_eq!(found.1.len(), 0);
    assert_eq!(found.2, 1);
    assert_eq!(found.3, 0);
}

#[test]
fn anchors_of_given_keys_come_in_the_order_of_the_keys() {
    let seeds_ref = vec![seed(0, 0, 5, true), seed(1, 1, 7, true), seed(2, 2, 5, true)];
    let seeds_q = vec![seed(0, 0, 7, true), seed(1, 1, 5, true), seed(2, 2, 5, false)];
    let ref_map = get_kmer_dict(&seeds_ref);
    let q_map = get_kmer_dict(&seeds_q);
    let not_used: FxHashSet<u32> = FxHashSet::default();
    let found = anchors_from_keys(&vec![5, 7], &seeds_ref, &seeds_q, &ref_map, &q_map, &not_used);
    assert_eq!(found.0, vec![(0, 1), (2, 1), (1, 0)]);
    assert_eq!(found.1, vec![(0, 2), (2, 2)]);
    assert_eq!(found.2, 2);
    assert_eq!(found.3, 1);
    let found = anchors_from_keys(&vec![7, 5, 6], &seeds_ref, &seeds_q, &ref_map, &q_map, &not_used);
    assert_eq!(found.0, vec![(1, 0), (0, 1), (2, 1)]);
    let found = anchors_from_keys(&vec![], &seeds_ref, &seeds_q, &ref_map, &q_map, &not_used);
    assert_eq!((found.0.len(), found.1.len(), found.2, found.3), (0, 0, 0, 0));
}

#[test]
fn anchors_take_the_ids_from_the_seeds() {
    let mut seeds_ref = vec![seed(0, 0, 5, true), seed(1, 1, 5, true)];
    let mut seeds_q = vec![seed(0, 0, 5, true)];
    seeds_ref[1].id = 40;
    seeds_q[0].id = 50;
    let mut ref_map: FxHashMap<u32, Vec<u32>> = FxHashMap::default();
    ref_map.insert(5, vec![1]);
    let mut q_map: FxHashMap<u32, Vec<u32>> = FxHashMap::default();
    q_map.insert(5, vec![0, 0]);
    let not_used: FxHashSet<u32> = FxHashSet::default();
    let found = anchors_from_seeds(&seeds_ref, &seeds_q, &ref_map, &q_map, &not_used);
    assert_eq!(found.0, vec![(40, 50), (40, 50)]);
    assert_eq!(found.2, 1);
}

#[test]
fn strand_by_the_ten_to_eight_rule() {
    assert_eq!(resolve_strand(13, 10), Strand::Forward);
    assert_eq!(resolve_strand(12, 10), Strand::Ambiguous);
    assert_eq!(resolve_strand(10, 13), Strand::Backward);
    assert_eq!(resolve_strand(10, 12), Strand::Ambiguous);
    assert_eq!(resolve_strand(1, 0), Strand::Forward);
    assert_eq!(resolve_strand(0, 1), Strand::Backward);
    assert_eq!(resolve_strand(0, 0), Strand::Ambiguous);
    assert_eq!(resolve_strand(4, 3), Strand::Forward);
    assert_eq!(resolve_strand(usize::MAX, usize::MAX), Strand::Ambiguous);
}

#[test]
fn strand_by_the_majority_rule() {
    assert!(majority_is_forward(3, 2));
    assert!(majority_is_forward(2, 2));
    assert!(!majority_is_forward(2, 3));
    assert!(majority_is_forward(0, 0));
}

#[test]
fn flip_orders_counts_from_the_other_end() {
    let mut seeds = line(4);
    flip_orders(&mut seeds);
    assert_eq!(orders(&seeds), vec![3, 2, 1, 0]);
    flip_orders(&mut seeds);
    assert_eq!(orders(&seeds), vec![0, 1, 2, 3]);
}

#[test]
fn no_anchor_gives_one_empty_chain_of_score_zero() {
    let seeds_ref = line(3);
    let mut seeds_q = line(3);
    let mut anchors = vec![];
    let chains = get_chains(&seeds_ref, &mut seeds_q, 5, true, true, false, true, &mut anchors);
    assert_eq!(chains, vec![(vec![], 0)]);
    let chains = get_chains(&seeds_ref, &mut seeds_q, 5, true, false, true, false, &mut anchors);
    assert_eq!(chains, vec![(vec![], 0)]);
    assert_eq!(orders(&seeds_q), vec![0, 1, 2]);
}

#[test]
fn read_mode_chains_a_line() {
    let seeds_ref = line(13);
    let mut seeds_q = line(13);
    let mut anchors: Vec<(u32, u32)> = (0..13).map(|i| (i, i)).collect();
    let chains = get_chains(&seeds_ref, &mut seeds_q, 50, true, true, false, true, &mut anchors);
    assert_eq!(chains, vec![((0..13).map(|i| (i, i)).collect::<Vec<(u32, u32)>>(), 312_000)]);
}

#[test]
fn a_line_that_is_too_short_gives_no_chain() {
    let seeds_ref = line(12);
    let mut seeds_q = line(12);
    let mut anchors: Vec<(u32, u32)> = (0..12).map(|i| (i, i)).collect();
    let chains = get_chains(&seeds_ref, &mut seeds_q, 50, true, true, false, true, &mut anchors);
    assert_eq!(chains.len(), 0);
    let chains = get_chains(&seeds_ref, &mut seeds_q, 50, true, false, false, true, &mut vec![(0, 0), (1, 1)]);
    assert_eq!(chains.len(), 0);
    let chains = get_chains(&seeds_ref, &mut seeds_q, 50, true, false, true, true, &mut vec![(0, 0), (1, 1)]);
    assert_eq!(chains.len(), 0);
}

#[test]
fn anchors_are_sorted_by_reference_order_and_equal_orders_keep_their_places() {
    let mut seeds_ref = line(13);
    seeds_ref[3].order = 2;
    let mut seeds_q = line(13);
    let mut anchors: Vec<(u32, u32)> = (0..13).rev().map(|i| (i, i)).collect();
    let chains = get_chains(&seeds_ref, &mut seeds_q, 50, true, true, false, true, &mut anchors);
    let mut expected: Vec<(u32, u32)> = (0..13).map(|i| (i, i)).collect();
    expected.swap(2, 3);
    assert_eq!(anchors, expected);
    assert_eq!(chains.len(), 0);
}

#[test]
fn unsorted_anchors_give_the_chain_of_the_sorted_ones() {
    let seeds_ref = line(13);
    let mut seeds_q = line(13);
    let mut anchors: Vec<(u32, u32)> = (0..13).rev().map(|i| (i, i)).collect();
    let chains = get_chains(&seeds_ref, &mut seeds_q, 50, true, true, false, true, &mut anchors);
    assert_eq!(anchors, (0..13).map(|i| (i, i)).collect::<Vec<(u32, u32)>>());
    assert_eq!(chains, vec![((0..13).map(|i| (i, i)).collect::<Vec<(u32, u32)>>(), 312_000)]);
}

#[test]
fn backward_strand_counts_the_query_from_the_other_end_and_restores_it() {
    let seeds_ref = line(13);
    let mut seeds_q = line(13);
    let mut anchors: Vec<(u32, u32)> = (0..13).map(|i| (i, 12 - i)).collect();
    let forward = get_chains(&seeds_ref, &mut seeds_q, 50, true, true, false, true, &mut anchors);
    assert_eq!(forward.len(), 0);
    let backward = get_chains(&seeds_ref, &mut seeds_q, 50, true, true, false, false, &mut anchors);
    assert_eq!(backward, vec![((0..13).map(|i| (i, 12 - i)).collect::<Vec<(u32, u32)>>(), 312_000)]);
    assert_eq!(orders(&seeds_q), (0..13).collect::<Vec<u32>>());
}

#[test]
fn chaining_backward_is_chaining_forward_against_the_flipped_query() {
    let seeds_ref = line(20);
    let mut seeds_q = line(20);
    let mut anchors: Vec<(u32, u32)> = (0..20).map(|i| (i, 19 - i)).collect();
    anchors.push((3, 3));
    anchors.push((7, 9));
    let mut other = anchors.clone();
    let backward = get_chains(&seeds_ref, &mut seeds_q, 50, true, true, false, false, &mut anchors);
    let mut flipped_q = seeds_q.clone();
    flip_orders(&mut flipped_q);
    let forward = get_chains(&seeds_ref, &mut flipped_q, 50, true, true, false, true, &mut other);
    assert_eq!(backward, forward);
    assert_eq!(backward.len(), 1);
    assert_eq!(backward[0].1, 494_000);
}

#[test]
fn genome_mode_returns_the_best_chain() {
    let seeds_ref = line(10);
    let mut seeds_q = line(10);
    let mut anchors: Vec<(u32, u32)> = (0..5).map(|i| (i, i + 5)).collect();
    anchors.extend((0..5).map(|i| (i + 5, i)));
    let chains = get_chains(&seeds_ref, &mut seeds_q, 50, true, false, false, true, &mut anchors);
    assert_eq!(chains, vec![((0..5).map(|i| (i + 5, i)).collect::<Vec<(u32, u32)>>(), 792_000)]);
}

#[test]
fn circular_genome_appends_the_chain_of_the_anchors_outside_the_first() {
    let seeds_ref = line(10);
    let mut seeds_q = line(10);
    let mut anchors: Vec<(u32, u32)> = (0..5).map(|i| (i, i + 5)).collect();
    anchors.extend((0..5).map(|i| (i + 5, i)));
    let chains = get_chains(&seeds_ref, &mut seeds_q, 50, true, false, true, true, &mut anchors);
    let mut expected: Vec<(u32, u32)> = (0..5).map(|i| (i + 5, i)).collect();
    expected.extend((0..5).map(|i| (i, i + 5)));
    assert_eq!(chains, vec![(expected, 1_484_000)]);
}

#[test]
fn circular_genome_without_anchors_outside_returns_the_first_chain() {
    let seeds_ref = line(10);
    let mut seeds_q = line(10);
    let mut anchors: Vec<(u32, u32)> = (0..5).map(|i| (i, i)).collect();
    let chains = get_chains(&seeds_ref, &mut seeds_q, 50, true, false, true, true, &mut anchors);
    assert_eq!(chains, vec![((0..5).map(|i| (i, i)).collect::<Vec<(u32, u32)>>(), 692_000)]);
}

#[test]
fn circular_genome_with_a_poor_second_round_returns_the_first_chain() {
    let seeds_ref = line(10);
    let mut seeds_q = line(10);
    let mut anchors: Vec<(u32, u32)> = (0..5).map(|i| (i + 5, i)).collect();
    anchors.push((0, 7));
    anchors.push((1, 8));
    let chains = get_chains(&seeds_ref, &mut seeds_q, 50, true, false, true, true, &mut anchors);
    assert_eq!(chains, vec![((0..5).map(|i| (i + 5, i)).collect::<Vec<(u32, u32)>>(), 792_000)]);
}

#[test]
fn chain_seeds_of_empty_arrays_gives_an_empty_chain_for_each_strand() {
    let seeds_ref: Vec<KmerNode> = vec![];
    let mut seeds_q: Vec<KmerNode> = vec![];
    let ref_map = get_kmer_dict(&seeds_ref);
    let q_map = get_kmer_dict(&seeds_q);
    let not_used: FxHashSet<u32> = FxHashSet::default();
    let chains = chain_seeds(&seeds_ref, &mut seeds_q, &ref_map, &q_map, 5, true, true, &not_used, false);
    assert_eq!(chains, vec![(vec![], 0, true), (vec![], 0, false)]);
    let chains = chain_seeds(&seeds_ref, &mut seeds_q, &ref_map, &q_map, 5, true, false, &not_used, false);
    assert_eq!(chains, vec![(vec![], 0, true), (vec![], 0, false)]);
}

#[test]
fn chain_seeds_in_genome_mode_chains_the_strand_of_the_kmers() {
    let seeds_ref = line(13);
    let mut seeds_q = line(13);
    let ref_map = get_kmer_dict(&seeds_ref);
    let q_map = get_kmer_dict(&seeds_q);
    let not_used: FxHashSet<u32> = FxHashSet::default();
    let chains = chain_seeds(&seeds_ref, &mut seeds_q, &ref_map, &q_map, 50, true, false, &not_used, false);
    assert_eq!(chains.len(), 1);
    assert_eq!(chains[0].0, (0..13).map(|i| (i, i)).collect::<Vec<(u32, u32)>>());
    assert_eq!(chains[0].1, 98_000 + 11 * 198_000);
    assert!(chains[0].2);
}

#[test]
fn chain_seeds_in_genome_mode_chains_the_backward_strand() {
    let seeds_ref = line(13);
    let mut seeds_q: Vec<KmerNode> = (0..13).map(|i| seed(i, i, 100 + 12 - i, false)).collect();
    let ref_map = get_kmer_dict(&seeds_ref);
    let q_map = get_kmer_dict(&seeds_q);
    let not_used: FxHashSet<u32> = FxHashSet::default();
    let chains = chain_seeds(&seeds_ref, &mut seeds_q, &ref_map, &q_map, 50, true, false, &not_used, false);
    assert_eq!(chains.len(), 1);
    assert_eq!(chains[0].0, (0..13).map(|i| (i, 12 - i)).collect::<Vec<(u32, u32)>>());
    assert_eq!(chains[0].1, 98_000 + 11 * 198_000);
    assert!(!chains[0].2);
    assert_eq!(orders(&seeds_q), (0..13).collect::<Vec<u32>>());
}

#[test]
fn chain_seeds_in_read_mode_chains_both_strands() {
    let seeds_ref = line(13);
    let mut seeds_q = line(13);
    let ref_map = get_kmer_dict(&seeds_ref);
    let q_map = get_kmer_dict(&seeds_q);
    let not_used: FxHashSet<u32> = FxHashSet::default();
    let chains = chain_seeds(&seeds_ref, &mut seeds_q, &ref_map, &q_map, 50, true, true, &not_used, false);
    assert_eq!(chains.len(), 2);
    assert_eq!(chains[0], ((0..13).map(|i| (i, i)).collect::<Vec<(u32, u32)>>(), 312_000, true));
    assert_eq!(chains[1], (vec![], 0, false));
}
