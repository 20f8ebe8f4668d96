use color_chain::extract::extract_chains;
use color_chain::extract::get_best_chains;
use color_chain::fine::score_anchors;
use color_chain::rank::position_max;
use color_chain::rank::position_max_nth;
use color_chain::rank::rank_compare;
use color_chain::rank::rank_scores;
use color_chain::rmq::SearchTree;
use color_chain::seed::KmerNode;
use std::cmp::Ordering;

fn seed(id: u32, order: u32, color: u128) -> KmerNode {
    KmerNode {
        order,
        id,
        kmer: id,
        canonical: true,
        color,
        actual_ref_positions: vec![],
        child_nodes: vec![],
        child_edge_distance: vec![],
    }
}

fn line(n: u32, color: u128) -> Vec<KmerNode> {
    (0..n).map(|i| seed(i, i, color)).collect()
}

fn identity(n: usize) -> Vec<usize> {
    (0..n).collect()
}

#[test]
fn windowed_chainer_on_a_line_of_five_nodes() {
    let seeds_ref = line(5, 0b1);
    let seeds_q = line(3, 0b1);
    let anchors = vec![(0, 0), (2, 1), (4, 2)];
    let mut f = vec![0];
    let mut pointers = identity(3);
    score_anchors(&mut f, &mut pointers, &anchors, true, true, 5, &seeds_ref, &seeds_q, (0, 0));
    assert_eq!(f, vec![0, 25_172, 50_344]);
    assert_eq!(pointers, vec![0, 0, 1]);
    assert!(f[0] < f[1] && f[1] < f[2]);
}

#[test]
fn windowed_chainer_looks_back_over_the_window_only() {
    let seeds_ref = line(4, 0b1);
    let seeds_q = line(4, 0b1);
    let anchors = vec![(0, 0), (1, 3), (2, 2), (3, 3)];
    let mut f = vec![0];
    let mut pointers = identity(4);
    score_anchors(&mut f, &mut pointers, &anchors, true, true, 1, &seeds_ref, &seeds_q, (0, 0));
    assert_eq!(f, vec![0, 22_000, 0, 26_000]);
    assert_eq!(pointers, vec![0, 0, 2, 2]);
    let mut f = vec![0];
    let mut pointers = identity(4);
    score_anchors(&mut f, &mut pointers, &anchors, true, true, 3, &seeds_ref, &seeds_q, (0, 0));
    assert_eq!(f, vec![0, 22_000, 23_172, 49_172]);
    assert_eq!(pointers, vec![0, 0, 0, 2]);
}

#[test]
fn windowed_chainer_takes_the_first_of_two_equal_predecessors() {
    let mut seeds_ref = line(3, 0b1);
    seeds_ref[0].order = 0;
    seeds_ref[1].order = 0;
    seeds_ref[2].order = 1;
    let mut seeds_q = line(3, 0b1);
    seeds_q[0].order = 0;
    seeds_q[1].order = 0;
    seeds_q[2].order = 1;
    let anchors = vec![(0, 0), (1, 1), (2, 2)];
    let mut f = vec![0];
    let mut pointers = identity(3);
    score_anchors(&mut f, &mut pointers, &anchors, true, true, 5, &seeds_ref, &seeds_q, (0, 0));
    assert_eq!(f, vec![0, 0, 26_000]);
    assert_eq!(pointers, vec![0, 1, 0]);
}

#[test]
fn windowed_chainer_starts_a_chain_where_the_score_is_not_positive() {
    let mut seeds_ref = line(2, 0b1);
    seeds_ref[1].order = 100;
    let mut seeds_q = line(2, 0b1);
    seeds_q[1].order = 20;
    let anchors = vec![(0, 0), (1, 1)];
    let mut f = vec![0];
    let mut pointers = identity(2);
    score_anchors(&mut f, &mut pointers, &anchors, true, true, 5, &seeds_ref, &seeds_q, (0, 0));
    assert_eq!(f, vec![0, 0]);
    assert_eq!(pointers, vec![0, 1]);
}

#[test]
fn windowed_chainer_does_nothing_without_anchors() {
    let seeds_ref = line(2, 0b1);
    let seeds_q = line(2, 0b1);
    let anchors = vec![];
    let mut f = vec![0];
    let mut pointers = vec![];
    score_anchors(&mut f, &mut pointers, &anchors, true, true, 5, &seeds_ref, &seeds_q, (0, 0));
    assert_eq!(f, vec![0]);
    assert_eq!(pointers, Vec::<usize>::new());
}

#[test]
fn windowed_chainer_never_chains_across_a_color_break() {
    let mut seeds_ref = line(26, 0b01);
    for i in 13..26 {
        seeds_ref[i].color = 0b10;
    }
    let seeds_q = line(26, 0b1);
    let anchors: Vec<(u32, u32)> = (0..26).map(|i| (i, i)).collect();
    let mut f = vec![0];
    let mut pointers = identity(26);
    score_anchors(&mut f, &mut pointers, &anchors, true, true, 50, &seeds_ref, &seeds_q, (0, 0));
    assert_eq!(f[12], 312_000);
    assert_eq!(f[13], 0);
    assert_eq!(pointers[13], 13);
    assert_eq!(f[25], 312_000);
    for i in 1..26 {
        let j = pointers[i];
        if j != i {
            assert!(seeds_ref[anchors[j].0 as usize].color & seeds_ref[anchors[i].0 as usize].color != 0);
            assert!(seeds_ref[anchors[j].0 as usize].order < seeds_ref[anchors[i].0 as usize].order);
            assert!(seeds_q[anchors[j].1 as usize].order < seeds_q[anchors[i].1 as usize].order);
        }
    }
    let chains = get_best_chains(f, pointers, &anchors, &seeds_ref, &seeds_q, true);
    assert_eq!(chains.len(), 2);
    assert_eq!(chains[0].0, (0..13).map(|i| (i, i)).collect::<Vec<(u32, u32)>>());
    assert_eq!(chains[0].1, (0, 12));
    assert_eq!(chains[0].2, (0, 12));
    assert_eq!(chains[0].3, 312_000);
    assert_eq!(chains[1].0, (13..26).map(|i| (i, i)).collect::<Vec<(u32, u32)>>());
    assert_eq!(chains[1].1, (13, 25));
    assert_eq!(chains[1].3, 312_000);
}

#[test]
fn exact_chainer_on_a_line() {
    let seeds_ref = line(4, 0b1);
    let seeds_q = line(4, 0b1);
    let anchors = vec![(0, 0), (1, 1), (2, 2), (3, 3)];
    let mut f = vec![0];
    let mut pointers = identity(4);
    score_anchors(&mut f, &mut pointers, &anchors, true, false, 5, &seeds_ref, &seeds_q, (0, 0));
    assert_eq!(f, vec![0, 98_000, 296_000, 494_000]);
    assert_eq!(pointers, vec![0, 0, 1, 2]);
}

#[test]
fn exact_chainer_in_read_mode_has_the_smaller_bonus() {
    let seeds_ref = line(3, 0b1);
    let seeds_q = line(3, 0b1);
    let anchors = vec![(0, 0), (1, 1), (2, 2)];
    let mut f = vec![0];
    let mut pointers = identity(3);
    score_anchors(&mut f, &mut pointers, &anchors, false, true, 5, &seeds_ref, &seeds_q, (0, 0));
    assert_eq!(f, vec![0, 8_000, 26_000]);
    assert_eq!(pointers, vec![0, 0, 1]);
}

#[test]
fn exact_chainer_asks_for_a_smaller_query_order_only() {
    let mut seeds_ref = line(3, 0b01);
    seeds_ref[1].color = 0b10;
    let mut seeds_q = line(3, 0b1);
    seeds_q[0].order = 1;
    seeds_q[1].order = 0;
    seeds_q[2].order = 2;
    let anchors = vec![(0, 0), (1, 1), (2, 2)];
    let mut f = vec![0];
    let mut pointers = identity(3);
    score_anchors(&mut f, &mut pointers, &anchors, true, false, 5, &seeds_ref, &seeds_q, (0, 0));
    assert_eq!(f, vec![0, 0, 197_000]);
    assert_eq!(pointers, vec![0, 1, 1]);
}

#[test]
fn exact_chainer_counts_the_orders_from_the_modulo_position() {
    let seeds_ref = line(10, 0b1);
    let seeds_q = line(10, 0b1);
    let anchors = vec![(8, 8), (9, 9), (0, 0), (1, 1)];
    let mut f = vec![0];
    let mut pointers = identity(4);
    score_anchors(&mut f, &mut pointers, &anchors, true, false, 5, &seeds_ref, &seeds_q, (8, 8));
    assert_eq!(f, vec![0, 98_000, 296_000, 494_000]);
    assert_eq!(pointers, vec![0, 0, 1, 2]);
}

#[test]
fn ranking_puts_the_best_first_and_the_lower_index_before_its_equal() {
    assert_eq!(rank_scores(&vec![5, 9, 5, 12, 9]), vec![(12, 3), (9, 1), (9, 4), (5, 0), (5, 2)]);
    assert_eq!(rank_scores(&vec![]), Vec::<(i128, usize)>::new());
    assert_eq!(rank_scores(&vec![-3, 0]), vec![(0, 1), (-3, 0)]);
}

#[test]
fn rank_compare_orders_by_score_and_then_by_index() {
    assert_eq!(rank_compare(&(5, 0), &(4, 1)), Ordering::Less);
    assert_eq!(rank_compare(&(4, 0), &(5, 1)), Ordering::Greater);
    assert_eq!(rank_compare(&(5, 0), &(5, 1)), Ordering::Less);
    assert_eq!(rank_compare(&(5, 1), &(5, 0)), Ordering::Greater);
    assert_eq!(rank_compare(&(5, 1), &(5, 1)), Ordering::Equal);
}

#[test]
fn no_chain_where_the_best_score_is_below_the_cutoff() {
    let seeds_ref = line(3, 0b1);
    let seeds_q = line(3, 0b1);
    let anchors = vec![(0, 0), (1, 1), (2, 2)];
    let chains = get_best_chains(vec![0, 150_000, 299_999], vec![0, 0, 1], &anchors, &seeds_ref, &seeds_q, true);
    assert_eq!(chains.len(), 0);
    let chains = get_best_chains(vec![0], vec![], &vec![], &seeds_ref, &seeds_q, true);
    assert_eq!(chains.len(), 0);
    let chains = get_best_chains(vec![], vec![], &vec![], &seeds_ref, &seeds_q, true);
    assert_eq!(chains.len(), 0);
}

#[test]
fn a_chain_where_the_best_score_is_the_cutoff() {
    let seeds_ref = line(3, 0b1);
    let seeds_q = line(3, 0b1);
    let anchors = vec![(0, 0), (1, 1), (2, 2)];
    let chains = get_best_chains(vec![0, 150_000, 300_000], vec![0, 0, 1], &anchors, &seeds_ref, &seeds_q, true);
    assert_eq!(chains.len(), 1);
    assert_eq!(chains[0].0, vec![(0, 0), (1, 1), (2, 2)]);
    assert_eq!(chains[0].1, (0, 2));
    assert_eq!(chains[0].2, (0, 2));
    assert_eq!(chains[0].3, 300_000);
}

#[test]
fn chains_stop_below_nine_tenths_of_the_best() {
    let mut seeds_ref = line(4, 0b1);
    seeds_ref[2].order = 10;
    seeds_ref[3].order = 11;
    let seeds_q = line(4, 0b1);
    let anchors = vec![(0, 0), (1, 1), (2, 2), (3, 3)];
    let chains = get_best_chains(
        vec![0, 400_000, 0, 359_999],
        vec![0, 0, 2, 2],
        &anchors,
        &seeds_ref,
        &seeds_q,
        true,
    );
    assert_eq!(chains.len(), 1);
    assert_eq!(chains[0].0, vec![(0, 0), (1, 1)]);
    let chains = get_best_chains(
        vec![0, 400_000, 0, 360_000],
        vec![0, 0, 2, 2],
        &anchors,
        &seeds_ref,
        &seeds_q,
        true,
    );
    assert_eq!(chains.len(), 2);
    assert_eq!(chains[1].0, vec![(2, 2), (3, 3)]);
    assert_eq!(chains[1].1, (10, 11));
    assert_eq!(chains[1].2, (2, 3));
    assert_eq!(chains[1].3, 360_000);
}

#[test]
fn a_chain_may_score_below_the_cutoff_where_it_is_within_nine_tenths_of_the_best() {
    let mut seeds_ref = line(4, 0b1);
    seeds_ref[2].order = 10;
    seeds_ref[3].order = 11;
    let seeds_q = line(4, 0b1);
    let anchors = vec![(0, 0), (1, 1), (2, 2), (3, 3)];
    let chains = get_best_chains(
        vec![0, 305_000, 0, 280_000],
        vec![0, 0, 2, 2],
        &anchors,
        &seeds_ref,
        &seeds_q,
        true,
    );
    assert_eq!(chains.len(), 2);
    assert_eq!(chains[1].3, 280_000);
}

#[test]
fn genome_mode_emits_the_best_chain_only() {
    let mut seeds_ref = line(4, 0b1);
    seeds_ref[2].order = 10;
    seeds_ref[3].order = 11;
    let seeds_q = line(4, 0b1);
    let anchors = vec![(0, 0), (1, 1), (2, 2), (3, 3)];
    let chains = get_best_chains(
        vec![0, 400_000, 0, 400_000],
        vec![0, 0, 2, 2],
        &anchors,
        &seeds_ref,
        &seeds_q,
        false,
    );
    assert_eq!(chains.len(), 1);
    assert_eq!(chains[0].0, vec![(0, 0), (1, 1)]);
}

#[test]
fn a_chain_that_overlaps_an_emitted_one_is_suppressed() {
    let mut seeds_ref = line(4, 0b1);
    seeds_ref[0].order = 0;
    seeds_ref[1].order = 10;
    seeds_ref[2].order = 5;
    seeds_ref[3].order = 20;
    let seeds_q = line(4, 0b1);
    let anchors = vec![(0, 0), (1, 1), (2, 2), (3, 3)];
    let chains = get_best_chains(
        vec![0, 400_000, 0, 390_000],
        vec![0, 0, 2, 2],
        &anchors,
        &seeds_ref,
        &seeds_q,
        true,
    );
    assert_eq!(chains.len(), 1);
    assert_eq!(chains[0].1, (0, 10));
    seeds_ref[2].order = 11;
    let chains = get_best_chains(
        vec![0, 400_000, 0, 390_000],
        vec![0, 0, 2, 2],
        &anchors,
        &seeds_ref,
        &seeds_q,
        true,
    );
    assert_eq!(chains.len(), 2);
    assert_eq!(chains[1].1, (11, 20));
    assert!(chains[0].1 .1 < chains[1].1 .0 || chains[1].1 .1 < chains[0].1 .0);
}

#[test]
fn a_chain_that_holds_an_emitted_range_is_suppressed() {
    let mut seeds_ref = line(4, 0b1);
    seeds_ref[0].order = 5;
    seeds_ref[1].order = 6;
    seeds_ref[2].order = 0;
    seeds_ref[3].order = 20;
    let seeds_q = line(4, 0b1);
    let anchors = vec![(0, 0), (1, 1), (2, 2), (3, 3)];
    let chains = get_best_chains(
        vec![0, 400_000, 0, 390_000],
        vec![0, 0, 2, 2],
        &anchors,
        &seeds_ref,
        &seeds_q,
        true,
    );
    assert_eq!(chains.len(), 1);
    assert_eq!(chains[0].1, (5, 6));
}

#[test]
fn an_anchor_of_an_emitted_chain_starts_no_chain() {
    let seeds_ref = line(3, 0b1);
    let seeds_q = line(3, 0b1);
    let anchors = vec![(0, 0), (1, 1), (2, 2)];
    let chains = get_best_chains(vec![0, 390_000, 400_000], vec![0, 0, 1], &anchors, &seeds_ref, &seeds_q, true);
    assert_eq!(chains.len(), 1);
    assert_eq!(chains[0].0, vec![(0, 0), (1, 1), (2, 2)]);
    assert_eq!(chains[0].3, 400_000);
}

#[test]
fn extraction_follows_the_given_ranking() {
    let mut seeds_ref = line(4, 0b1);
    seeds_ref[2].order = 10;
    seeds_ref[3].order = 11;
    let seeds_q = line(4, 0b1);
    let anchors = vec![(0, 0), (1, 1), (2, 2), (3, 3)];
    let f = vec![0, 400_000, 0, 400_000];
    let order = rank_scores(&f);
    assert_eq!(order, vec![(400_000, 1), (400_000, 3), (0, 0), (0, 2)]);
    let chains = extract_chains(&order, &f, &vec![0, 0, 2, 2], &anchors, &seeds_ref, &seeds_q, true);
    assert_eq!(chains.len(), 2);
    assert_eq!(chains[0].0, vec![(0, 0), (1, 1)]);
    assert_eq!(chains[1].0, vec![(2, 2), (3, 3)]);
}

#[test]
fn search_tree_answers_with_the_first_largest_value_of_the_rectangle() {
    let mut tree = SearchTree::new();
    assert_eq!(tree.mrq((0, 0), (10, 10)), None);
    tree.insert((1, 0));
    tree.insert((2, 1));
    tree.insert((3, 2));
    assert_eq!(tree.mrq((0, 0), (10, 10)), None);
    tree.update_query_info((1, 0), 7, 100);
    tree.update_query_info((2, 1), 9, 101);
    tree.update_query_info((3, 2), 9, 102);
    assert_eq!(tree.mrq((0, 0), (10, 10)), Some((9, 101)));
    assert_eq!(tree.mrq((0, 0), (2, 10)), Some((7, 100)));
    assert_eq!(tree.mrq((3, 0), (4, 3)), Some((9, 102)));
    assert_eq!(tree.mrq((0, 0), (4, 2)), Some((9, 101)));
    assert_eq!(tree.mrq((0, 1), (2, 10)), None);
    assert_eq!(tree.mrq((4, 0), (10, 10)), None);
}

#[test]
fn search_tree_update_replaces_a_value_and_adds_a_missing_key() {
    let mut tree = SearchTree::new();
    tree.update_query_info((5, 5), 1, 0);
    assert_eq!(tree.mrq((0, 0), (6, 6)), Some((1, 0)));
    tree.update_query_info((5, 5), -4, 3);
    assert_eq!(tree.mrq((0, 0), (6, 6)), Some((-4, 3)));
    tree.insert((5, 5));
    assert_eq!(tree.mrq((0, 0), (6, 6)), Some((-4, 3)));
}

#[test]
fn position_of_the_largest_score_is_the_last_of_several() {
    assert_eq!(position_max(&vec![]), None);
    assert_eq!(position_max(&vec![4]), Some(0));
    assert_eq!(position_max(&vec![4, 9, 2, 9, 1]), Some(3));
    assert_eq!(position_max(&vec![-4, -9]), Some(0));
}

#[test]
fn position_of_the_score_at_a_rank() {
    let scores = vec![5, 9, 5, 12, 9];
    assert_eq!(position_max_nth(&scores, 0), 3);
    assert_eq!(position_max_nth(&scores, 1), 1);
    assert_eq!(position_max_nth(&scores, 2), 4);
    assert_eq!(position_max_nth(&scores, 3), 0);
    assert_eq!(position_max_nth(&scores, 4), 2);
}
