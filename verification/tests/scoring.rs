use color_chain::coarse::landmark_cutoff;
use color_chain::score::_alpha;
use color_chain::score::beta;
use color_chain::score::heuristic_score;
use color_chain::score::heuristic_super_score;
use color_chain::score::isqrt;
use color_chain::score::modulo_n;
use color_chain::score::score;
use color_chain::score::SCORE_UNIT;
use color_chain::seed::KmerNode;

fn seed(order: u32) -> KmerNode {
    KmerNode {
        order,
        id: 0,
        kmer: 0,
        canonical: true,
        color: 1,
        actual_ref_positions: vec![],
        child_nodes: vec![],
        child_edge_distance: vec![],
    }
}

#[test]
fn score_unit_is_a_thousandth() {
    assert_eq!(SCORE_UNIT, 1000);
}

#[test]
fn integer_square_root_rounds_down() {
    assert_eq!(isqrt(0), 0);
    assert_eq!(isqrt(1), 1);
    assert_eq!(isqrt(15), 3);
    assert_eq!(isqrt(16), 4);
    assert_eq!(isqrt(17), 4);
    assert_eq!(isqrt(8_000_000), 2828);
    assert_eq!(isqrt(u64::MAX), 4_294_967_295);
}

#[test]
fn windowed_gap_score_without_gap_is_thirty_points() {
    assert_eq!(heuristic_score(0, 0), 30_000);
}

#[test]
fn windowed_gap_score_of_square_reference_gap() {
    assert_eq!(heuristic_score(4, 3), 20_000);
    assert_eq!(heuristic_score(1, 1), 26_000);
    assert_eq!(heuristic_score(100, 20), -30_000);
}

#[test]
fn windowed_gap_score_rounds_the_root_to_the_unit() {
    assert_eq!(heuristic_score(2, 1), 25_172);
    assert_eq!(heuristic_score(3, 0), 26_536);
}

#[test]
fn windowed_gap_score_of_the_largest_gaps() {
    let root: i128 = 2000 * 65536 - 1;
    assert_eq!(heuristic_score(u32::MAX, u32::MAX), 30_000 - 2000 * (u32::MAX as i128) - root);
}

#[test]
fn coarse_gap_score_below_the_guess_costs_twice_the_gap() {
    assert_eq!(heuristic_super_score(150, 100, 1), 100_000);
    assert_eq!(heuristic_super_score(100, 150, 1), 100_000);
    assert_eq!(heuristic_super_score(100, 100, 7), 200_000);
}

#[test]
fn coarse_gap_score_from_the_guess_on_costs_five_times_the_gap() {
    assert_eq!(heuristic_super_score(300, 100, 1), -800_000);
    assert_eq!(heuristic_super_score(300, 50, 1), -1_050_000);
    assert_eq!(heuristic_super_score(300, 100, 2), -200_000);
}

#[test]
fn coarse_gap_score_takes_the_largest_distances() {
    assert_eq!(heuristic_super_score(usize::MAX, 0, 1), 1000 * (200 - 5 * (usize::MAX as i128)));
}

#[test]
fn modulo_n_counts_from_the_position() {
    assert_eq!(modulo_n(5, 10, 3), 2);
    assert_eq!(modulo_n(2, 10, 5), 7);
    assert_eq!(modulo_n(0, 10, 10), 0);
    assert_eq!(modulo_n(7, 10, 7), 0);
    assert_eq!(modulo_n(u32::MAX - 1, u32::MAX, u32::MAX), (u32::MAX - 1) as usize);
}

#[test]
fn landmark_cutoff_follows_the_density_formula() {
    assert_eq!(landmark_cutoff(0), 0);
    assert_eq!(landmark_cutoff(1), 0);
    assert_eq!(landmark_cutoff(15), 0);
    assert_eq!(landmark_cutoff(16), 1);
    assert_eq!(landmark_cutoff(100), 6);
    assert_eq!(landmark_cutoff(1000), 64);
}

#[test]
fn plain_score_of_two_gaps() {
    assert_eq!(score(10, 5), 175_000);
    assert_eq!(score(0, 0), 200_000);
    assert_eq!(score(300, 100), -400_000);
}

#[test]
fn beta_is_unbounded_beyond_a_million() {
    assert_eq!(beta(0, 200_000), Some(0));
    assert_eq!(beta(0, 200_001), None);
    assert_eq!(beta(10, 5), Some(0));
    assert_eq!(beta(7, 7), Some(0));
}

#[test]
fn alpha_is_the_smaller_overlap() {
    let a = seed(0);
    let b = seed(0);
    let c = seed(10);
    let d = seed(3);
    let e = seed(40);
    let anchors = vec![(&a, &b), (&c, &d), (&e, &d)];
    assert_eq!(_alpha(0, 1, &anchors), 6_000);
    assert_eq!(_alpha(0, 2, &anchors), 0);
    assert_eq!(_alpha(1, 0, &anchors), 19_000);
    assert_eq!(_alpha(1, 1, &anchors), 16_000);
}
