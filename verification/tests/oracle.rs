use color_chain::coarse::landmark_positions;
use color_chain::coarse::score_super_anchors;
use color_chain::extract::get_best_chains;
use color_chain::fine::score_anchors;
use color_chain::seed::KmerNode;
use fxhash::FxHashMap;

struct Dice(u64);

impl Dice {
    fn roll(&mut self, sides: u64) -> u64 {
        self.0 = self.0.wrapping_mul(6364136223846793005).wrapping_add(1442695040888963407);
        (self.0 >> 33) % sides
    }
}

fn seed(id: u32, order: u32, color: u128, positions: Vec<usize>) -> KmerNode {
    KmerNode {
        order,
        id,
        kmer: 0,
        canonical: true,
        color,
        actual_ref_positions: positions,
        child_nodes: vec![],
        child_edge_distance: vec![],
    }
}

fn scattered(dice: &mut Dice, n: u32, colors: u64) -> (Vec<KmerNode>, Vec<KmerNode>, Vec<(u32, u32)>) {
    let seeds_ref: Vec<KmerNode> = (0..n).map(|i| seed(i, i, 1 + dice.roll(colors) as u128, vec![])).collect();
    let seeds_q: Vec<KmerNode> = (0..n).map(|i| seed(i, i, 1, vec![])).collect();
    let mut anchors = Vec::new();
    for r in 0..n {
        for _ in 0..1 + dice.roll(2) {
            let shift = dice.roll(7) as i64 - 3;
            let q = (r as i64 + shift).clamp(0, n as i64 - 1) as u32;
            anchors.push((r, q));
        }
    }
    (seeds_ref, seeds_q, anchors)
}

fn windowed_in_floats(
    anchors: &Vec<(u32, u32)>,
    seeds_ref: &Vec<KmerNode>,
    seeds_q: &Vec<KmerNode>,
    h: usize,
) -> Vec<f64> {
    let mut f = vec![0.0f64];
    for i in 1..anchors.len() {
        let mut best = 0.0f64;
        let start = if i > h { i - h } else { 0 };
        for j in start..i {
            let rj = seeds_ref[anchors[j].0 as usize].order;
            let ri = seeds_ref[anchors[i].0 as usize].order;
            let qj = seeds_q[anchors[j].1 as usize].order;
            let qi = seeds_q[anchors[i].1 as usize].order;
            let shared = seeds_ref[anchors[j].0 as usize].color & seeds_ref[anchors[i].0 as usize].color;
            if rj >= ri || qj >= qi || shared == 0 {
                continue;
            }
            let cand = f[j] - 2.0 * f64::sqrt((ri - rj) as f64) + 30.0 - 2.0 * (qi - qj) as f64;
            if cand > best {
                best = cand;
            }
        }
        f.push(best);
    }
    f
}

fn exact_in_integers(
    anchors: &Vec<(u32, u32)>,
    seeds_ref: &Vec<KmerNode>,
    seeds_q: &Vec<KmerNode>,
    w: i128,
) -> Vec<i128> {
    let place = |k: usize| -> (i128, i128) {
        (seeds_ref[anchors[k].0 as usize].order as i128, seeds_q[anchors[k].1 as usize].order as i128)
    };
    let mut f = vec![0i128];
    let mut stored = vec![place(0).0 + place(0).1];
    for i in 1..anchors.len() {
        let (ri, qi) = place(i);
        let mut best = 0i128;
        for j in 0..i {
            if place(j).1 < qi {
                best = best.max(stored[j] - (ri + qi) + w);
            }
        }
        f.push(best);
        stored.push(best + w + ri + qi);
    }
    f
}

#[test]
fn windowed_scores_stay_within_a_unit_a_step_of_the_real_recurrence() {
    let mut dice = Dice(7);
    for round in 0..20 {
        let n = 30 + round;
        let (seeds_ref, seeds_q, anchors) = scattered(&mut dice, n, 3);
        let h = 1 + dice.roll(12) as usize;
        let mut f = vec![0];
        let mut pointers: Vec<usize> = (0..anchors.len()).collect();
        score_anchors(&mut f, &mut pointers, &anchors, true, true, h, &seeds_ref, &seeds_q, (0, 0));
        let real = windowed_in_floats(&anchors, &seeds_ref, &seeds_q, h);
        assert_eq!(f.len(), real.len());
        for i in 0..f.len() {
            let points = f[i] as f64 / 1000.0;
            assert!((points - real[i]).abs() <= 0.001 * (i as f64 + 1.0), "anchor {}: {} and {}", i, points, real[i]);
            assert!(points >= real[i] - 1e-9);
        }
    }
}

#[test]
fn windowed_pointers_name_compatible_anchors_of_the_window() {
    let mut dice = Dice(11);
    for round in 0..20 {
        let (seeds_ref, seeds_q, anchors) = scattered(&mut dice, 40 + round, 3);
        let h = 1 + dice.roll(12) as usize;
        let mut f = vec![0];
        let mut pointers: Vec<usize> = (0..anchors.len()).collect();
        score_anchors(&mut f, &mut pointers, &anchors, true, true, h, &seeds_ref, &seeds_q, (0, 0));
        for i in 0..anchors.len() {
            let j = pointers[i];
            assert_eq!(j == i, f[i] == 0);
            if j != i {
                assert!(j < i && i - j <= h);
                assert!(seeds_ref[anchors[j].0 as usize].order < seeds_ref[anchors[i].0 as usize].order);
                assert!(seeds_q[anchors[j].1 as usize].order < seeds_q[anchors[i].1 as usize].order);
                assert!(seeds_ref[anchors[j].0 as usize].color & seeds_ref[anchors[i].0 as usize].color != 0);
            }
        }
    }
}

#[test]
fn exact_scores_are_the_scores_of_the_recurrence() {
    let mut dice = Dice(23);
    for round in 0..20 {
        let (seeds_ref, seeds_q, anchors) = scattered(&mut dice, 30 + round, 3);
        for (chain_heuristic, chain_reads, w) in [(true, false, 100), (false, false, 100), (false, true, 10)] {
            let mut f = vec![0];
            let mut pointers: Vec<usize> = (0..anchors.len()).collect();
            score_anchors(&mut f, &mut pointers, &anchors, chain_heuristic, chain_reads, 3, &seeds_ref, &seeds_q, (0, 0));
            let real = exact_in_integers(&anchors, &seeds_ref, &seeds_q, w);
            let scaled: Vec<i128> = real.iter().map(|x| 1000 * x).collect();
            assert_eq!(f, scaled);
            for i in 0..anchors.len() {
                let j = pointers[i];
                assert_eq!(j == i, f[i] == 0);
                if j != i {
                    assert!(j < i);
                    assert!(seeds_q[anchors[j].1 as usize].order < seeds_q[anchors[i].1 as usize].order);
                }
            }
        }
    }
}

#[test]
fn emitted_chains_keep_the_thresholds_and_do_not_overlap() {
    let mut dice = Dice(31);
    let mut emitted = 0;
    for round in 0..30 {
        let (seeds_ref, seeds_q, anchors) = scattered(&mut dice, 60 + round, 2);
        let mut f = vec![0];
        let mut pointers: Vec<usize> = (0..anchors.len()).collect();
        score_anchors(&mut f, &mut pointers, &anchors, true, true, 20, &seeds_ref, &seeds_q, (0, 0));
        let best = *f.iter().max().unwrap();
        let chains = get_best_chains(f.clone(), pointers.clone(), &anchors, &seeds_ref, &seeds_q, true);
        assert_eq!(chains.is_empty(), best < 300_000);
        for (k, chain) in chains.iter().enumerate() {
            emitted += 1;
            assert!(10 * chain.3 >= 9 * best);
            assert!(chain.3 >= 270_000);
            assert_eq!(k == 0, chain.3 == best && k == 0);
            assert!(chain.1 .0 <= chain.1 .1);
            for pair in chain.0.windows(2) {
                let (a, b) = (pair[0], pair[1]);
                assert!(seeds_ref[a.0 as usize].order < seeds_ref[b.0 as usize].order);
                assert!(seeds_q[a.1 as usize].order < seeds_q[b.1 as usize].order);
                assert!(seeds_ref[a.0 as usize].color & seeds_ref[b.0 as usize].color != 0);
            }
            for other in chains.iter().take(k) {
                assert!(other.1 .1 < chain.1 .0 || chain.1 .1 < other.1 .0);
            }
        }
    }
    assert!(emitted > 0);
}

#[test]
fn coarse_scores_are_the_scores_of_the_recurrence() {
    let mut dice = Dice(41);
    for round in 0..20 {
        let n = 20 + round as u32;
        let seeds_ref: Vec<KmerNode> = (0..n)
            .map(|i| {
                let color = 1 + dice.roll(3) as u128;
                let positions = (0..2).map(|_| (100 * i as usize) + dice.roll(40) as usize).collect();
                seed(i, i, color, positions)
            })
            .collect();
        let seeds_q: Vec<KmerNode> =
            (0..n).map(|i| seed(i, i, 1, vec![(100 * i as usize) + dice.roll(300) as usize])).collect();
        let anchors: Vec<(u32, u32)> = (0..n).map(|i| (i, i)).collect();
        let mut col_list: FxHashMap<u32, Vec<(usize, usize)>> = FxHashMap::default();
        for node in seeds_ref.iter() {
            col_list.insert(node.id, landmark_positions(node));
        }
        let h = 1 + dice.roll(6) as usize;
        let samp_freq = 1 + dice.roll(2) as usize;
        let scored = score_super_anchors(&anchors, &seeds_ref, &seeds_q, &col_list, h, true, samp_freq, 100_000);
        let mut f = vec![0i128];
        for i in 1..n as usize {
            let mut best = 0i128;
            let start = if i > h { i - h } else { 0 };
            for j in start..i {
                let (a, b) = (&seeds_ref[j], &seeds_ref[i]);
                let (qa, qb) = (seeds_q[j].actual_ref_positions[0], seeds_q[i].actual_ref_positions[0]);
                if a.color & b.color == 0 || qa >= qb {
                    continue;
                }
                let mut dist: Option<i128> = None;
                for (ca, pa) in landmark_positions(a) {
                    for (cb, pb) in landmark_positions(b) {
                        if ca == cb {
                            let d = (pa as i128 - pb as i128).abs();
                            dist = Some(dist.map_or(d, |x| x.min(d)));
                        }
                    }
                }
                if let Some(d) = dist {
                    let gap = (d - (qb - qa) as i128).abs();
                    let cost = if gap < 200 * samp_freq as i128 { 2 * gap } else { 5 * gap };
                    best = best.max(f[j] + 1000 * (200 - cost));
                }
            }
            f.push(best);
        }
        assert_eq!(scored.0, f);
    }
}

fn independent_extraction(
    f: &Vec<i128>,
    pointers: &Vec<usize>,
    anchors: &Vec<(u32, u32)>,
    seeds_ref: &Vec<KmerNode>,
    seeds_q: &Vec<KmerNode>,
    chain_reads: bool,
) -> Vec<(Vec<(u32, u32)>, (u32, u32), (u32, u32), i128)> {
    let mut ranked: Vec<(usize, f64)> = f.iter().enumerate().map(|(i, s)| (i, *s as f64 / 1000.0)).collect();
    ranked.sort_by(|a, b| b.1.partial_cmp(&a.1).unwrap());
    let mut out: Vec<(Vec<(u32, u32)>, (u32, u32), (u32, u32), i128)> = vec![];
    let mut used = std::collections::HashSet::new();
    let best = ranked[0].1;
    if best < 300.0 {
        return out;
    }
    for (rank, (start, points)) in ranked.iter().enumerate() {
        if rank > 0 && !chain_reads {
            break;
        }
        if used.contains(start) {
            continue;
        }
        if 10.0 * *points < 9.0 * best {
            break;
        }
        let mut indices = vec![*start];
        let mut at = *start;
        while pointers[at] != at {
            at = pointers[at];
            indices.push(at);
        }
        indices.reverse();
        let first = anchors[indices[0]];
        let last = anchors[*start];
        let range_ref = (seeds_ref[first.0 as usize].order, seeds_ref[last.0 as usize].order);
        let range_query = (seeds_q[first.1 as usize].order, seeds_q[last.1 as usize].order);
        let secondary = out.iter().any(|c| {
            (range_ref.0 >= c.1 .0 && range_ref.0 <= c.1 .1) || (c.1 .0 >= range_ref.0 && c.1 .0 <= range_ref.1)
        });
        if secondary {
            continue;
        }
        used.extend(indices.iter().cloned());
        out.push((indices.iter().map(|i| anchors[*i]).collect(), range_ref, range_query, f[*start]));
    }
    out
}

#[test]
fn extraction_agrees_with_the_rules_on_random_scores() {
    let mut dice = Dice(53);
    let mut emitted = 0;
    for round in 0..300 {
        let n = 1 + (round % 25) as usize;
        let seeds_ref: Vec<KmerNode> = (0..n as u32).map(|i| seed(i, dice.roll(40) as u32, 1, vec![])).collect();
        let seeds_q: Vec<KmerNode> = (0..n as u32).map(|i| seed(i, dice.roll(40) as u32, 1, vec![])).collect();
        let mut anchors: Vec<(u32, u32)> = (0..n as u32).map(|i| (i, dice.roll(n as u64) as u32)).collect();
        if round % 2 == 0 {
            anchors.sort_by_key(|a| seeds_ref[a.0 as usize].order);
        }
        let f: Vec<i128> = (0..n).map(|_| 1000 * (250 + dice.roll(14) * 10) as i128).collect();
        let pointers: Vec<usize> =
            (0..n).map(|i| if dice.roll(3) == 0 { i } else { dice.roll(i as u64 + 1) as usize }).collect();
        for chain_reads in [true, false] {
            let found = get_best_chains(f.clone(), pointers.clone(), &anchors, &seeds_ref, &seeds_q, chain_reads);
            let expected = independent_extraction(&f, &pointers, &anchors, &seeds_ref, &seeds_q, chain_reads);
            assert_eq!(found, expected);
            emitted += found.len();
        }
    }
    assert!(emitted > 100);
}
