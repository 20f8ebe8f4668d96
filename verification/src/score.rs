//! Scores and the gap functions of the chainers.
//!
//! A score is a fixed-point number: the integer `s` stands for `s / 1000`
//! points. Every gap function but [`heuristic_score`] is exact in that unit;
//! [`heuristic_score`] holds a square root, which is rounded to the unit.

use crate::seed::KmerNode;
use vstd::prelude::*;

verus! {

/// A score, in thousandths of a point.
pub type Score = i128;

/// The number of score units in one point.
pub const SCORE_UNIT: i128 = 1000;

/// The largest `k` with `k * k <= n`.
pub open spec fn floor_sqrt(n: nat) -> nat
    decreases n,
{
    if n == 0 {
        0
    } else {
        let s = floor_sqrt((n - 1) as nat);
        if (s + 1) * (s + 1) <= n {
            s + 1
        } else {
            s
        }
    }
}

/// `floor_sqrt(n)` squared is at most `n`, and the next square is above `n`.
pub proof fn lemma_floor_sqrt_bounds(n: nat)
    ensures
        floor_sqrt(n) * floor_sqrt(n) <= n < (floor_sqrt(n) + 1) * (floor_sqrt(n) + 1),
    decreases n,
{
    if n == 0 {
        assert(0 * 0 <= n < (0 + 1) * (0 + 1)) by (nonlinear_arith)
            requires
                n == 0,
        ;
    }
    if n > 0 {
        lemma_floor_sqrt_bounds((n - 1) as nat);
        let s = floor_sqrt((n - 1) as nat);
        let r = floor_sqrt(n);
        assert(r == if (s + 1) * (s + 1) <= n { s + 1 } else { s });
        if (s + 1) * (s + 1) <= n {
            assert(r * r <= n < (r + 1) * (r + 1)) by (nonlinear_arith)
                requires
                    r == s + 1,
                    (s + 1) * (s + 1) <= n,
                    n - 1 < (s + 1) * (s + 1),
            ;
        } else {
            assert(r * r <= n < (r + 1) * (r + 1)) by (nonlinear_arith)
                requires
                    r == s,
                    s * s <= n - 1,
                    n < (s + 1) * (s + 1),
            ;
        }
    }
}

/// Only `floor_sqrt(n)` lies between the two squares.
pub proof fn lemma_floor_sqrt_unique(n: nat, k: nat)
    requires
        k * k <= n < (k + 1) * (k + 1),
    ensures
        k == floor_sqrt(n),
{
    lemma_floor_sqrt_bounds(n);
    let s = floor_sqrt(n);
    if k < s {
        assert((k + 1) * (k + 1) <= s * s) by (nonlinear_arith)
            requires
                k + 1 <= s,
        ;
    } else if s < k {
        assert((s + 1) * (s + 1) <= k * k) by (nonlinear_arith)
            requires
                s + 1 <= k,
        ;
    }
}

/// The integer square root, rounded down.
pub fn isqrt(n: u64) -> (root: u64)
    ensures
        root == floor_sqrt(n as nat),
{
    let mut lo: u64 = 0;
    let mut hi: u64 = 0x1_0000_0000;
    assert(0x1_0000_0000int * 0x1_0000_0000int > n) by (nonlinear_arith)
        requires
            n <= u64::MAX,
    ;
    while hi - lo > 1
        invariant
            lo < hi <= 0x1_0000_0000,
            lo * lo <= n < hi * hi,
        decreases hi - lo,
    {
        let mid: u64 = lo + (hi - lo) / 2;
        assert(mid * mid <= 0xffff_ffff * 0xffff_ffff) by (nonlinear_arith)
            requires
                mid <= 0xffff_ffff,
        ;
        if mid * mid <= n {
            lo = mid;
        } else {
            hi = mid;
        }
    }
    proof {
        lemma_floor_sqrt_unique(n as nat, lo as nat);
    }
    lo
}

/// The score of the gap between two anchors of the windowed chainer:
/// `30 - 2 * query_gap - 2 * sqrt(ref_gap)` points, the square-root term
/// rounded down to the score unit.
pub open spec fn gap_score(ref_gap: nat, query_gap: nat) -> int {
    30_000 - 2_000 * query_gap - floor_sqrt(4_000_000 * ref_gap)
}

/// The gap score of the windowed chainer.
pub fn heuristic_score(ref_order_dist: u32, query_order_dist: u32) -> (score: Score)
    ensures
        score == gap_score(ref_order_dist as nat, query_order_dist as nat),
{
    let root: u64 = isqrt(4_000_000u64 * (ref_order_dist as u64));
    30_000i128 - 2_000i128 * (query_order_dist as i128) - (root as i128)
}

/// A gap score is at most thirty points.
pub proof fn lemma_gap_score_bound(ref_gap: nat, query_gap: nat)
    ensures
        gap_score(ref_gap, query_gap) <= 30_000,
        ref_gap <= u32::MAX && query_gap <= u32::MAX ==> gap_score(ref_gap, query_gap) >= -0x8000_0000_0000i128,
{
    if ref_gap <= u32::MAX && query_gap <= u32::MAX {
        let n = 4_000_000 * ref_gap;
        lemma_floor_sqrt_bounds(n);
        let s = floor_sqrt(n);
        if s > 0x1_0000_0000 {
            assert(s * s > 0x1_0000_0000 * 0x1_0000_0000) by (nonlinear_arith)
                requires
                    s > 0x1_0000_0000,
            ;
        }
    }
}

/// The score of the gap between two landmarks of the coarse chainer: with
/// `gap` the absolute difference of the two distances, 200 points less twice
/// `gap` where `gap` is below `200 * samp_freq`, and less five times `gap`
/// otherwise.
pub open spec fn super_gap_score(ref_gap: nat, query_gap: nat, samp_freq: nat) -> int {
    let gap = if ref_gap >= query_gap {
        ref_gap - query_gap
    } else {
        query_gap - ref_gap
    };
    let cost = if gap < samp_freq * 200 {
        2 * gap
    } else {
        5 * gap
    };
    1000 * (200 - cost)
}

/// The gap score of the coarse chainer.
pub fn heuristic_super_score(ref_order_dist: usize, query_order_dist: usize, samp_freq: usize) -> (score: Score)
    ensures
        score == super_gap_score(ref_order_dist as nat, query_order_dist as nat, samp_freq as nat),
{
    let gap: i128 = if ref_order_dist >= query_order_dist {
        (ref_order_dist - query_order_dist) as i128
    } else {
        (query_order_dist - ref_order_dist) as i128
    };
    let gap_cost: i128 = if gap < (samp_freq as i128) * 200 {
        gap * 2
    } else {
        gap * 5
    };
    1000i128 * (200 - gap_cost)
}

/// A position on a circle of `n` places, counted from `modulo_position`.
pub open spec fn modulo_n_spec(value: int, n: int, modulo_position: int) -> int {
    if value >= modulo_position {
        value - modulo_position
    } else {
        value + n - modulo_position
    }
}

/// `value` counted from `modulo_position` on a circle of `n` places.
pub fn modulo_n(value: u32, n: u32, modulo_position: u32) -> (shifted: usize)
    requires
        modulo_position <= value + n,
    ensures
        shifted == modulo_n_spec(value as int, n as int, modulo_position as int),
{
    if value >= modulo_position {
        (value - modulo_position) as usize
    } else {
        ((value as u64) + (n as u64) - (modulo_position as u64)) as usize
    }
}


/// A plain gap score: 100 points less the reference gap, and 100 points
/// less three times the query gap.
pub open spec fn plain_score(ref_gap: nat, query_gap: nat) -> int {
    1000 * (100 - ref_gap) + 1000 * (100 - 3 * query_gap)
}

/// The plain gap score.
pub fn score(ref_order_dist: usize, query_order_dist: usize) -> (score: Score)
    ensures
        score == plain_score(ref_order_dist as nat, query_order_dist as nat),
{
    let dist_ref: i128 = 1000 * (100 - ref_order_dist as i128);
    let dist_query: i128 = 1000 * (100 - 3 * (query_order_dist as i128));
    dist_ref + dist_query
}

/// The number of bases, in score units, that two seeds of sixteen bases
/// share in the reference and in the query, whichever is less, where the
/// second seed lies `first_gap` behind the first in the one and
/// `second_gap` in the other.
pub open spec fn shared_bases(first_gap: int, second_gap: int) -> int {
    let first = if 16 - first_gap > 0 {
        16 - first_gap
    } else {
        0
    };
    let second = if 16 - second_gap > 0 {
        16 - second_gap
    } else {
        0
    };
    if first < second {
        1000 * first
    } else {
        1000 * second
    }
}

/// The bases that the anchors `j` and `i` share.
pub fn _alpha(j: usize, i: usize, anchors: &Vec<(&KmerNode, &KmerNode)>) -> (shared: Score)
    requires
        j < anchors@.len(),
        i < anchors@.len(),
    ensures
        shared == shared_bases(
            anchors@[i as int].0.order - anchors@[j as int].0.order,
            anchors@[i as int].1.order - anchors@[j as int].1.order,
        ),
{
    let first_gap: i128 = anchors[i].0.order as i128 - anchors[j].0.order as i128;
    let second_gap: i128 = anchors[i].1.order as i128 - anchors[j].1.order as i128;
    let num_bases_query: i128 = if 16 - first_gap > 0 {
        16 - first_gap
    } else {
        0
    };
    let num_bases_ref: i128 = if 16 - second_gap > 0 {
        16 - second_gap
    } else {
        0
    };
    if num_bases_query < num_bases_ref {
        1000 * num_bases_query
    } else {
        1000 * num_bases_ref
    }
}

/// The cost of a gap that is longer in the query than in the reference:
/// none where five times the difference is at most a million, and
/// without bound beyond that, which is `None`.
pub fn beta(ref_order_dist: usize, query_order_dist: usize) -> (cost: Option<Score>)
    ensures
        cost is None <==> 5 * (query_order_dist - ref_order_dist) > 1_000_000,
        cost is Some ==> cost->Some_0 == 0,
{
    let diff: i128 = (query_order_dist as i128 - ref_order_dist as i128) * 5;
    if diff > 1_000_000 {
        None
    } else {
        Some(0)
    }
}

} // verus!
