//! Anchor generation and the choice of the strand.
//!
//! An anchor pairs a reference seed and a query seed with the same k-mer.
//! It is a forward anchor where both seeds are stored in the same
//! orientation, and a backward anchor otherwise. The evidence for a strand is
//! the number of distinct k-mers that gave it an anchor.

use crate::fx::map_get;
use crate::fx::map_keys;
use crate::fx::set_contains;
use crate::fx::set_insert;
use crate::fx::set_len;
use crate::fx::set_new;
use crate::seed::anchors_in_range;
use crate::seed::ids_are_indices;
use crate::seed::Anchors;
use crate::seed::KmerNode;
use fxhash::FxHashMap;
use fxhash::FxHashSet;
use vstd::prelude::*;

verus! {

broadcast use vstd::std_specs::hash::group_hash_axioms;

/// The anchors of both strands, and for each strand the k-mers that gave it
/// an anchor.
pub struct Hits {
    pub forward: Seq<(u32, u32)>,
    pub backward: Seq<(u32, u32)>,
    pub forward_kmers: Set<u32>,
    pub backward_kmers: Set<u32>,
}

/// No anchors.
pub open spec fn no_hits() -> Hits {
    Hits {
        forward: Seq::empty(),
        backward: Seq::empty(),
        forward_kmers: Set::empty(),
        backward_kmers: Set::empty(),
    }
}

/// `acc` with the anchor of the reference seed `r` and the query seed `q`.
pub open spec fn add_pair(acc: Hits, r: KmerNode, q: KmerNode) -> Hits {
    if r.canonical == q.canonical {
        Hits {
            forward: acc.forward.push((r.id, q.id)),
            backward: acc.backward,
            forward_kmers: acc.forward_kmers.insert(r.kmer),
            backward_kmers: acc.backward_kmers,
        }
    } else {
        Hits {
            forward: acc.forward,
            backward: acc.backward.push((r.id, q.id)),
            forward_kmers: acc.forward_kmers,
            backward_kmers: acc.backward_kmers.insert(r.kmer),
        }
    }
}

/// `acc` with the anchors of the reference seed `r` and the first `n` of
/// the query seeds `q_ids`.
pub open spec fn add_row(acc: Hits, r: KmerNode, q_ids: Seq<u32>, seeds_q: Seq<KmerNode>, n: int) -> Hits
    decreases n,
{
    if n <= 0 {
        acc
    } else {
        add_pair(add_row(acc, r, q_ids, seeds_q, n - 1), r, seeds_q[q_ids[n - 1] as int])
    }
}

/// `acc` with the anchors of the first `m` of the reference seeds `r_ids`
/// and all the query seeds `q_ids`.
pub open spec fn add_block(
    acc: Hits,
    r_ids: Seq<u32>,
    q_ids: Seq<u32>,
    seeds_ref: Seq<KmerNode>,
    seeds_q: Seq<KmerNode>,
    m: int,
) -> Hits
    decreases m,
{
    if m <= 0 {
        acc
    } else {
        add_row(
            add_block(acc, r_ids, q_ids, seeds_ref, seeds_q, m - 1),
            seeds_ref[r_ids[m - 1] as int],
            q_ids,
            seeds_q,
            q_ids.len() as int,
        )
    }
}

/// The anchors of the first `k` of the k-mers `keys`. A k-mer gives anchors
/// where it is not excluded and both indexes have it.
pub open spec fn hits_of_keys(
    keys: Seq<u32>,
    seeds_ref: Seq<KmerNode>,
    seeds_q: Seq<KmerNode>,
    ref_map: Map<u32, Vec<u32>>,
    q_map: Map<u32, Vec<u32>>,
    not_used: Set<u32>,
    k: int,
) -> Hits
    decreases k,
{
    if k <= 0 {
        no_hits()
    } else {
        let before = hits_of_keys(keys, seeds_ref, seeds_q, ref_map, q_map, not_used, k - 1);
        let kmer = keys[k - 1];
        if !not_used.contains(kmer) && ref_map.contains_key(kmer) && q_map.contains_key(kmer) {
            add_block(
                before,
                ref_map[kmer]@,
                q_map[kmer]@,
                seeds_ref,
                seeds_q,
                ref_map[kmer]@.len() as int,
            )
        } else {
            before
        }
    }
}

/// Whether every id in the index `dict` is below `n`.
pub open spec fn ids_in_range(dict: Map<u32, Vec<u32>>, n: nat) -> bool {
    forall|kmer: u32, i: int|
        dict.contains_key(kmer) && 0 <= i < dict[kmer]@.len() ==> (#[trigger] dict[kmer]@[i]) < n
}

/// The anchors of one strand.
pub open spec fn strand_anchors(hits: Hits, forward: bool) -> Seq<(u32, u32)> {
    if forward {
        hits.forward
    } else {
        hits.backward
    }
}

/// Whether `a` is the anchor of the seeds `r` and `q` and belongs to the
/// strand `forward`.
pub open spec fn is_pair(a: (u32, u32), r: KmerNode, q: KmerNode, forward: bool) -> bool {
    a == (r.id, q.id) && (r.canonical == q.canonical) == forward
}

/// Whether `a` is an anchor of the seed `r` and one of the first `n` of
/// the query seeds `q_ids`.
pub open spec fn row_has(
    a: (u32, u32),
    r: KmerNode,
    q_ids: Seq<u32>,
    seeds_q: Seq<KmerNode>,
    n: int,
    forward: bool,
) -> bool {
    exists|j: int| 0 <= j < n && is_pair(a, r, #[trigger] seeds_q[q_ids[j] as int], forward)
}

/// Whether `a` is an anchor of one of the first `m` of the reference seeds
/// `r_ids` and one of the query seeds `q_ids`.
pub open spec fn block_has(
    a: (u32, u32),
    r_ids: Seq<u32>,
    q_ids: Seq<u32>,
    seeds_ref: Seq<KmerNode>,
    seeds_q: Seq<KmerNode>,
    m: int,
    forward: bool,
) -> bool {
    exists|i: int|
        0 <= i < m && row_has(a, #[trigger] seeds_ref[r_ids[i] as int], q_ids, seeds_q, q_ids.len() as int, forward)
}

/// Whether `a` is an anchor, in the strand `forward`, of two seeds that
/// the indexes list under the k-mer `kmer`, which is not excluded.
pub open spec fn kmer_gives(
    a: (u32, u32),
    kmer: u32,
    seeds_ref: Seq<KmerNode>,
    seeds_q: Seq<KmerNode>,
    ref_map: Map<u32, Vec<u32>>,
    q_map: Map<u32, Vec<u32>>,
    not_used: Set<u32>,
    forward: bool,
) -> bool {
    &&& !not_used.contains(kmer)
    &&& ref_map.contains_key(kmer)
    &&& q_map.contains_key(kmer)
    &&& block_has(a, ref_map[kmer]@, q_map[kmer]@, seeds_ref, seeds_q, ref_map[kmer]@.len() as int, forward)
}

/// A row adds the anchors of its reference seed and its query seeds.
pub proof fn lemma_row_has(
    acc: Hits,
    r: KmerNode,
    q_ids: Seq<u32>,
    seeds_q: Seq<KmerNode>,
    n: int,
    a: (u32, u32),
    forward: bool,
)
    requires
        0 <= n <= q_ids.len(),
    ensures
        strand_anchors(add_row(acc, r, q_ids, seeds_q, n), forward).contains(a) <==> strand_anchors(
            acc,
            forward,
        ).contains(a) || row_has(a, r, q_ids, seeds_q, n, forward),
    decreases n,
{
    if n > 0 {
        lemma_row_has(acc, r, q_ids, seeds_q, n - 1, a, forward);
        let before = strand_anchors(add_row(acc, r, q_ids, seeds_q, n - 1), forward);
        let now = strand_anchors(add_row(acc, r, q_ids, seeds_q, n), forward);
        let q = seeds_q[q_ids[n - 1] as int];
        if (r.canonical == q.canonical) == forward {
            assert(now == before.push((r.id, q.id)));
            if before.contains(a) {
                let k = choose|k: int| 0 <= k < before.len() && before[k] == a;
                assert(now[k] == a);
            }
            if a == (r.id, q.id) {
                assert(now[before.len() as int] == a);
            }
            if now.contains(a) {
                let k = choose|k: int| 0 <= k < now.len() && now[k] == a;
                if k < before.len() {
                    assert(before[k] == a);
                }
            }
        } else {
            assert(now == before);
        }
        if row_has(a, r, q_ids, seeds_q, n - 1, forward) {
            let j = choose|j: int| 0 <= j < n - 1 && is_pair(a, r, #[trigger] seeds_q[q_ids[j] as int], forward);
            assert(is_pair(a, r, seeds_q[q_ids[j] as int], forward));
        }
        if is_pair(a, r, q, forward) {
            assert(is_pair(a, r, seeds_q[q_ids[n - 1] as int], forward));
        }
        if row_has(a, r, q_ids, seeds_q, n, forward) {
            let j = choose|j: int| 0 <= j < n && is_pair(a, r, #[trigger] seeds_q[q_ids[j] as int], forward);
            if j < n - 1 {
                assert(is_pair(a, r, seeds_q[q_ids[j] as int], forward));
            }
        }
    }
}

/// A block adds the anchors of its reference seeds and its query seeds.
pub proof fn lemma_block_has(
    acc: Hits,
    r_ids: Seq<u32>,
    q_ids: Seq<u32>,
    seeds_ref: Seq<KmerNode>,
    seeds_q: Seq<KmerNode>,
    m: int,
    a: (u32, u32),
    forward: bool,
)
    requires
        0 <= m <= r_ids.len(),
    ensures
        strand_anchors(add_block(acc, r_ids, q_ids, seeds_ref, seeds_q, m), forward).contains(a)
            <==> strand_anchors(acc, forward).contains(a) || block_has(
            a,
            r_ids,
            q_ids,
            seeds_ref,
            seeds_q,
            m,
            forward,
        ),
    decreases m,
{
    if m > 0 {
        lemma_block_has(acc, r_ids, q_ids, seeds_ref, seeds_q, m - 1, a, forward);
        let before = add_block(acc, r_ids, q_ids, seeds_ref, seeds_q, m - 1);
        let r = seeds_ref[r_ids[m - 1] as int];
        lemma_row_has(before, r, q_ids, seeds_q, q_ids.len() as int, a, forward);
        if block_has(a, r_ids, q_ids, seeds_ref, seeds_q, m - 1, forward) {
            let i = choose|i: int|
                0 <= i < m - 1 && row_has(
                    a,
                    #[trigger] seeds_ref[r_ids[i] as int],
                    q_ids,
                    seeds_q,
                    q_ids.len() as int,
                    forward,
                );
            assert(row_has(a, seeds_ref[r_ids[i] as int], q_ids, seeds_q, q_ids.len() as int, forward));
        }
        if row_has(a, r, q_ids, seeds_q, q_ids.len() as int, forward) {
            assert(row_has(a, seeds_ref[r_ids[m - 1] as int], q_ids, seeds_q, q_ids.len() as int, forward));
        }
        if block_has(a, r_ids, q_ids, seeds_ref, seeds_q, m, forward) {
            let i = choose|i: int|
                0 <= i < m && row_has(
                    a,
                    #[trigger] seeds_ref[r_ids[i] as int],
                    q_ids,
                    seeds_q,
                    q_ids.len() as int,
                    forward,
                );
            if i < m - 1 {
                assert(row_has(a, seeds_ref[r_ids[i] as int], q_ids, seeds_q, q_ids.len() as int, forward));
            }
        }
    }
}

/// The anchors of the first `k` k-mers are the anchors that one of these
/// k-mers gives.
pub proof fn lemma_keys_have(
    keys: Seq<u32>,
    seeds_ref: Seq<KmerNode>,
    seeds_q: Seq<KmerNode>,
    ref_map: Map<u32, Vec<u32>>,
    q_map: Map<u32, Vec<u32>>,
    not_used: Set<u32>,
    k: int,
    a: (u32, u32),
    forward: bool,
)
    requires
        0 <= k <= keys.len(),
    ensures
        strand_anchors(hits_of_keys(keys, seeds_ref, seeds_q, ref_map, q_map, not_used, k), forward).contains(a)
            <==> exists|t: int|
            0 <= t < k && kmer_gives(a, #[trigger] keys[t], seeds_ref, seeds_q, ref_map, q_map, not_used, forward),
    decreases k,
{
    if k > 0 {
        lemma_keys_have(keys, seeds_ref, seeds_q, ref_map, q_map, not_used, k - 1, a, forward);
        let before = hits_of_keys(keys, seeds_ref, seeds_q, ref_map, q_map, not_used, k - 1);
        let kmer = keys[k - 1];
        if !not_used.contains(kmer) && ref_map.contains_key(kmer) && q_map.contains_key(kmer) {
            lemma_block_has(
                before,
                ref_map[kmer]@,
                q_map[kmer]@,
                seeds_ref,
                seeds_q,
                ref_map[kmer]@.len() as int,
                a,
                forward,
            );
        }
        if exists|t: int|
            0 <= t < k - 1 && kmer_gives(
                a,
                #[trigger] keys[t],
                seeds_ref,
                seeds_q,
                ref_map,
                q_map,
                not_used,
                forward,
            ) {
            let t = choose|t: int|
                0 <= t < k - 1 && kmer_gives(
                    a,
                    #[trigger] keys[t],
                    seeds_ref,
                    seeds_q,
                    ref_map,
                    q_map,
                    not_used,
                    forward,
                );
            assert(kmer_gives(a, keys[t], seeds_ref, seeds_q, ref_map, q_map, not_used, forward));
        }
        if kmer_gives(a, kmer, seeds_ref, seeds_q, ref_map, q_map, not_used, forward) {
            assert(kmer_gives(a, keys[k - 1], seeds_ref, seeds_q, ref_map, q_map, not_used, forward));
        }
        if exists|t: int|
            0 <= t < k && kmer_gives(
                a,
                #[trigger] keys[t],
                seeds_ref,
                seeds_q,
                ref_map,
                q_map,
                not_used,
                forward,
            ) {
            let t = choose|t: int|
                0 <= t < k && kmer_gives(
                    a,
                    #[trigger] keys[t],
                    seeds_ref,
                    seeds_q,
                    ref_map,
                    q_map,
                    not_used,
                    forward,
                );
            if t < k - 1 {
                assert(kmer_gives(a, keys[t], seeds_ref, seeds_q, ref_map, q_map, not_used, forward));
            }
        }
    }
}

/// Whatever the order in which the query index is walked, the anchors of a
/// strand are the pairs of a reference seed and a query seed that the two
/// indexes list under the same k-mer, which is not excluded, with equal
/// orientation in the forward strand and unequal in the backward strand.
pub proof fn lemma_anchors_are_the_matches(
    keys: Seq<u32>,
    seeds_ref: Seq<KmerNode>,
    seeds_q: Seq<KmerNode>,
    ref_map: Map<u32, Vec<u32>>,
    q_map: Map<u32, Vec<u32>>,
    not_used: Set<u32>,
    a: (u32, u32),
    forward: bool,
)
    requires
        keys.to_set() == q_map.dom(),
    ensures
        strand_anchors(
            hits_of_keys(keys, seeds_ref, seeds_q, ref_map, q_map, not_used, keys.len() as int),
            forward,
        ).contains(a) <==> exists|kmer: u32|
            #[trigger] kmer_gives(a, kmer, seeds_ref, seeds_q, ref_map, q_map, not_used, forward),
{
    lemma_keys_have(keys, seeds_ref, seeds_q, ref_map, q_map, not_used, keys.len() as int, a, forward);
    if exists|kmer: u32| #[trigger] kmer_gives(a, kmer, seeds_ref, seeds_q, ref_map, q_map, not_used, forward) {
        let kmer = choose|kmer: u32|
            #[trigger] kmer_gives(a, kmer, seeds_ref, seeds_q, ref_map, q_map, not_used, forward);
        assert(q_map.dom().contains(kmer));
        assert(keys.to_set().contains(kmer));
        let t = choose|t: int| 0 <= t < keys.len() && keys[t] == kmer;
        assert(kmer_gives(a, keys[t], seeds_ref, seeds_q, ref_map, q_map, not_used, forward));
    }
}

/// The k-mers that gave an anchor to one strand.
pub open spec fn strand_kmers(hits: Hits, forward: bool) -> Set<u32> {
    if forward {
        hits.forward_kmers
    } else {
        hits.backward_kmers
    }
}

/// Whether `x` is the k-mer of the reference seed `r`, whose anchor with
/// `q` belongs to the strand `forward`.
pub open spec fn is_source(x: u32, r: KmerNode, q: KmerNode, forward: bool) -> bool {
    x == r.kmer && (r.canonical == q.canonical) == forward
}

/// Whether `x` is the k-mer of the seed `r`, which has an anchor with one
/// of the first `n` of the query seeds `q_ids`.
pub open spec fn row_gives(
    x: u32,
    r: KmerNode,
    q_ids: Seq<u32>,
    seeds_q: Seq<KmerNode>,
    n: int,
    forward: bool,
) -> bool {
    exists|j: int| 0 <= j < n && is_source(x, r, #[trigger] seeds_q[q_ids[j] as int], forward)
}

/// Whether `x` is the k-mer of one of the first `m` of the reference seeds
/// `r_ids`, which has an anchor with one of the query seeds `q_ids`.
pub open spec fn block_gives(
    x: u32,
    r_ids: Seq<u32>,
    q_ids: Seq<u32>,
    seeds_ref: Seq<KmerNode>,
    seeds_q: Seq<KmerNode>,
    m: int,
    forward: bool,
) -> bool {
    exists|i: int|
        0 <= i < m && row_gives(x, #[trigger] seeds_ref[r_ids[i] as int], q_ids, seeds_q, q_ids.len() as int, forward)
}

/// Whether `x` is the k-mer of a reference seed that has an anchor, in the
/// strand `forward`, with a query seed, where the indexes list both under
/// the k-mer `kmer`, which is not excluded.
pub open spec fn kmer_sources(
    x: u32,
    kmer: u32,
    seeds_ref: Seq<KmerNode>,
    seeds_q: Seq<KmerNode>,
    ref_map: Map<u32, Vec<u32>>,
    q_map: Map<u32, Vec<u32>>,
    not_used: Set<u32>,
    forward: bool,
) -> bool {
    &&& !not_used.contains(kmer)
    &&& ref_map.contains_key(kmer)
    &&& q_map.contains_key(kmer)
    &&& block_gives(x, ref_map[kmer]@, q_map[kmer]@, seeds_ref, seeds_q, ref_map[kmer]@.len() as int, forward)
}

/// A row adds the k-mer of its reference seed where it adds an anchor.
pub proof fn lemma_row_gives(
    acc: Hits,
    r: KmerNode,
    q_ids: Seq<u32>,
    seeds_q: Seq<KmerNode>,
    n: int,
    x: u32,
    forward: bool,
)
    requires
        0 <= n <= q_ids.len(),
    ensures
        strand_kmers(add_row(acc, r, q_ids, seeds_q, n), forward).contains(x) <==> strand_kmers(
            acc,
            forward,
        ).contains(x) || row_gives(x, r, q_ids, seeds_q, n, forward),
    decreases n,
{
    if n > 0 {
        lemma_row_gives(acc, r, q_ids, seeds_q, n - 1, x, forward);
        let before = strand_kmers(add_row(acc, r, q_ids, seeds_q, n - 1), forward);
        let now = strand_kmers(add_row(acc, r, q_ids, seeds_q, n), forward);
        let q = seeds_q[q_ids[n - 1] as int];
        if (r.canonical == q.canonical) == forward {
            assert(now == before.insert(r.kmer));
        } else {
            assert(now == before);
        }
        if row_gives(x, r, q_ids, seeds_q, n - 1, forward) {
            let j = choose|j: int| 0 <= j < n - 1 && is_source(x, r, #[trigger] seeds_q[q_ids[j] as int], forward);
            assert(is_source(x, r, seeds_q[q_ids[j] as int], forward));
        }
        if is_source(x, r, q, forward) {
            assert(is_source(x, r, seeds_q[q_ids[n - 1] as int], forward));
        }
        if row_gives(x, r, q_ids, seeds_q, n, forward) {
            let j = choose|j: int| 0 <= j < n && is_source(x, r, #[trigger] seeds_q[q_ids[j] as int], forward);
            if j < n - 1 {
                assert(is_source(x, r, seeds_q[q_ids[j] as int], forward));
            }
        }
    }
}

/// A block adds the k-mers of its reference seeds that get an anchor.
pub proof fn lemma_block_gives(
    acc: Hits,
    r_ids: Seq<u32>,
    q_ids: Seq<u32>,
    seeds_ref: Seq<KmerNode>,
    seeds_q: Seq<KmerNode>,
    m: int,
    x: u32,
    forward: bool,
)
    requires
        0 <= m <= r_ids.len(),
    ensures
        strand_kmers(add_block(acc, r_ids, q_ids, seeds_ref, seeds_q, m), forward).contains(x)
            <==> strand_kmers(acc, forward).contains(x) || block_gives(
            x,
            r_ids,
            q_ids,
            seeds_ref,
            seeds_q,
            m,
            forward,
        ),
    decreases m,
{
    if m > 0 {
        lemma_block_gives(acc, r_ids, q_ids, seeds_ref, seeds_q, m - 1, x, forward);
        let before = add_block(acc, r_ids, q_ids, seeds_ref, seeds_q, m - 1);
        let r = seeds_ref[r_ids[m - 1] as int];
        lemma_row_gives(before, r, q_ids, seeds_q, q_ids.len() as int, x, forward);
        if block_gives(x, r_ids, q_ids, seeds_ref, seeds_q, m - 1, forward) {
            let i = choose|i: int|
                0 <= i < m - 1 && row_gives(
                    x,
                    #[trigger] seeds_ref[r_ids[i] as int],
                    q_ids,
                    seeds_q,
                    q_ids.len() as int,
                    forward,
                );
            assert(row_gives(x, seeds_ref[r_ids[i] as int], q_ids, seeds_q, q_ids.len() as int, forward));
        }
        if row_gives(x, r, q_ids, seeds_q, q_ids.len() as int, forward) {
            assert(row_gives(x, seeds_ref[r_ids[m - 1] as int], q_ids, seeds_q, q_ids.len() as int, forward));
        }
        if block_gives(x, r_ids, q_ids, seeds_ref, seeds_q, m, forward) {
            let i = choose|i: int|
                0 <= i < m && row_gives(
                    x,
                    #[trigger] seeds_ref[r_ids[i] as int],
                    q_ids,
                    seeds_q,
                    q_ids.len() as int,
                    forward,
                );
            if i < m - 1 {
                assert(row_gives(x, seeds_ref[r_ids[i] as int], q_ids, seeds_q, q_ids.len() as int, forward));
            }
        }
    }
}

/// The k-mers counted for the first `k` keys are the k-mers of the
/// reference seeds to which one of these keys gives an anchor.
pub proof fn lemma_keys_give(
    keys: Seq<u32>,
    seeds_ref: Seq<KmerNode>,
    seeds_q: Seq<KmerNode>,
    ref_map: Map<u32, Vec<u32>>,
    q_map: Map<u32, Vec<u32>>,
    not_used: Set<u32>,
    k: int,
    x: u32,
    forward: bool,
)
    requires
        0 <= k <= keys.len(),
    ensures
        strand_kmers(hits_of_keys(keys, seeds_ref, seeds_q, ref_map, q_map, not_used, k), forward).contains(x)
            <==> exists|t: int|
            0 <= t < k && kmer_sources(x, #[trigger] keys[t], seeds_ref, seeds_q, ref_map, q_map, not_used, forward),
    decreases k,
{
    if k > 0 {
        lemma_keys_give(keys, seeds_ref, seeds_q, ref_map, q_map, not_used, k - 1, x, forward);
        let before = hits_of_keys(keys, seeds_ref, seeds_q, ref_map, q_map, not_used, k - 1);
        let kmer = keys[k - 1];
        if !not_used.contains(kmer) && ref_map.contains_key(kmer) && q_map.contains_key(kmer) {
            lemma_block_gives(
                before,
                ref_map[kmer]@,
                q_map[kmer]@,
                seeds_ref,
                seeds_q,
                ref_map[kmer]@.len() as int,
                x,
                forward,
            );
        }
        if exists|t: int|
            0 <= t < k - 1 && kmer_sources(
                x,
                #[trigger] keys[t],
                seeds_ref,
                seeds_q,
                ref_map,
                q_map,
                not_used,
                forward,
            ) {
            let t = choose|t: int|
                0 <= t < k - 1 && kmer_sources(
                    x,
                    #[trigger] keys[t],
                    seeds_ref,
                    seeds_q,
                    ref_map,
                    q_map,
                    not_used,
                    forward,
                );
            assert(kmer_sources(x, keys[t], seeds_ref, seeds_q, ref_map, q_map, not_used, forward));
        }
        if kmer_sources(x, kmer, seeds_ref, seeds_q, ref_map, q_map, not_used, forward) {
            assert(kmer_sources(x, keys[k - 1], seeds_ref, seeds_q, ref_map, q_map, not_used, forward));
        }
        if exists|t: int|
            0 <= t < k && kmer_sources(
                x,
                #[trigger] keys[t],
                seeds_ref,
                seeds_q,
                ref_map,
                q_map,
                not_used,
                forward,
            ) {
            let t = choose|t: int|
                0 <= t < k && kmer_sources(
                    x,
                    #[trigger] keys[t],
                    seeds_ref,
                    seeds_q,
                    ref_map,
                    q_map,
                    not_used,
                    forward,
                );
            if t < k - 1 {
                assert(kmer_sources(x, keys[t], seeds_ref, seeds_q, ref_map, q_map, not_used, forward));
            }
        }
    }
}

/// Whatever the order in which the query index is walked, the k-mers
/// counted for a strand are the k-mers of the reference seeds that have an
/// anchor in that strand.
pub proof fn lemma_kmers_are_the_sources(
    keys: Seq<u32>,
    seeds_ref: Seq<KmerNode>,
    seeds_q: Seq<KmerNode>,
    ref_map: Map<u32, Vec<u32>>,
    q_map: Map<u32, Vec<u32>>,
    not_used: Set<u32>,
    x: u32,
    forward: bool,
)
    requires
        keys.to_set() == q_map.dom(),
    ensures
        strand_kmers(
            hits_of_keys(keys, seeds_ref, seeds_q, ref_map, q_map, not_used, keys.len() as int),
            forward,
        ).contains(x) <==> exists|kmer: u32|
            #[trigger] kmer_sources(x, kmer, seeds_ref, seeds_q, ref_map, q_map, not_used, forward),
{
    lemma_keys_give(keys, seeds_ref, seeds_q, ref_map, q_map, not_used, keys.len() as int, x, forward);
    if exists|kmer: u32| #[trigger] kmer_sources(x, kmer, seeds_ref, seeds_q, ref_map, q_map, not_used, forward) {
        let kmer = choose|kmer: u32|
            #[trigger] kmer_sources(x, kmer, seeds_ref, seeds_q, ref_map, q_map, not_used, forward);
        assert(q_map.dom().contains(kmer));
        assert(keys.to_set().contains(kmer));
        let t = choose|t: int| 0 <= t < keys.len() && keys[t] == kmer;
        assert(kmer_sources(x, keys[t], seeds_ref, seeds_q, ref_map, q_map, not_used, forward));
    }
}

/// Whether every anchor of `hits` names seeds that exist.
pub open spec fn hits_in_range(hits: Hits, n_ref: nat, n_query: nat) -> bool {
    anchors_in_range(hits.forward, n_ref, n_query) && anchors_in_range(hits.backward, n_ref, n_query)
}

/// Where the ids of the seeds are their indices and the indexes hold ids
/// of seeds, every anchor names seeds that exist.
pub proof fn lemma_hits_in_range(
    keys: Seq<u32>,
    seeds_ref: Seq<KmerNode>,
    seeds_q: Seq<KmerNode>,
    ref_map: Map<u32, Vec<u32>>,
    q_map: Map<u32, Vec<u32>>,
    not_used: Set<u32>,
    k: int,
)
    requires
        ids_are_indices(seeds_ref),
        ids_are_indices(seeds_q),
        ids_in_range(ref_map, seeds_ref.len()),
        ids_in_range(q_map, seeds_q.len()),
    ensures
        hits_in_range(
            hits_of_keys(keys, seeds_ref, seeds_q, ref_map, q_map, not_used, k),
            seeds_ref.len(),
            seeds_q.len(),
        ),
    decreases k,
{
    if k > 0 {
        lemma_hits_in_range(keys, seeds_ref, seeds_q, ref_map, q_map, not_used, k - 1);
        let before = hits_of_keys(keys, seeds_ref, seeds_q, ref_map, q_map, not_used, k - 1);
        let kmer = keys[k - 1];
        if !not_used.contains(kmer) && ref_map.contains_key(kmer) && q_map.contains_key(kmer) {
            lemma_block_in_range(
                before,
                ref_map[kmer]@,
                q_map[kmer]@,
                seeds_ref,
                seeds_q,
                ref_map[kmer]@.len() as int,
            );
        }
    }
}

/// A block of anchors of seeds that exist names seeds that exist.
pub proof fn lemma_block_in_range(
    acc: Hits,
    r_ids: Seq<u32>,
    q_ids: Seq<u32>,
    seeds_ref: Seq<KmerNode>,
    seeds_q: Seq<KmerNode>,
    m: int,
)
    requires
        ids_are_indices(seeds_ref),
        ids_are_indices(seeds_q),
        hits_in_range(acc, seeds_ref.len(), seeds_q.len()),
        m <= r_ids.len(),
        forall|i: int| 0 <= i < r_ids.len() ==> #[trigger] r_ids[i] < seeds_ref.len(),
        forall|i: int| 0 <= i < q_ids.len() ==> #[trigger] q_ids[i] < seeds_q.len(),
    ensures
        hits_in_range(add_block(acc, r_ids, q_ids, seeds_ref, seeds_q, m), seeds_ref.len(), seeds_q.len()),
    decreases m,
{
    if m > 0 {
        lemma_block_in_range(acc, r_ids, q_ids, seeds_ref, seeds_q, m - 1);
        lemma_row_in_range(
            add_block(acc, r_ids, q_ids, seeds_ref, seeds_q, m - 1),
            seeds_ref[r_ids[m - 1] as int],
            q_ids,
            seeds_ref,
            seeds_q,
            q_ids.len() as int,
        );
    }
}

/// A row of anchors of seeds that exist names seeds that exist.
pub proof fn lemma_row_in_range(
    acc: Hits,
    r: KmerNode,
    q_ids: Seq<u32>,
    seeds_ref: Seq<KmerNode>,
    seeds_q: Seq<KmerNode>,
    n: int,
)
    requires
        ids_are_indices(seeds_q),
        hits_in_range(acc, seeds_ref.len(), seeds_q.len()),
        r.id < seeds_ref.len(),
        n <= q_ids.len(),
        forall|i: int| 0 <= i < q_ids.len() ==> #[trigger] q_ids[i] < seeds_q.len(),
    ensures
        hits_in_range(add_row(acc, r, q_ids, seeds_q, n), seeds_ref.len(), seeds_q.len()),
    decreases n,
{
    if n > 0 {
        lemma_row_in_range(acc, r, q_ids, seeds_ref, seeds_q, n - 1);
        let before = add_row(acc, r, q_ids, seeds_q, n - 1);
        let q = seeds_q[q_ids[n - 1] as int];
        assert(q_ids[n - 1] < seeds_q.len());
        assert(q.id == q_ids[n - 1]);
        let now = add_pair(before, r, q);
        assert forall|k: int| 0 <= k < now.forward.len() implies (#[trigger] now.forward[k]).0
            < seeds_ref.len() && now.forward[k].1 < seeds_q.len() by {
            if k < before.forward.len() {
                assert(now.forward[k] == before.forward[k]);
            }
        }
        assert forall|k: int| 0 <= k < now.backward.len() implies (#[trigger] now.backward[k]).0
            < seeds_ref.len() && now.backward[k].1 < seeds_q.len() by {
            if k < before.backward.len() {
                assert(now.backward[k] == before.backward[k]);
            }
        }
    }
}

/// Whether the returned anchors and counts are those of `hits`.
pub open spec fn hits_match(found: (Anchors, Anchors, usize, usize), hits: Hits) -> bool {
    &&& found.0@ == hits.forward
    &&& found.1@ == hits.backward
    &&& found.2 == hits.forward_kmers.len()
    &&& found.3 == hits.backward_kmers.len()
}

/// The anchors of the k-mers `keys`, taken in that order, with the number
/// of distinct k-mers that gave a forward and a backward anchor.
pub fn anchors_from_keys(
    keys: &Vec<u32>,
    seeds_ref: &Vec<KmerNode>,
    seeds_q: &Vec<KmerNode>,
    ref_hash_map: &FxHashMap<u32, Vec<u32>>,
    q_hash_map: &FxHashMap<u32, Vec<u32>>,
    not_used_kmers: &FxHashSet<u32>,
) -> (found: (Anchors, Anchors, usize, usize))
    requires
        ids_in_range(ref_hash_map@, seeds_ref@.len()),
        ids_in_range(q_hash_map@, seeds_q@.len()),
    ensures
        hits_match(
            found,
            hits_of_keys(
                keys@,
                seeds_ref@,
                seeds_q@,
                ref_hash_map@,
                q_hash_map@,
                not_used_kmers@,
                keys@.len() as int,
            ),
        ),
{
    let mut forward_anchors: Anchors = Vec::new();
    let mut forward_hits_set: FxHashSet<u32> = set_new();
    let mut backward_anchors: Anchors = Vec::new();
    let mut backward_hits_set: FxHashSet<u32> = set_new();
    let ghost mut acc = no_hits();
    let mut k: usize = 0;
    while k < keys.len()
        invariant
            ids_in_range(ref_hash_map@, seeds_ref@.len()),
            ids_in_range(q_hash_map@, seeds_q@.len()),
            k <= keys@.len(),
            acc == hits_of_keys(
                keys@,
                seeds_ref@,
                seeds_q@,
                ref_hash_map@,
                q_hash_map@,
                not_used_kmers@,
                k as int,
            ),
            forward_anchors@ == acc.forward,
            backward_anchors@ == acc.backward,
            forward_hits_set@ == acc.forward_kmers,
            backward_hits_set@ == acc.backward_kmers,
        decreases keys@.len() - k,
    {
        let kmer = keys[k];
        k = k + 1;
        if set_contains(not_used_kmers, &kmer) {
            continue ;
        }
        let ref_positions = match map_get(ref_hash_map, &kmer) {
            Some(v) => v,
            None => {
                continue ;
            },
        };
        let query_positions = match map_get(q_hash_map, &kmer) {
            Some(v) => v,
            None => {
                continue ;
            },
        };
        let ghost key_start = acc;
        let mut m: usize = 0;
        while m < ref_positions.len()
            invariant
                ref_hash_map@.contains_key(kmer),
                q_hash_map@.contains_key(kmer),
                ref_positions@ == ref_hash_map@[kmer]@,
                query_positions@ == q_hash_map@[kmer]@,
                ids_in_range(ref_hash_map@, seeds_ref@.len()),
                ids_in_range(q_hash_map@, seeds_q@.len()),
                m <= ref_positions@.len(),
                acc == add_block(key_start, ref_positions@, query_positions@, seeds_ref@, seeds_q@, m as int),
                forward_anchors@ == acc.forward,
                backward_anchors@ == acc.backward,
                forward_hits_set@ == acc.forward_kmers,
                backward_hits_set@ == acc.backward_kmers,
            decreases ref_positions@.len() - m,
        {
            let problem_a = ref_positions[m];
            assert(ref_hash_map@[kmer]@[m as int] < seeds_ref@.len());
            let node_r = &seeds_ref[problem_a as usize];
            let ghost row_start = acc;
            let mut n: usize = 0;
            while n < query_positions.len()
                invariant
                    q_hash_map@.contains_key(kmer),
                    query_positions@ == q_hash_map@[kmer]@,
                    ids_in_range(q_hash_map@, seeds_q@.len()),
                    n <= query_positions@.len(),
                    acc == add_row(row_start, *node_r, query_positions@, seeds_q@, n as int),
                    forward_anchors@ == acc.forward,
                    backward_anchors@ == acc.backward,
                    forward_hits_set@ == acc.forward_kmers,
                    backward_hits_set@ == acc.backward_kmers,
                decreases query_positions@.len() - n,
            {
                let problem_b = query_positions[n];
                assert(q_hash_map@[kmer]@[n as int] < seeds_q@.len());
                let node_q = &seeds_q[problem_b as usize];
                if node_r.canonical == node_q.canonical {
                    forward_anchors.push((node_r.id, node_q.id));
                    set_insert(&mut forward_hits_set, node_r.kmer);
                } else {
                    backward_anchors.push((node_r.id, node_q.id));
                    set_insert(&mut backward_hits_set, node_r.kmer);
                }
                proof {
                    acc = add_pair(acc, *node_r, *node_q);
                }
                n = n + 1;
            }
            m = m + 1;
        }
    }
    let num_forward_anchors = set_len(&forward_hits_set);
    let num_backward_anchors = set_len(&backward_hits_set);
    (forward_anchors, backward_anchors, num_forward_anchors, num_backward_anchors)
}

/// The anchors of the k-mers of the query index, taken in the order in
/// which the index is walked, which is not specified.
pub fn anchors_from_seeds(
    seeds_ref: &Vec<KmerNode>,
    seeds_q: &Vec<KmerNode>,
    ref_hash_map: &FxHashMap<u32, Vec<u32>>,
    q_hash_map: &FxHashMap<u32, Vec<u32>>,
    not_used_kmers: &FxHashSet<u32>,
) -> (found: (Anchors, Anchors, usize, usize))
    requires
        ids_in_range(ref_hash_map@, seeds_ref@.len()),
        ids_in_range(q_hash_map@, seeds_q@.len()),
    ensures
        exists|keys: Seq<u32>|
            keys.no_duplicates() && keys.to_set() == q_hash_map@.dom() && hits_match(
                found,
                #[trigger] hits_of_keys(
                    keys,
                    seeds_ref@,
                    seeds_q@,
                    ref_hash_map@,
                    q_hash_map@,
                    not_used_kmers@,
                    keys.len() as int,
                ),
            ),
{
    let keys = map_keys(q_hash_map);
    anchors_from_keys(&keys, seeds_ref, seeds_q, ref_hash_map, q_hash_map, not_used_kmers)
}

/// The strand that the k-mer counts speak for.
#[derive(Clone, Copy, Debug, PartialEq, Eq, Structural)]
pub enum Strand {
    Forward,
    Backward,
    Ambiguous,
}

/// The strand by the ten-to-eight rule: forward where the forward count is
/// above ten eighths of the backward count, rounded down; backward the
/// other way round; ambiguous otherwise.
pub open spec fn strand_of(num_forward: nat, num_backward: nat) -> Strand {
    if num_forward > num_backward * 10 / 8 {
        Strand::Forward
    } else if num_backward > num_forward * 10 / 8 {
        Strand::Backward
    } else {
        Strand::Ambiguous
    }
}

/// The strand by the ten-to-eight rule.
pub fn resolve_strand(num_forward_anchors: usize, num_backward_anchors: usize) -> (strand: Strand)
    ensures
        strand == strand_of(num_forward_anchors as nat, num_backward_anchors as nat),
{
    let forward = num_forward_anchors as u128;
    let backward = num_backward_anchors as u128;
    if forward > backward * 10 / 8 {
        Strand::Forward
    } else if backward > forward * 10 / 8 {
        Strand::Backward
    } else {
        Strand::Ambiguous
    }
}

/// The strand by the majority rule of the coarse chainer: backward where
/// the backward count is the larger, forward otherwise.
pub fn majority_is_forward(num_forward_anchors: usize, num_backward_anchors: usize) -> (forward: bool)
    ensures
        forward == (num_forward_anchors >= num_backward_anchors),
{
    num_forward_anchors >= num_backward_anchors
}

} // verus!
