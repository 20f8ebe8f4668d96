//! Seeds, anchors and color bitmasks.

use vstd::prelude::*;

verus! {

/// A set of reference genomes: bit `i` is set when genome `i` is a member.
pub type Color = u128;

/// A sequence of anchors, each a pair of a reference seed id and a query
/// seed id.
pub type Anchors = Vec<(u32, u32)>;

/// The color that has every genome.
pub const ALL_COLORS: Color = 0xffff_ffff_ffff_ffff_ffff_ffff_ffff_ffffu128;

/// A seed of the reference graph or of a query.
///
/// `kmer` is the 16-mer packed two bits per base. For a reference seed
/// `order` is the topological rank of the node, for a query seed the offset
/// in the read. An entry `(distance, (color, index))` of
/// `child_edge_distance` describes one edge to `child_nodes[index]`.
#[derive(Clone, Debug)]
pub struct KmerNode {
    pub order: u32,
    pub id: u32,
    pub kmer: u32,
    pub canonical: bool,
    pub color: Color,
    pub actual_ref_positions: Vec<usize>,
    pub child_nodes: Vec<u32>,
    pub child_edge_distance: Vec<(u16, (Color, u8))>,
}

/// Every seed's `id` is its index in the array.
pub open spec fn ids_are_indices(seeds: Seq<KmerNode>) -> bool {
    &&& seeds.len() <= u32::MAX
    &&& forall|i: int| 0 <= i < seeds.len() ==> (#[trigger] seeds[i]).id == i
}

/// Every seed's `order` is below the number of seeds.
pub open spec fn orders_in_range(seeds: Seq<KmerNode>) -> bool {
    &&& seeds.len() <= u32::MAX
    &&& forall|i: int| 0 <= i < seeds.len() ==> (#[trigger] seeds[i]).order < seeds.len()
}

/// Every anchor names a reference seed and a query seed that exist.
pub open spec fn anchors_in_range(anchors: Seq<(u32, u32)>, n_ref: nat, n_query: nat) -> bool {
    forall|k: int|
        0 <= k < anchors.len() ==> (#[trigger] anchors[k]).0 < n_ref && anchors[k].1 < n_query
}

/// The order of the reference seed of the anchor `a`.
pub fn ref_order_of(seeds_ref: &Vec<KmerNode>, a: &(u32, u32)) -> (order: u32)
    requires
        a.0 < seeds_ref@.len(),
    ensures
        order == seeds_ref@[a.0 as int].order,
{
    seeds_ref[a.0 as usize].order
}

/// Whether genome `i` is a member of `color`.
pub open spec fn has_bit(color: Color, i: int) -> bool {
    0 <= i < 128 && (color >> (i as u128)) & 1 == 1
}

/// The genomes of `color` from `lo` up, from the highest to the lowest.
pub open spec fn bits_from(color: Color, lo: int) -> Seq<usize>
    decreases 128 - lo,
{
    if lo >= 128 || lo < 0 {
        Seq::empty()
    } else if has_bit(color, lo) {
        bits_from(color, lo + 1).push(lo as usize)
    } else {
        bits_from(color, lo + 1)
    }
}

/// The genomes of `color`, from the highest to the lowest.
pub open spec fn nonzero_bits(color: Color) -> Seq<usize> {
    bits_from(color, 0)
}

/// The genomes of `color`, from the highest to the lowest.
pub fn get_nonzero_bits(color: Color) -> (bits: Vec<usize>)
    ensures
        bits@ == nonzero_bits(color),
        bits@.len() <= 128,
        forall|k: int| 0 <= k < bits.len() ==> has_bit(color, #[trigger] bits[k] as int),
        forall|i: int| has_bit(color, i) ==> bits@.contains(i as usize),
        forall|a: int, b: int| 0 <= a < b < bits.len() ==> bits[a] > bits[b],
{
    let mut bits: Vec<usize> = Vec::new();
    let mut i: usize = 128;
    while i > 0
        invariant
            i <= 128,
            bits@ == bits_from(color, i as int),
            bits@.len() <= 128 - i,
            forall|k: int| 0 <= k < bits.len() ==> has_bit(color, #[trigger] bits[k] as int),
            forall|k: int| 0 <= k < bits.len() ==> #[trigger] bits[k] >= i,
            forall|j: int| i <= j < 128 && has_bit(color, j) ==> bits@.contains(j as usize),
            forall|a: int, b: int| 0 <= a < b < bits.len() ==> bits[a] > bits[b],
        decreases i,
    {
        i = i - 1;
        if (color >> (i as u128)) & 1 == 1 {
            let ghost before = bits@;
            bits.push(i);
            assert(bits@[before.len() as int] == i);
            assert forall|j: int| i <= j < 128 && has_bit(color, j) implies bits@.contains(
                j as usize,
            ) by {
                if j > i {
                    let k = choose|k: int| 0 <= k < before.len() && before[k] == j as usize;
                    assert(bits@[k] == j as usize);
                }
            }
        }
    }
    bits
}

/// The lowest genome of `color` from `from` up, or 128 where there is
/// none.
pub open spec fn lowest_genome_from(color: Color, from: int) -> usize
    decreases 128 - from,
{
    if from < 0 || from >= 128 {
        128
    } else if has_bit(color, from) {
        from as usize
    } else {
        lowest_genome_from(color, from + 1)
    }
}

/// The lowest genome of `color`, or 128 where `color` has none.
pub open spec fn lowest_genome(color: Color) -> usize {
    lowest_genome_from(color, 0)
}

/// The lowest genome of `color`, or 128 where `color` has none.
pub fn get_first_nonzero_bit(color: Color) -> (first: usize)
    ensures
        first == lowest_genome(color),
        first <= 128,
        first < 128 ==> has_bit(color, first as int),
        forall|i: int| 0 <= i < first ==> !has_bit(color, i),
{
    let mut i: usize = 0;
    while i < 128
        invariant
            i <= 128,
            forall|j: int| 0 <= j < i ==> !has_bit(color, j),
            lowest_genome(color) == lowest_genome_from(color, i as int),
        decreases 128 - i,
    {
        if (color >> (i as u128)) & 1 == 1 {
            return i;
        }
        i = i + 1;
    }
    i
}


/// The number of the first `n` anchors whose reference node belongs to
/// the genome `c`.
pub open spec fn genome_count(anchors: Seq<(u32, u32)>, ref_graph: Seq<KmerNode>, c: int, n: int) -> nat
    decreases n,
{
    if n <= 0 {
        0
    } else {
        let before = genome_count(anchors, ref_graph, c, n - 1);
        if has_bit(ref_graph[anchors[n - 1].0 as int].color, c) {
            before + 1
        } else {
            before
        }
    }
}

/// The largest count among the genomes below `c`.
pub open spec fn largest_count(anchors: Seq<(u32, u32)>, ref_graph: Seq<KmerNode>, c: int) -> nat
    decreases c,
{
    if c <= 0 {
        0
    } else {
        let before = largest_count(anchors, ref_graph, c - 1);
        let here = genome_count(anchors, ref_graph, c - 1, anchors.len() as int);
        if here > before {
            here
        } else {
            before
        }
    }
}

/// Setting the bit `c` adds the genome `c` and changes no other.
proof fn lemma_set_bit(color: Color, c: u128, d: u128)
    by (bit_vector)
    requires
        c < 128,
        d < 128,
    ensures
        ((color | (1u128 << c)) >> d) & 1 == 1 <==> (((color >> d) & 1 == 1) || c == d),
{
}

/// The color that has no genome.
proof fn lemma_no_bit(d: u128)
    by (bit_vector)
    requires
        d < 128,
    ensures
        (0u128 >> d) & 1 != 1,
{
}

/// The genomes that at least 97 in 100 as many anchors belong to as to
/// the genome that the most anchors belong to.
pub fn _get_mandatory_color(anchors: &Anchors, ref_graph: &Vec<KmerNode>) -> (consensus_color: Color)
    requires
        forall|k: int| 0 <= k < anchors@.len() ==> (#[trigger] anchors@[k]).0 < ref_graph@.len(),
    ensures
        forall|c: int|
            0 <= c < 128 ==> (#[trigger] has_bit(consensus_color, c) <==> genome_count(
                anchors@,
                ref_graph@,
                c,
                anchors@.len() as int,
            ) >= largest_count(anchors@, ref_graph@, 128) * 97 / 100),
{
    let mut color_vec: Vec<usize> = Vec::new();
    let mut c: usize = 0;
    while c < 128
        invariant
            c <= 128,
            color_vec@.len() == c,
            forall|j: int| 0 <= j < c ==> #[trigger] color_vec@[j] == 0,
        decreases 128 - c,
    {
        color_vec.push(0);
        c = c + 1;
    }
    let mut i: usize = 0;
    while i < anchors.len()
        invariant
            i <= anchors@.len(),
            forall|k: int| 0 <= k < anchors@.len() ==> (#[trigger] anchors@[k]).0 < ref_graph@.len(),
            color_vec@.len() == 128,
            forall|j: int|
                0 <= j < 128 ==> #[trigger] color_vec@[j] == genome_count(anchors@, ref_graph@, j, i as int),
            forall|j: int| 0 <= j < 128 ==> #[trigger] color_vec@[j] <= i,
        decreases anchors@.len() - i,
    {
        let color_node = ref_graph[anchors[i].0 as usize].color;
        let mut b: usize = 0;
        while b < 128
            invariant
                b <= 128,
                i < anchors@.len() <= usize::MAX,
                color_node == ref_graph@[anchors@[i as int].0 as int].color,
                color_vec@.len() == 128,
                forall|j: int|
                    0 <= j < b ==> #[trigger] color_vec@[j] == genome_count(anchors@, ref_graph@, j, i + 1),
                forall|j: int|
                    b <= j < 128 ==> #[trigger] color_vec@[j] == genome_count(
                        anchors@,
                        ref_graph@,
                        j,
                        i as int,
                    ),
                forall|j: int| 0 <= j < 128 ==> #[trigger] color_vec@[j] <= i + 1,
                forall|j: int| b <= j < 128 ==> #[trigger] color_vec@[j] <= i,
            decreases 128 - b,
        {
            assert(color_vec@[b as int] == genome_count(anchors@, ref_graph@, b as int, i as int));
            if (color_node >> (b as u128)) & 1 == 1 {
                color_vec.set(b, color_vec[b] + 1);
            }
            b = b + 1;
        }
        i = i + 1;
    }
    let mut best_score: usize = 0;
    let mut m: usize = 0;
    while m < 128
        invariant
            m <= 128,
            color_vec@.len() == 128,
            forall|j: int|
                0 <= j < 128 ==> #[trigger] color_vec@[j] == genome_count(
                    anchors@,
                    ref_graph@,
                    j,
                    anchors@.len() as int,
                ),
            best_score == largest_count(anchors@, ref_graph@, m as int),
        decreases 128 - m,
    {
        if color_vec[m] > best_score {
            best_score = color_vec[m];
        }
        m = m + 1;
    }
    let threshold: u128 = (best_score as u128) * 97 / 100;
    let mut consensus_color: Color = 0;
    let mut d: usize = 0;
    proof {
        assert forall|j: int| 0 <= j < 128 implies !has_bit(0u128, j) by {
            lemma_no_bit(j as u128);
        }
    }
    while d < 128
        invariant
            d <= 128,
            color_vec@.len() == 128,
            threshold == largest_count(anchors@, ref_graph@, 128) * 97 / 100,
            forall|j: int|
                0 <= j < 128 ==> #[trigger] color_vec@[j] == genome_count(
                    anchors@,
                    ref_graph@,
                    j,
                    anchors@.len() as int,
                ),
            forall|j: int|
                0 <= j < d ==> (#[trigger] has_bit(consensus_color, j) <==> color_vec@[j] >= threshold),
            forall|j: int| d <= j < 128 ==> !#[trigger] has_bit(consensus_color, j),
        decreases 128 - d,
    {
        if color_vec[d] as u128 >= threshold {
            let ghost before = consensus_color;
            consensus_color = consensus_color | (1u128 << (d as u128));
            proof {
                assert forall|j: int| 0 <= j < 128 implies (#[trigger] has_bit(consensus_color, j) <==> (
                    has_bit(before, j) || j == d)) by {
                    lemma_set_bit(before, d as u128, j as u128);
                }
            }
        }
        d = d + 1;
    }
    consensus_color
}

} // verus!
