//! The seed index: for every k-mer the ids of the seeds that have it.

use crate::fx::map_entry_or_insert;
use crate::fx::map_new;
use crate::seed::KmerNode;
use fxhash::FxHashMap;
use vstd::prelude::*;

verus! {

broadcast use vstd::std_specs::hash::group_hash_axioms;

/// The ids of the seeds with the k-mer `kmer`, in the order of the array.
pub open spec fn kmer_ids(seeds: Seq<KmerNode>, kmer: u32) -> Seq<u32>
    decreases seeds.len(),
{
    if seeds.len() == 0 {
        Seq::empty()
    } else {
        let before = kmer_ids(seeds.drop_last(), kmer);
        if seeds.last().kmer == kmer {
            before.push(seeds.last().id)
        } else {
            before
        }
    }
}

/// Whether `dict` is the index of `seeds`: it has the k-mers that occur in
/// `seeds`, each with the ids of the seeds that have it.
pub open spec fn is_index(dict: Map<u32, Vec<u32>>, seeds: Seq<KmerNode>) -> bool {
    forall|kmer: u32|
        #![trigger dict.contains_key(kmer)]
        #![trigger kmer_ids(seeds, kmer)]
        {
            &&& dict.contains_key(kmer) <==> kmer_ids(seeds, kmer).len() > 0
            &&& dict.contains_key(kmer) ==> dict[kmer]@ == kmer_ids(seeds, kmer)
        }
}

/// A k-mer has an id in the index exactly where a seed has the k-mer.
pub proof fn lemma_kmer_ids_nonempty(seeds: Seq<KmerNode>, kmer: u32)
    ensures
        kmer_ids(seeds, kmer).len() > 0 <==> exists|i: int| 0 <= i < seeds.len() && seeds[i].kmer == kmer,
    decreases seeds.len(),
{
    if seeds.len() > 0 {
        let rest = seeds.drop_last();
        lemma_kmer_ids_nonempty(rest, kmer);
        if exists|i: int| 0 <= i < seeds.len() && seeds[i].kmer == kmer {
            let i = choose|i: int| 0 <= i < seeds.len() && seeds[i].kmer == kmer;
            if i < rest.len() {
                assert(rest[i].kmer == kmer);
            }
        }
        if exists|i: int| 0 <= i < rest.len() && rest[i].kmer == kmer {
            let i = choose|i: int| 0 <= i < rest.len() && rest[i].kmer == kmer;
            assert(seeds[i].kmer == kmer);
        }
    }
}

/// The index of `seeds`.
pub fn get_kmer_dict(seeds: &Vec<KmerNode>) -> (dict: FxHashMap<u32, Vec<u32>>)
    ensures
        is_index(dict@, seeds@),
{
    let mut mini_hash_map: FxHashMap<u32, Vec<u32>> = map_new();
    let mut i: usize = 0;
    assert(seeds@.take(0) =~= Seq::empty());
    while i < seeds.len()
        invariant
            i <= seeds@.len(),
            is_index(mini_hash_map@, seeds@.take(i as int)),
        decreases seeds@.len() - i,
    {
        let kmer = seeds[i].kmer;
        let ghost before = mini_hash_map@;
        let ghost done = seeds@.take(i as int);
        assert(seeds@.take(i + 1).drop_last() == done);
        let pos_vec = map_entry_or_insert(&mut mini_hash_map, kmer, Vec::new());
        pos_vec.push(seeds[i].id);
        proof {
            let now = seeds@.take(i + 1);
            assert forall|other: u32|
                #![trigger mini_hash_map@.contains_key(other)]
                #![trigger kmer_ids(now, other)]
                {
                    &&& mini_hash_map@.contains_key(other) <==> kmer_ids(now, other).len() > 0
                    &&& mini_hash_map@.contains_key(other) ==> mini_hash_map@[other]@ == kmer_ids(now, other)
                } by {
                assert(before.contains_key(other) <==> kmer_ids(done, other).len() > 0);
                assert(before.contains_key(other) ==> before[other]@ == kmer_ids(done, other));
            }
        }
        i = i + 1;
    }
    assert(seeds@.take(i as int) == seeds@);
    mini_hash_map
}

/// The index of `seeds`, which are left as they are.
pub fn get_kmer_dict_mut(seeds: &mut Vec<KmerNode>) -> (dict: FxHashMap<u32, Vec<u32>>)
    ensures
        final(seeds)@ == old(seeds)@,
        is_index(dict@, old(seeds)@),
{
    get_kmer_dict(seeds)
}

} // verus!
