//! A store of keyed values that answers range-maximum queries.
//!
//! A key is a pair; a query names a rectangle of keys and asks for the
//! largest value stored under a key inside it. The store keeps its entries
//! in the order in which their keys first came, and a tie between equal
//! values goes to the entry that came first.

use crate::score::Score;
use vstd::prelude::*;

verus! {

/// One key of the store with the value and owner last written under it, if
/// any was.
#[derive(Clone, Copy, Debug)]
pub struct Entry {
    pub key: (usize, usize),
    pub value: Option<Score>,
    pub id: usize,
}

/// Whether `e` holds a value and its key lies in the rectangle that starts
/// at `lo` and ends before `hi` in both coordinates.
pub open spec fn in_range(e: Entry, lo: (usize, usize), hi: (usize, usize)) -> bool {
    &&& e.value is Some
    &&& lo.0 <= e.key.0 < hi.0
    &&& lo.1 <= e.key.1 < hi.1
}

/// The place of the first entry with `key`, or the number of entries where
/// none has it.
pub open spec fn position_of(entries: Seq<Entry>, key: (usize, usize)) -> int
    decreases entries.len(),
{
    if entries.len() == 0 {
        0
    } else if entries[0].key == key {
        0
    } else {
        1 + position_of(entries.subrange(1, entries.len() as int), key)
    }
}

/// `position_of` is the least place that holds the key.
pub proof fn lemma_position_of(entries: Seq<Entry>, key: (usize, usize))
    ensures
        0 <= position_of(entries, key) <= entries.len(),
        position_of(entries, key) < entries.len() ==> entries[position_of(entries, key)].key == key,
        forall|p: int| 0 <= p < position_of(entries, key) ==> (#[trigger] entries[p]).key != key,
    decreases entries.len(),
{
    if entries.len() > 0 && entries[0].key != key {
        let rest = entries.subrange(1, entries.len() as int);
        lemma_position_of(rest, key);
        assert forall|p: int| 0 <= p < position_of(entries, key) implies (#[trigger] entries[p]).key
            != key by {
            if p > 0 {
                assert(rest[p - 1] == entries[p]);
            }
        }
    }
}

/// The range-maximum store.
pub struct SearchTree {
    entries: Vec<Entry>,
}

impl View for SearchTree {
    type V = Seq<Entry>;

    closed spec fn view(&self) -> Seq<Entry> {
        self.entries@
    }
}

impl SearchTree {
    /// An empty store.
    pub fn new() -> (tree: SearchTree)
        ensures
            tree@.len() == 0,
    {
        SearchTree { entries: Vec::new() }
    }

    /// Adds `key` without a value, unless the store has the key already.
    pub fn insert(&mut self, key: (usize, usize))
        ensures
            position_of(old(self)@, key) < old(self)@.len() ==> final(self)@ == old(self)@,
            position_of(old(self)@, key) == old(self)@.len() ==> final(self)@ == old(self)@.push(
                (Entry { key, value: None, id: 0 }),
            ),
    {
        let p = self.find(key);
        if p == self.entries.len() {
            self.entries.push(Entry { key, value: None, id: 0 });
        }
    }

    /// Writes `value` and its owner `id` under `key`, adding the key where
    /// the store does not have it.
    pub fn update_query_info(&mut self, key: (usize, usize), value: Score, id: usize)
        ensures
            position_of(old(self)@, key) < old(self)@.len() ==> final(self)@ == old(self)@.update(
                position_of(old(self)@, key),
                (Entry { key, value: Some(value), id }),
            ),
            position_of(old(self)@, key) == old(self)@.len() ==> final(self)@ == old(self)@.push(
                (Entry { key, value: Some(value), id }),
            ),
    {
        let p = self.find(key);
        proof {
            lemma_position_of(self@, key);
        }
        if p == self.entries.len() {
            self.entries.push(Entry { key, value: Some(value), id });
        } else {
            self.entries[p] = Entry { key, value: Some(value), id };
        }
    }

    /// The largest value under a key of the rectangle from `lo` up to, and
    /// without, `hi`, with its owner; of several entries with that value,
    /// the first. `None` where the rectangle holds no value.
    pub fn mrq(&self, lo: (usize, usize), hi: (usize, usize)) -> (best: Option<(Score, usize)>)
        ensures
            best is None <==> forall|p: int| 0 <= p < self@.len() ==> !in_range(#[trigger] self@[p], lo, hi),
            best is Some ==> exists|p: int|
                0 <= p < self@.len() && is_first_maximum(self@, lo, hi, p) && best->Some_0 == (
                    self@[p].value->Some_0,
                    self@[p].id,
                ),
    {
        let mut best: Option<(Score, usize)> = None;
        let ghost mut at: int = 0;
        let mut p: usize = 0;
        while p < self.entries.len()
            invariant
                p <= self.entries.len(),
                best is None <==> forall|k: int| 0 <= k < p ==> !in_range(#[trigger] self@[k], lo, hi),
                best is Some ==> 0 <= at < p && in_range(self@[at], lo, hi) && best->Some_0 == (
                    self@[at].value->Some_0,
                    self@[at].id,
                ) && (forall|k: int|
                    0 <= k < p && in_range(#[trigger] self@[k], lo, hi) ==> self@[k].value->Some_0
                        <= self@[at].value->Some_0) && (forall|k: int|
                    0 <= k < at && in_range(#[trigger] self@[k], lo, hi) ==> self@[k].value->Some_0
                        < self@[at].value->Some_0),
            decreases self.entries.len() - p,
        {
            let e = self.entries[p];
            if let Some(v) = e.value {
                if lo.0 <= e.key.0 && e.key.0 < hi.0 && lo.1 <= e.key.1 && e.key.1 < hi.1 {
                    let better = match best {
                        None => true,
                        Some((b, _)) => v > b,
                    };
                    if better {
                        best = Some((v, e.id));
                        proof {
                            at = p as int;
                        }
                    }
                }
            }
            p = p + 1;
        }
        proof {
            if best is Some {
                assert(is_first_maximum(self@, lo, hi, at));
            }
        }
        best
    }

    fn find(&self, key: (usize, usize)) -> (p: usize)
        ensures
            p == position_of(self@, key),
    {
        let mut p: usize = 0;
        assert(self@.subrange(0, self@.len() as int) =~= self@);
        while p < self.entries.len()
            invariant
                p <= self.entries.len(),
                position_of(self@, key) == p + position_of(self@.subrange(p as int, self@.len() as int), key),
            decreases self.entries.len() - p,
        {
            let ghost rest = self@.subrange(p as int, self@.len() as int);
            assert(rest[0] == self@[p as int]);
            let e = self.entries[p];
            if e.key.0 == key.0 && e.key.1 == key.1 {
                return p;
            }
            assert(rest.subrange(1, rest.len() as int) =~= self@.subrange(p + 1, self@.len() as int));
            p = p + 1;
        }
        assert(self@.subrange(p as int, self@.len() as int).len() == 0);
        p
    }
}

/// Whether entry `p` lies in the rectangle, no entry of the rectangle has a
/// larger value, and none before `p` has a value as large.
pub open spec fn is_first_maximum(entries: Seq<Entry>, lo: (usize, usize), hi: (usize, usize), p: int) -> bool {
    &&& 0 <= p < entries.len()
    &&& in_range(entries[p], lo, hi)
    &&& forall|k: int|
        0 <= k < entries.len() && in_range(#[trigger] entries[k], lo, hi) ==> entries[k].value->Some_0
            <= entries[p].value->Some_0
    &&& forall|k: int|
        0 <= k < p && in_range(#[trigger] entries[k], lo, hi) ==> entries[k].value->Some_0
            < entries[p].value->Some_0
}

} // verus!
