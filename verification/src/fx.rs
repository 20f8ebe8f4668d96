//! Hash maps and hash sets with the Fx hasher.
//!
//! The functions of this module are the only places where the crate touches
//! an Fx-hashed collection. Their contracts are believed, not proved: each one
//! restates, for the Fx hasher, what the standard library documents for the
//! method it calls. They rest on the Fx hasher being deterministic: a fresh
//! hasher always starts from the same state, so equal keys hash equally.

use fxhash::FxHashMap;
use fxhash::FxHashSet;
use fxhash::FxHasher;
use std::hash::BuildHasherDefault;
use std::hash::Hash;
use vstd::prelude::*;
use vstd::std_specs::hash::obeys_key_model;

verus! {

/// The hasher state of the `fxhash` crate, carried opaquely.
#[verifier::external_type_specification]
#[verifier::external_body]
pub struct ExFxHasher(FxHasher);

/// The standard builder that makes hashers through `Default`, carried opaquely.
#[verifier::external_type_specification]
#[verifier::external_body]
#[verifier::reject_recursive_types(H)]
pub struct ExBuildHasherDefault<H>(BuildHasherDefault<H>);

/// `FxHashMap::default()`: a new map holds nothing.
#[verifier::external_body]
pub(crate) fn map_new<K, V>() -> (m: FxHashMap<K, V>)
    ensures
        (m@ == Map::<K, V>::empty()),
{
    FxHashMap::default()
}

/// `HashMap::insert`: afterwards the key maps to the value, and every other
/// key is as before.
#[verifier::external_body]
pub(crate) fn map_insert<K: Eq + Hash, V>(m: &mut FxHashMap<K, V>, k: K, v: V)
    requires
        obeys_key_model::<K>(),
    ensures
        final(m)@ == old(m)@.insert(k, v),
{
    m.insert(k, v);
}

/// `HashMap::get`: the value stored under the key, if the map has the key.
#[verifier::external_body]
pub(crate) fn map_get<'a, K: Eq + Hash, V>(m: &'a FxHashMap<K, V>, k: &K) -> (r: Option<&'a V>)
    requires
        obeys_key_model::<K>(),
    ensures
        r is Some == m@.contains_key(*k),
        r is Some ==> *r->Some_0 == m@[*k],
{
    m.get(k)
}

/// `HashMap::entry(k).or_insert(default)`: a mutable reference to the value
/// under the key, which is `default` where the map did not have the key.
/// What the caller leaves behind the reference is what the map then holds
/// under the key.
#[verifier::external_body]
pub(crate) fn map_entry_or_insert<K: Eq + Hash, V>(m: &mut FxHashMap<K, V>, k: K, default: V) -> (r: &mut V)
    requires
        obeys_key_model::<K>(),
    ensures
        *r == (if old(m)@.contains_key(k) { old(m)@[k] } else { default }),
        final(m)@ == old(m)@.insert(k, *final(r)),
{
    m.entry(k).or_insert(default)
}

/// `HashMap::keys`, collected: every key of the map once, in the order in
/// which the map is walked, which is not specified.
#[verifier::external_body]
pub(crate) fn map_keys<K: Eq + Hash + Copy, V>(m: &FxHashMap<K, V>) -> (r: Vec<K>)
    requires
        obeys_key_model::<K>(),
    ensures
        r@.no_duplicates(),
        r@.to_set() == m@.dom(),
{
    m.keys().copied().collect()
}

/// `FxHashSet::default()`: a new set holds nothing.
#[verifier::external_body]
pub(crate) fn set_new<K>() -> (s: FxHashSet<K>)
    ensures
        s@ == Set::<K>::empty(),
{
    FxHashSet::default()
}

/// `HashSet::insert`: afterwards the set has the key besides what it had;
/// the result tells whether the key is new.
#[verifier::external_body]
pub(crate) fn set_insert<K: Eq + Hash>(s: &mut FxHashSet<K>, k: K) -> (r: bool)
    requires
        obeys_key_model::<K>(),
    ensures
        final(s)@ == old(s)@.insert(k),
        r == !old(s)@.contains(k),
{
    s.insert(k)
}

/// `HashSet::contains`: whether the set has the key.
#[verifier::external_body]
pub(crate) fn set_contains<K: Eq + Hash>(s: &FxHashSet<K>, k: &K) -> (r: bool)
    requires
        obeys_key_model::<K>(),
    ensures
        r == s@.contains(*k),
{
    s.contains(k)
}

/// `HashSet::len`: the number of keys in the set.
#[verifier::external_body]
pub(crate) fn set_len<K>(s: &FxHashSet<K>) -> (r: usize)
    ensures
        r == s@.len(),
{
    s.len()
}

} // verus!
