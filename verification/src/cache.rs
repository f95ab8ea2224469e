//! The hash map that remembers which peer an address belongs to.
//!
//! The map hashes with `fnv`. Verus's own specification of `HashMap` says nothing
//! of a map whose hasher it does not know, so the methods that look into the map
//! are specified here. They rest on what std documents of `HashMap` for a key of
//! integers, whose `Eq` and `Hash` agree, and on that `FnvHasher` computes its
//! hash from what is written to it alone.
use crate::types::{AddressKey, PeerAddr, Time};
use fnv::FnvHasher;
use std::collections::HashMap;
use std::hash::BuildHasherDefault;
use vstd::prelude::*;

verus! {

/// `fnv::FnvHasher`: the hasher of the map. Nothing is said of its values.
#[verifier::external_type_specification]
#[verifier::external_body]
pub struct ExFnvHasher(FnvHasher);

/// `std::hash::BuildHasherDefault`: builds a hasher of its parameter by
/// `Default`. Nothing is said of its values.
#[verifier::external_type_specification]
#[verifier::external_body]
#[verifier::reject_recursive_types(H)]
pub struct ExBuildHasherDefault<H>(BuildHasherDefault<H>);

/// What the cache knows of an address.
#[derive(Clone, Copy, Debug)]
pub struct CacheValue {
    pub peer: PeerAddr,
    pub timeout: Time,
}

/// The cached addresses, by their keys.
pub type CacheMap = HashMap<AddressKey, CacheValue, BuildHasherDefault<FnvHasher>>;

/// An empty map.
pub(crate) fn new_cache() -> (cache: CacheMap)
    ensures
        cache@ == Map::<AddressKey, CacheValue>::empty(),
{
    HashMap::default()
}

/// A pass over all entries of the map.
#[derive(Clone, Copy, Debug)]
pub enum Sweep {
    /// Sets the timeouts of the entries of `peer` to zero.
    Invalidate { peer: PeerAddr },
    /// Drops the entries whose timeouts lie before `now`.
    Expire { now: Time },
}

impl Sweep {
    /// Whether an entry stays in the map.
    pub open spec fn keeps(self, value: CacheValue) -> bool {
        match self {
            Sweep::Invalidate { peer } => true,
            Sweep::Expire { now } => value.timeout >= now,
        }
    }

    /// What becomes of an entry that stays.
    pub open spec fn leaves(self, value: CacheValue) -> CacheValue {
        match self {
            Sweep::Invalidate { peer } => if value.peer == peer {
                CacheValue { peer: value.peer, timeout: 0 }
            } else {
                value
            },
            Sweep::Expire { now } => value,
        }
    }

    /// What becomes of the map.
    pub open spec fn result(self, entries: Map<AddressKey, CacheValue>) -> Map<
        AddressKey,
        CacheValue,
    > {
        Map::new(
            |key: AddressKey| entries.contains_key(key) && self.keeps(entries[key]),
            |key: AddressKey| self.leaves(entries[key]),
        )
    }

    /// Visits one entry, and says whether it stays in the map.
    pub fn visit(&self, value: &mut CacheValue) -> (keep: bool)
        ensures
            keep == self.keeps(*old(value)),
            *final(value) == self.leaves(*old(value)),
    {
        match self {
            Sweep::Invalidate { peer } => {
                if value.peer == *peer {
                    value.timeout = 0;
                }
                true
            },
            Sweep::Expire { now } => value.timeout >= *now,
        }
    }
}

/// `HashMap::get`, on a map with a hasher of `fnv`: the value at the key, if
/// there is one.
#[verifier::external_body]
pub(crate) fn cache_get(cache: &CacheMap, key: &AddressKey) -> (value: Option<CacheValue>)
    ensures
        value == if cache@.contains_key(*key) {
            Some(cache@[*key])
        } else {
            None
        },
{
    cache.get(key).copied()
}

/// `HashMap::insert`, on a map with a hasher of `fnv`: the key then has the
/// value, whether or not it had one before; the other keys keep theirs.
#[verifier::external_body]
pub(crate) fn cache_insert(cache: &mut CacheMap, key: AddressKey, value: CacheValue)
    ensures
        final(cache)@ == old(cache)@.insert(key, value),
{
    cache.insert(key, value);
}

/// `HashMap::retain`, on a map with a hasher of `fnv`: visits each entry once,
/// keeps those for which the visit says so, with the values as the visit left
/// them, and drops the others.
#[verifier::external_body]
pub(crate) fn cache_retain(cache: &mut CacheMap, sweep: Sweep)
    ensures
        final(cache)@ == sweep.result(old(cache)@),
{
    cache.retain(|_key, value| sweep.visit(value));
}

/// `HashMap::len`, on a map with a hasher of `fnv`: the number of entries.
#[verifier::external_body]
pub(crate) fn cache_size(cache: &CacheMap) -> (len: usize)
    ensures
        len == cache@.len(),
{
    cache.len()
}

/// `HashMap::iter`, on a map with a hasher of `fnv`: all entries, each once. In
/// which order they come is not said.
#[verifier::external_body]
pub(crate) fn cache_entries(cache: &CacheMap) -> (entries: Vec<(AddressKey, CacheValue)>)
    ensures
        entries@.no_duplicates(),
        entries@.to_set() == cache@.kv_pairs(),
{
    cache.iter().map(|(key, value)| (*key, *value)).collect()
}

} // verus!
