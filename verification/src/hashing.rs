//! Hash maps that hash with `ahash`.
//!
//! The specifications of `HashMap`'s methods that come with Verus cover only the default hasher.
//! What the same methods do under `ahash::RandomState` is stated here, for keys whose `Eq` and
//! `Hash` are known to be well behaved (`obeys_key_model`), such as integers. A `RandomState`
//! builds hashers that all start from the keys it was made with, so equal keys hash alike for as
//! long as the map that owns it lives.

use ahash::RandomState;
use std::collections::HashMap;
use std::hash::Hash;
use vstd::prelude::*;
use vstd::std_specs::hash::obeys_key_model;

verus! {

/// `ahash::RandomState`, which the maps carry along.
#[verifier::external_type_specification]
#[verifier::external_body]
pub struct ExAHashRandomState(ahash::RandomState);

/// A map without entries.
pub fn new_hashmap<K, V>() -> (map: HashMap<K, V, RandomState>)
    ensures
        map@ == Map::<K, V>::empty(),
{
    HashMap::default()
}

/// `entries` holds every entry of `map` once, in whatever order, and nothing else.
pub open spec fn lists_entries<K, V>(entries: Seq<(K, V)>, map: Map<K, V>) -> bool {
    &&& forall|i: int|
        0 <= i < entries.len() ==> map.contains_key(#[trigger] entries[i].0) && map[entries[i].0]
            == entries[i].1
    &&& forall|i: int, j: int|
        0 <= i < j < entries.len() ==> #[trigger] entries[i].0 != #[trigger] entries[j].0
    &&& forall|key: K| #[trigger]
        map.contains_key(key) ==> exists|i: int|
            0 <= i < entries.len() && #[trigger] entries[i].0 == key
}

/// `HashMap::get` under `ahash::RandomState`: the value stored under `key`, if there is one.
#[verifier::external_body]
pub(crate) fn map_get<K: Eq + Hash, V>(map: &HashMap<K, V, RandomState>, key: K) -> (value: Option<
    &V,
>)
    requires
        obeys_key_model::<K>(),
    ensures
        match value {
            Some(v) => map@.contains_key(key) && map@[key] == *v,
            None => !map@.contains_key(key),
        },
{
    map.get(&key)
}

/// `HashMap::insert` under `ahash::RandomState`: stores `value` under `key` and hands back what
/// was stored there before, if anything was.
#[verifier::external_body]
pub(crate) fn map_insert<K: Eq + Hash, V>(
    map: &mut HashMap<K, V, RandomState>,
    key: K,
    value: V,
) -> (previous: Option<V>)
    requires
        obeys_key_model::<K>(),
    ensures
        final(map)@ == old(map)@.insert(key, value),
        match previous {
            Some(v) => old(map)@.contains_key(key) && old(map)@[key] == v,
            None => !old(map)@.contains_key(key),
        },
{
    map.insert(key, value)
}

/// `HashMap::remove` under `ahash::RandomState`: takes out the entry under `key` and hands its
/// value back, if there is one.
#[verifier::external_body]
pub(crate) fn map_remove<K: Eq + Hash, V>(
    map: &mut HashMap<K, V, RandomState>,
    key: K,
) -> (removed: Option<V>)
    requires
        obeys_key_model::<K>(),
    ensures
        final(map)@ == old(map)@.remove(key),
        match removed {
            Some(v) => old(map)@.contains_key(key) && old(map)@[key] == v,
            None => !old(map)@.contains_key(key),
        },
{
    map.remove(&key)
}

/// `HashMap::shrink_to_fit` under `ahash::RandomState`: gives memory back and keeps the entries.
#[verifier::external_body]
pub(crate) fn map_shrink_to_fit<K: Eq + Hash, V>(map: &mut HashMap<K, V, RandomState>)
    requires
        obeys_key_model::<K>(),
    ensures
        final(map)@ == old(map)@,
{
    map.shrink_to_fit()
}

/// `HashMap::iter` under `ahash::RandomState`: every entry once. The order is not stated, since
/// it differs from map to map.
#[verifier::external_body]
pub(crate) fn map_iter<K: Eq + Hash + Copy, V: Copy>(map: &HashMap<K, V, RandomState>) -> (entries:
    Vec<(K, V)>)
    requires
        obeys_key_model::<K>(),
    ensures
        lists_entries(entries@, map@),
{
    map.iter().map(|(key, value)| (*key, *value)).collect()
}

} // verus!
