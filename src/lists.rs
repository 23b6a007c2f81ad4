//! The `multimap` crate's `MultiMap`, as this library uses it: declared to Verus, with
//! the contents that the wrappers below speak of.
use vstd::prelude::*;
use multimap::MultiMap;

verus! {

#[verifier::external_type_specification]
#[verifier::external_body]
#[verifier::reject_recursive_types(K)]
#[verifier::reject_recursive_types(V)]
#[verifier::reject_recursive_types(S)]
pub struct ExMultiMap<K, V, S>(MultiMap<K, V, S>);

/// What a `MultiMap` from entities to datatype ids holds: for each key present, its list
/// of values in insertion order.
pub uninterp spec fn id_lists(m: MultiMap<usize, u64>) -> Map<usize, Seq<u64>>;

/// The list that `m` holds under `k`, empty if `k` is absent.
pub open spec fn list_at(m: MultiMap<usize, u64>, k: usize) -> Seq<u64> {
    if id_lists(m).contains_key(k) { id_lists(m)[k] } else { Seq::empty() }
}

/// Relies on `MultiMap::new`: an empty map.
#[verifier::external_body]
pub fn lists_new() -> (r: MultiMap<usize, u64>)
    ensures
        id_lists(r).dom() == Set::<usize>::empty(),
{
    MultiMap::new()
}

/// Relies on `MultiMap::insert`: `v` is pushed at the end of the list under `k`, which is
/// created when absent.
#[verifier::external_body]
pub fn lists_insert(m: &mut MultiMap<usize, u64>, k: usize, v: u64)
    ensures
        id_lists(*final(m)) == id_lists(*old(m)).insert(k, list_at(*old(m), k).push(v)),
{
    m.insert(k, v)
}

/// Relies on `MultiMap::get_vec`: a copy of the list under `k`, if `k` is present.
#[verifier::external_body]
pub fn lists_get(m: &MultiMap<usize, u64>, k: usize) -> (r: Option<Vec<u64>>)
    ensures
        r is Some <==> id_lists(*m).contains_key(k),
        r matches Some(v) ==> v@ == id_lists(*m)[k],
{
    m.get_vec(&k).cloned()
}

/// Relies on `MultiMap::remove`: the key leaves the map, and its list is handed back.
#[verifier::external_body]
pub fn lists_remove(m: &mut MultiMap<usize, u64>, k: usize) -> (r: Option<Vec<u64>>)
    ensures
        id_lists(*final(m)) == id_lists(*old(m)).remove(k),
        r is Some <==> id_lists(*old(m)).contains_key(k),
        r matches Some(v) ==> v@ == id_lists(*old(m))[k],
{
    m.remove(&k)
}

/// Relies on `MultiMap::insert_many`: the values are appended, in order, to the list
/// under `k`, which is created when absent.
#[verifier::external_body]
pub fn lists_insert_many(m: &mut MultiMap<usize, u64>, k: usize, vs: Vec<u64>)
    ensures
        id_lists(*final(m)) == id_lists(*old(m)).insert(k, list_at(*old(m), k) + vs@),
{
    m.insert_many(k, vs)
}

/// What a `MultiMap` from entities to entities holds: for each key present, its list of
/// values in insertion order.
pub uninterp spec fn entity_lists(m: MultiMap<usize, usize>) -> Map<usize, Seq<usize>>;

/// The list that `m` holds under `k`, empty if `k` is absent.
pub open spec fn entities_at(m: MultiMap<usize, usize>, k: usize) -> Seq<usize> {
    if entity_lists(m).contains_key(k) { entity_lists(m)[k] } else { Seq::empty() }
}

/// Relies on `MultiMap::new`: an empty map.
#[verifier::external_body]
pub fn entity_lists_new() -> (r: MultiMap<usize, usize>)
    ensures
        entity_lists(r).dom() == Set::<usize>::empty(),
{
    MultiMap::new()
}

/// Relies on `MultiMap::insert`: `v` is pushed at the end of the list under `k`, which is
/// created when absent.
#[verifier::external_body]
pub fn entity_lists_insert(m: &mut MultiMap<usize, usize>, k: usize, v: usize)
    ensures
        entity_lists(*final(m)) == entity_lists(*old(m)).insert(k, entities_at(*old(m), k).push(v)),
{
    m.insert(k, v)
}

/// Relies on `MultiMap::get_vec`: a copy of the list under `k`, if `k` is present.
#[verifier::external_body]
pub fn entity_lists_get(m: &MultiMap<usize, usize>, k: usize) -> (r: Option<Vec<usize>>)
    ensures
        r is Some <==> entity_lists(*m).contains_key(k),
        r matches Some(v) ==> v@ == entity_lists(*m)[k],
{
    m.get_vec(&k).cloned()
}

} // verus!
