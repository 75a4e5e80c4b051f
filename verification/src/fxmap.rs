//! Maps keyed by slice index, hashed with rustc-hash's `FxBuildHasher`.
//! Their contents are described by the map view that vstd gives
//! `std::collections::HashMap`.
use rustc_hash::FxBuildHasher;
use std::collections::HashMap;
use vstd::prelude::*;

verus! {

/// rustc-hash's hasher builder.
#[verifier::external_type_specification]
#[verifier::external_body]
pub struct ExFxBuildHasher(FxBuildHasher);

/// Slice data by slice index.
pub type SliceMap = HashMap<usize, Vec<u8>, FxBuildHasher>;

/// Global slice index by file-local slice index.
pub type IndexMap = HashMap<usize, usize, FxBuildHasher>;

/// `HashMap::default`: an empty map.
#[verifier::external_body]
pub(crate) fn slice_map_new() -> (m: SliceMap)
    ensures
        forall|k: usize| !m@.contains_key(k),
{
    HashMap::default()
}

/// `HashMap::insert`: the key now maps to the value.
#[verifier::external_body]
pub(crate) fn slice_map_insert(m: &mut SliceMap, key: usize, value: Vec<u8>)
    ensures
        final(m)@ == old(m)@.insert(key, value),
{
    m.insert(key, value);
}

/// `HashMap::get`: the value of the key, if it has one.
#[verifier::external_body]
pub(crate) fn slice_map_get(m: &SliceMap, key: usize) -> (r: Option<&Vec<u8>>)
    ensures
        r is Some <==> m@.contains_key(key),
        r matches Some(v) ==> *v == m@[key],
{
    m.get(&key)
}

/// `HashMap::keys`, collected: every key once, in the map's own order.
#[verifier::external_body]
pub(crate) fn slice_map_keys(m: &SliceMap) -> (keys: Vec<usize>)
    ensures
        keys@.no_duplicates(),
        keys@.to_set() == m@.dom(),
{
    m.keys().copied().collect()
}

/// `HashMap::get` on an index map.
#[verifier::external_body]
pub(crate) fn index_map_get(m: &IndexMap, key: usize) -> (r: Option<usize>)
    ensures
        r is Some <==> m@.contains_key(key),
        r matches Some(v) ==> v == m@[key],
{
    m.get(&key).copied()
}

} // verus!
