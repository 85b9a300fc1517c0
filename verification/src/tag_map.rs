//! The hash map from tag to index that the registries keep.

use vstd::prelude::*;
use ahash::AHashMap;

verus! {

/// `ahash::AHashMap`, a hash map, which is read and filled through the
/// functions below only.
#[verifier::external_type_specification]
#[verifier::external_body]
#[verifier::reject_recursive_types(K)]
#[verifier::reject_recursive_types(V)]
#[verifier::reject_recursive_types(S)]
pub struct ExAHashMap<K, V, S>(ahash::AHashMap<K, V, S>);

/// `ahash::RandomState`, which the map hashes with.
#[verifier::external_type_specification]
#[verifier::external_body]
pub struct ExRandomState(ahash::RandomState);

/// The entries of a map from tag to index: what `ahash::AHashMap::get`
/// finds for each key.
pub uninterp spec fn tag_indices(map: AHashMap<Vec<u8>, usize>) -> Map<Seq<u8>, usize>;

/// A map without entries.
pub open spec fn no_entries() -> Map<Seq<u8>, usize> {
    Map::empty()
}

/// `ahash::AHashMap::new` makes a map without entries.
#[verifier::external_body]
pub(crate) fn tag_map_new() -> (fresh: AHashMap<Vec<u8>, usize>)
    ensures
        tag_indices(fresh) == no_entries(),
{
    AHashMap::new()
}

/// `ahash::AHashMap::get` returns the index kept for `tag`, or `None` where
/// the map has no entry for it.
#[verifier::external_body]
pub(crate) fn tag_map_get(map: &AHashMap<Vec<u8>, usize>, tag: &[u8]) -> (index: Option<usize>)
    ensures
        index == if tag_indices(*map).contains_key(tag@) {
            Some(tag_indices(*map)[tag@])
        } else {
            None
        },
{
    map.get(tag).copied()
}

/// `ahash::AHashMap::insert` makes `index` the entry of `tag` and leaves the
/// other entries as they are.
#[verifier::external_body]
pub(crate) fn tag_map_insert(map: &mut AHashMap<Vec<u8>, usize>, tag: &[u8], index: usize)
    ensures
        tag_indices(*final(map)) == tag_indices(*old(map)).insert(tag@, index),
{
    map.insert(tag.to_vec(), index);
}

/// `std::collections::HashMap::len`, which the map hands on, counts the
/// entries.
#[verifier::external_body]
pub(crate) fn tag_map_len(map: &AHashMap<Vec<u8>, usize>) -> (n: usize)
    ensures
        n == tag_indices(*map).dom().len(),
{
    map.len()
}

} // verus!
