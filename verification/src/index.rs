//! The hash indexes behind the caches.
//!
//! Both caches look keys up through a hashbrown hash table. The tables are
//! held in opaque holder structs; the wrapper functions below make the
//! hashbrown calls, and their contracts state what each call does to the
//! abstract contents named by `map_index_view` and `set_index_view`.

use vstd::prelude::*;

verus! {

/// Hash index of the keyed cache: a hashbrown hash map from key to value.
#[derive(Debug)]
#[verifier::external_body]
pub struct MapIndex {
    inner: hashbrown::HashMap<u64, u64>,
}

/// The abstract contents of a `MapIndex`: the mathematical map it holds.
pub uninterp spec fn map_index_view(idx: MapIndex) -> Map<u64, u64>;

/// Hash index of the key-only cache: a hashbrown hash set of keys.
#[derive(Debug)]
#[verifier::external_body]
pub struct SetIndex {
    inner: hashbrown::HashSet<u64>,
}

/// The abstract contents of a `SetIndex`: the mathematical set it holds.
pub uninterp spec fn set_index_view(idx: SetIndex) -> Set<u64>;

/// Relies on hashbrown::HashMap::with_capacity: a freshly created map
/// contains no entries.
#[verifier::external_body]
pub(crate) fn map_index_with_capacity(capacity: usize) -> (r: MapIndex)
    ensures
        forall|k: u64| !map_index_view(r).contains_key(k),
{
    MapIndex { inner: hashbrown::HashMap::with_capacity(capacity) }
}

/// Relies on hashbrown::HashMap::insert: maps the key to the value,
/// replacing any value the key was mapped to before; no other key changes.
#[verifier::external_body]
pub(crate) fn map_index_insert(idx: &mut MapIndex, key: u64, value: u64)
    ensures
        map_index_view(*final(idx)) == map_index_view(*old(idx)).insert(key, value),
{
    idx.inner.insert(key, value);
}

/// Relies on hashbrown::HashMap::remove: takes the key's entry out and
/// returns the value it was mapped to, or `None` if the key was absent.
#[verifier::external_body]
pub(crate) fn map_index_remove(idx: &mut MapIndex, key: u64) -> (r: Option<u64>)
    ensures
        map_index_view(*final(idx)) == map_index_view(*old(idx)).remove(key),
        r == (if map_index_view(*old(idx)).contains_key(key) {
            Some(map_index_view(*old(idx))[key])
        } else {
            None
        }),
{
    idx.inner.remove(&key)
}

/// Relies on hashbrown::HashMap::get: returns a reference to the key's
/// value, or `None` if the key is absent.
#[verifier::external_body]
pub(crate) fn map_index_get(idx: &MapIndex, key: u64) -> (r: Option<&u64>)
    ensures
        r == (if map_index_view(*idx).contains_key(key) {
            Some(&map_index_view(*idx)[key])
        } else {
            None
        }),
{
    idx.inner.get(&key)
}

/// Relies on hashbrown::HashMap::contains_key: tells whether the key has an
/// entry in the map.
#[verifier::external_body]
pub(crate) fn map_index_contains(idx: &MapIndex, key: u64) -> (r: bool)
    ensures
        r == map_index_view(*idx).contains_key(key),
{
    idx.inner.contains_key(&key)
}

/// Relies on hashbrown::HashSet::with_capacity: a freshly created set
/// contains no keys.
#[verifier::external_body]
pub(crate) fn set_index_with_capacity(capacity: usize) -> (r: SetIndex)
    ensures
        forall|k: u64| !set_index_view(r).contains(k),
{
    SetIndex { inner: hashbrown::HashSet::with_capacity(capacity) }
}

/// Relies on hashbrown::HashSet::insert: adds the key; no other key changes.
#[verifier::external_body]
pub(crate) fn set_index_insert(idx: &mut SetIndex, key: u64)
    ensures
        set_index_view(*final(idx)) == set_index_view(*old(idx)).insert(key),
{
    idx.inner.insert(key);
}

/// Relies on hashbrown::HashSet::remove: takes the key out and returns
/// whether it was present.
#[verifier::external_body]
pub(crate) fn set_index_remove(idx: &mut SetIndex, key: u64) -> (r: bool)
    ensures
        set_index_view(*final(idx)) == set_index_view(*old(idx)).remove(key),
        r == set_index_view(*old(idx)).contains(key),
{
    idx.inner.remove(&key)
}

/// Relies on hashbrown::HashSet::contains: tells whether the key is in the
/// set.
#[verifier::external_body]
pub(crate) fn set_index_contains(idx: &SetIndex, key: u64) -> (r: bool)
    ensures
        r == set_index_view(*idx).contains(key),
{
    idx.inner.contains(&key)
}

} // verus!
