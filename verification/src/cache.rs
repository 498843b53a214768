//! A bounded store of the moves of fields, least recently used first out.
//!
//! The store is an `lru::LruCache` keyed by the cells of a field.  Verus
//! does not look inside it: what this module says of its methods is taken
//! from the crate's source and not proved.

use std::num::NonZeroUsize;
use lru::LruCache;
use vstd::prelude::*;
use crate::grid::{is_grid, TOTAL_CELLS};
use crate::region::{are_moves, Region, RegionView, views};

verus! {

/// `lru::LruCache`, of which Verus is told that it exists and no more.
#[verifier::external_type_specification]
#[verifier::external_body]
#[verifier::reject_recursive_types(K)]
#[verifier::reject_recursive_types(V)]
#[verifier::reject_recursive_types(S)]
pub struct ExLruCache<K, V, S>(LruCache<K, V, S>);

/// `lru::DefaultHasher`, the hasher of a cache made by `LruCache::new`; of
/// it too Verus is told that it exists and no more.
#[verifier::external_type_specification]
#[verifier::external_body]
pub struct ExCacheHasher(lru::DefaultHasher);

/// A store of the moves of fields.
pub type RegionCache = LruCache<[i8; TOTAL_CELLS], Vec<Region>>;

/// The entries of a store: for the cells of each field that it holds, the
/// regions kept for it.
pub uninterp spec fn cache_entries(cache: &RegionCache) -> Map<Seq<i8>, Seq<RegionView>>;

/// Whether every entry of the store holds the moves of its field.
pub open spec fn cache_sound(cache: &RegionCache) -> bool {
    forall|cells: Seq<i8>| #[trigger]
        cache_entries(cache).contains_key(cells) ==> is_grid(cells) && are_moves(
            cells,
            cache_entries(cache)[cells],
        )
}

/// A store without entries that holds at most `capacity` of them, and one
/// where `capacity` is zero.
pub fn empty_cache(capacity: usize) -> (cache: RegionCache)
    ensures
        cache_sound(&cache),
        forall|cells: Seq<i8>| !(#[trigger] cache_entries(&cache).contains_key(cells)),
{
    if capacity == 0 {
        new_cache(1)
    } else {
        new_cache(capacity)
    }
}

/// `LruCache::new`: a store without entries that holds at most `capacity`
/// of them.
#[verifier::external_body]
pub(crate) fn new_cache(capacity: usize) -> (cache: RegionCache)
    requires
        capacity > 0,
    ensures
        forall|cells: Seq<i8>| !(#[trigger] cache_entries(&cache).contains_key(cells)),
{
    LruCache::new(NonZeroUsize::new(capacity).unwrap())
}

/// `LruCache::get`: a copy of the regions kept for the field `cells`, if
/// there are any.  The call makes the entry the most recently used one and
/// leaves the entries as they are.
#[verifier::external_body]
pub(crate) fn cache_get(
    cache: &mut RegionCache,
    cells: &[i8; TOTAL_CELLS],
) -> (found: Option<Vec<Region>>)
    ensures
        cache_entries(final(cache)) == cache_entries(old(cache)),
        match found {
            Some(regions) => cache_entries(old(cache)).contains_key(cells@) && views(regions@)
                == cache_entries(old(cache))[cells@],
            None => !cache_entries(old(cache)).contains_key(cells@),
        },
{
    cache.get(cells).cloned()
}

/// `LruCache::put`: keeps `regions` for the field `cells`.  Where the store
/// is full and has no entry for `cells`, the least recently used entry
/// leaves; no other entry changes.
#[verifier::external_body]
pub(crate) fn cache_put(
    cache: &mut RegionCache,
    cells: [i8; TOTAL_CELLS],
    regions: Vec<Region>,
)
    ensures
        cache_entries(final(cache)).contains_key(cells@),
        cache_entries(final(cache))[cells@] == views(regions@),
        forall|other: Seq<i8>| #[trigger]
            cache_entries(final(cache)).contains_key(other) && other != cells@ ==> cache_entries(
                old(cache),
            ).contains_key(other) && cache_entries(final(cache))[other] == cache_entries(
                old(cache),
            )[other],
{
    cache.put(cells, regions);
}

} // verus!
