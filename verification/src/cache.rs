//! Bounded, least-recently-used caches, backed by the `lru` crate.
//!
//! The identity table keeps one cache per direction so that hot identifiers
//! are answered without touching the backing store. The contracts here state
//! only what the `lru` sources show: a fresh cache is empty, `get` returns
//! what is cached under the key without changing the contents, and `put`
//! stores the given pair while evicting at most other, older entries.

use std::collections::hash_map::RandomState;
use vstd::prelude::*;

verus! {

/// A value-to-identifier cache.
pub type FwdCache = lru::LruCache<String, u64, RandomState>;

/// An identifier-to-value cache.
pub type BwdCache = lru::LruCache<u64, String, RandomState>;

#[verifier::external_type_specification]
#[verifier::external_body]
#[verifier::reject_recursive_types(K)]
#[verifier::reject_recursive_types(V)]
#[verifier::reject_recursive_types(S)]
pub struct ExLruCache<K, V, S>(lru::LruCache<K, V, S>);

/// What a value-to-identifier cache holds.
pub uninterp spec fn cache_fwd(c: FwdCache) -> Map<Seq<char>, u64>;

/// What an identifier-to-value cache holds.
pub uninterp spec fn cache_bwd(c: BwdCache) -> Map<u64, Seq<char>>;

/// Relies on lru::LruCache::new: a fresh cache holds nothing.
#[verifier::external_body]
pub(crate) fn lru_new_fwd(cap: usize) -> (r: FwdCache)
    requires
        cap >= 1,
    ensures
        forall|q: Seq<char>| !cache_fwd(r).contains_key(q),
{
    lru::LruCache::with_hasher(std::num::NonZeroUsize::new(cap).unwrap(), RandomState::new())
}

/// Relies on lru::LruCache::new: a fresh cache holds nothing.
#[verifier::external_body]
pub(crate) fn lru_new_bwd(cap: usize) -> (r: BwdCache)
    requires
        cap >= 1,
    ensures
        forall|q: u64| !cache_bwd(r).contains_key(q),
{
    lru::LruCache::with_hasher(std::num::NonZeroUsize::new(cap).unwrap(), RandomState::new())
}

/// Relies on lru::LruCache::get: answers from the cached contents, moving
/// the entry to most-recently-used without changing what is held.
#[verifier::external_body]
pub(crate) fn lru_get_fwd(c: &mut FwdCache, k: &String) -> (r: Option<u64>)
    ensures
        cache_fwd(*final(c)) == cache_fwd(*old(c)),
        match r {
            Some(v) => cache_fwd(*old(c)).contains_pair(k@, v),
            None => !cache_fwd(*old(c)).contains_key(k@),
        },
{
    c.get(k).copied()
}

/// Relies on lru::LruCache::get: answers from the cached contents, moving
/// the entry to most-recently-used without changing what is held.
#[verifier::external_body]
pub(crate) fn lru_get_bwd(c: &mut BwdCache, k: u64) -> (r: Option<String>)
    ensures
        cache_bwd(*final(c)) == cache_bwd(*old(c)),
        match r {
            Some(v) => cache_bwd(*old(c)).contains_pair(k, v@),
            None => !cache_bwd(*old(c)).contains_key(k),
        },
{
    c.get(&k).cloned()
}

/// Relies on lru::LruCache::put: stores the pair; any other entry either
/// keeps its value or is evicted to respect the capacity bound.
#[verifier::external_body]
pub(crate) fn lru_put_fwd(c: &mut FwdCache, k: String, v: u64)
    ensures
        cache_fwd(*final(c)).contains_pair(k@, v),
        forall|q: Seq<char>|
            q != k@ && #[trigger] cache_fwd(*final(c)).contains_key(q)
                ==> cache_fwd(*old(c)).contains_key(q)
                && cache_fwd(*final(c))[q] == cache_fwd(*old(c))[q],
{
    let _ = c.put(k, v);
}

/// Relies on lru::LruCache::put: stores the pair; any other entry either
/// keeps its value or is evicted to respect the capacity bound.
#[verifier::external_body]
pub(crate) fn lru_put_bwd(c: &mut BwdCache, k: u64, v: String)
    ensures
        cache_bwd(*final(c)).contains_pair(k, v@),
        forall|q: u64|
            q != k && #[trigger] cache_bwd(*final(c)).contains_key(q)
                ==> cache_bwd(*old(c)).contains_key(q)
                && cache_bwd(*final(c))[q] == cache_bwd(*old(c))[q],
{
    let _ = c.put(k, v);
}

} // verus!
