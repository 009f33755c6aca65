//! The concurrent cache of `mini_moka` that holds the window counters of
//! the memory-bounded rate limiter.
//!
//! The cache is described by what it was built with (its capacity and the
//! time to live of its entries) and by what was stored in it: for each key,
//! the value last inserted under it. The cache may drop an entry on its own,
//! when its time to live runs out or when its size-bounded eviction policy
//! chooses to; so a lookup may find nothing where something was stored, but
//! what it finds is the value last stored under the key.

use vstd::prelude::*;
use mini_moka::sync::Cache;

verus! {

#[verifier::external_type_specification]
#[verifier::external_body]
#[verifier::reject_recursive_types(K)]
#[verifier::reject_recursive_types(V)]
#[verifier::reject_recursive_types(S)]
pub struct ExCache<K, V, S>(Cache<K, V, S>);

/// The longest time to live that `CacheBuilder::build` accepts: it panics on
/// a longer one (1000 years of 365 days, in seconds).
pub const MAX_TIME_TO_LIVE_SECS: u64 = 31_536_000_000;

/// For each key, the value last inserted under it into the cache.
pub uninterp spec fn cache_contents(c: Cache<String, u32>) -> Map<Seq<char>, u32>;

/// The most entries that the cache was built to hold.
pub uninterp spec fn cache_max_capacity(c: Cache<String, u32>) -> u64;

/// The time to live, in seconds, that the cache was built with.
pub uninterp spec fn cache_time_to_live_secs(c: Cache<String, u32>) -> u64;

/// Builds a cache through `Cache::builder`, `CacheBuilder::max_capacity`,
/// `CacheBuilder::time_to_live` (of `Duration::from_secs(ttl_secs)`) and
/// `CacheBuilder::build`: a fresh, empty cache whose policy holds the given
/// capacity and time to live. `build` panics on a time to live above 1000
/// years, which the precondition leaves out.
#[verifier::external_body]
pub(crate) fn new_counter_cache(max_capacity: u64, ttl_secs: u64) -> (r: Cache<String, u32>)
    requires
        ttl_secs <= MAX_TIME_TO_LIVE_SECS,
    ensures
        cache_contents(r).dom() == Set::<Seq<char>>::empty(),
        cache_max_capacity(r) == max_capacity,
        cache_time_to_live_secs(r) == ttl_secs,
{
    Cache::builder()
        .max_capacity(max_capacity)
        .time_to_live(std::time::Duration::from_secs(ttl_secs))
        .build()
}

/// Calls `Cache::get`: a clone of the value the cache holds for `key`. What
/// it finds is the value last inserted under `key`; it may find nothing
/// where the entry expired or was evicted.
#[verifier::external_body]
pub(crate) fn cache_get(cache: &Cache<String, u32>, key: &String) -> (r: Option<u32>)
    ensures
        r matches Some(v) ==> cache_contents(*cache).contains_key(key@) && cache_contents(
            *cache,
        )[key@] == v,
{
    cache.get(key)
}

/// Calls `Cache::insert`, which stores `value` under `key`; the cache's
/// capacity and time to live do not change (its policy is fixed when it is
/// built).
#[verifier::external_body]
pub(crate) fn cache_insert(cache: &mut Cache<String, u32>, key: String, value: u32)
    ensures
        cache_contents(*final(cache)) == cache_contents(*old(cache)).insert(key@, value),
        cache_max_capacity(*final(cache)) == cache_max_capacity(*old(cache)),
        cache_time_to_live_secs(*final(cache)) == cache_time_to_live_secs(*old(cache)),
{
    cache.insert(key, value)
}

} // verus!
