use vstd::prelude::*;
use lru::LruCache;
use std::num::NonZeroUsize;
use std::collections::hash_map::RandomState;
use crate::cache::CacheEntry;

verus! {

/// The `lru` crate's cache, declared so that signatures can hold it; its
/// contents are seen only through `lru_entries` and `lru_cap`.
#[verifier::external_type_specification]
#[verifier::external_body]
#[verifier::reject_recursive_types(K)]
#[verifier::reject_recursive_types(V)]
#[verifier::reject_recursive_types(S)]
pub struct ExLruCache<K, V, S>(LruCache<K, V, S>);

/// The LRU cache of fingerprints that the query cache keeps.
pub type FpCache = LruCache<[u8; 32], CacheEntry, RandomState>;

/// The entries of an LRU cache of fingerprints, most recently used first, each
/// key taken by its bytes.
pub uninterp spec fn lru_entries(c: FpCache) -> Seq<(Seq<u8>, CacheEntry)>;

/// The capacity an LRU cache of fingerprints was made with.
pub uninterp spec fn lru_cap(c: FpCache) -> nat;

/// Whether some entry of `s` has key `k`.
pub open spec fn has_key(s: Seq<(Seq<u8>, CacheEntry)>, k: Seq<u8>) -> bool {
    exists|i: int| 0 <= i < s.len() && #[trigger] s[i].0 == k
}

/// The position of the entry with key `k` (meaningful when `has_key(s, k)`).
pub open spec fn key_pos(s: Seq<(Seq<u8>, CacheEntry)>, k: Seq<u8>) -> int {
    choose|i: int| 0 <= i < s.len() && #[trigger] s[i].0 == k
}

/// No key occurs twice.
pub open spec fn distinct_keys(s: Seq<(Seq<u8>, CacheEntry)>) -> bool {
    forall|i: int, j: int| 0 <= i < s.len() && 0 <= j < s.len() && i != j ==> #[trigger] s[i].0 != #[trigger] s[j].0
}

/// `s` with its `i`-th entry moved to the front.
pub open spec fn promote(s: Seq<(Seq<u8>, CacheEntry)>, i: int) -> Seq<(Seq<u8>, CacheEntry)> {
    seq![s[i]] + s.remove(i)
}

/// Calls `LruCache::with_hasher` with std's `RandomState`. The new cache is empty and keeps the capacity given.
/// That the allocation of `cap` slots succeeds is not stated.
#[verifier::external_body]
pub(crate) fn lru_new(cap: usize) -> (c: FpCache)
    requires
        cap > 0,
    ensures
        lru_entries(c) == Seq::<(Seq<u8>, CacheEntry)>::empty(),
        lru_cap(c) == cap,
{
    LruCache::with_hasher(NonZeroUsize::new(cap).unwrap(), RandomState::new())
}

/// Calls `LruCache::get` and reports whether it found the key. As the crate's
/// source shows, a found entry moves to the front (most recently used); the
/// cache is otherwise unchanged.
#[verifier::external_body]
pub(crate) fn lru_get(c: &mut FpCache, k: &[u8; 32]) -> (found: bool)
    ensures
        found == has_key(lru_entries(*old(c)), k@),
        found ==> lru_entries(*final(c)) == promote(lru_entries(*old(c)), key_pos(lru_entries(*old(c)), k@)),
        !found ==> lru_entries(*final(c)) == lru_entries(*old(c)),
        lru_cap(*final(c)) == lru_cap(*old(c)),
{
    c.get(k).is_some()
}

/// Calls `LruCache::peek`, which finds the entry with key `k` without moving it.
#[verifier::external_body]
pub(crate) fn lru_peek<'a>(c: &'a FpCache, k: &[u8; 32]) -> (r: Option<&'a CacheEntry>)
    ensures
        r is Some == has_key(lru_entries(*c), k@),
        r matches Some(e) ==> *e == lru_entries(*c)[key_pos(lru_entries(*c), k@)].1,
{
    c.peek(k)
}

/// Calls `LruCache::pop`, which removes the entry with key `k` and returns its value.
#[verifier::external_body]
pub(crate) fn lru_pop(c: &mut FpCache, k: &[u8; 32]) -> (r: Option<CacheEntry>)
    ensures
        r is Some == has_key(lru_entries(*old(c)), k@),
        r matches Some(e) ==> e == lru_entries(*old(c))[key_pos(lru_entries(*old(c)), k@)].1,
        r is Some ==> lru_entries(*final(c)) == lru_entries(*old(c)).remove(key_pos(lru_entries(*old(c)), k@)),
        r is None ==> lru_entries(*final(c)) == lru_entries(*old(c)),
        lru_cap(*final(c)) == lru_cap(*old(c)),
{
    c.pop(k)
}

/// Calls `LruCache::put`. As the crate's source shows: the new entry goes to
/// the front; an entry with the same key is replaced and its value returned;
/// otherwise, when the cache is full, its least recently used entry (the last)
/// is dropped and nothing is returned.
#[verifier::external_body]
pub(crate) fn lru_put(c: &mut FpCache, k: [u8; 32], v: CacheEntry) -> (r: Option<CacheEntry>)
    ensures
        ({
            let s = lru_entries(*old(c));
            if has_key(s, k@) {
                &&& r == Some(s[key_pos(s, k@)].1)
                &&& lru_entries(*final(c)) == seq![(k@, v)] + s.remove(key_pos(s, k@))
            } else if s.len() == lru_cap(*old(c)) {
                &&& r is None
                &&& lru_entries(*final(c)) == seq![(k@, v)] + s.drop_last()
            } else {
                &&& r is None
                &&& lru_entries(*final(c)) == seq![(k@, v)] + s
            }
        }),
        lru_cap(*final(c)) == lru_cap(*old(c)),
{
    c.put(k, v)
}

/// Calls `LruCache::iter` and keeps the keys, most recently used first.
#[verifier::external_body]
pub(crate) fn lru_keys(c: &FpCache) -> (keys: Vec<[u8; 32]>)
    ensures
        keys@.len() == lru_entries(*c).len(),
        forall|i: int| 0 <= i < keys@.len() ==> #[trigger] keys@[i]@ == lru_entries(*c)[i].0,
{
    c.iter().map(|(k, _)| *k).collect()
}

} // verus!
