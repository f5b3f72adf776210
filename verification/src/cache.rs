//! The bounded cache of per-file tallies, least recently used out first.

use crate::blame::{BlameId, BlameIdView};
use lru::LruCache;
use std::num::NonZeroUsize;
use vstd::prelude::*;

verus! {

/// `lru::LruCache`, a bounded map that evicts the entry that was used least
/// recently. Nothing is known of its inside; the wrappers below speak of its
/// entries and its limit.
#[verifier::external_type_specification]
#[verifier::external_body]
#[verifier::reject_recursive_types(K)]
#[verifier::reject_recursive_types(V)]
#[verifier::reject_recursive_types(S)]
pub struct ExLruCache<K, V, S>(LruCache<K, V, S>);

/// `lru::DefaultHasher`, the hasher that an `LruCache` uses unless it is
/// given another one.
#[verifier::external_type_specification]
#[verifier::external_body]
pub struct ExDefaultHasher(lru::DefaultHasher);

/// The position of the first entry under `key`; the length of the list
/// where there is none.
pub open spec fn key_index<KV, VV>(entries: Seq<(KV, VV)>, key: KV) -> int
    decreases entries.len(),
{
    if entries.len() == 0 {
        0
    } else if entries[0].0 == key {
        0
    } else {
        1 + key_index(entries.drop_first(), key)
    }
}

/// The entries after a lookup of `key`: a hit moves to the front.
pub open spec fn after_get<KV, VV>(entries: Seq<(KV, VV)>, key: KV) -> Seq<(KV, VV)> {
    let i = key_index(entries, key);
    if i < entries.len() {
        seq![entries[i]] + entries.remove(i)
    } else {
        entries
    }
}

/// The entries after `value` was put under `key`: the new entry stands at
/// the front, in place of the old entry under that key if there was one, or
/// else, in a full cache, of the last entry.
pub open spec fn after_put<KV, VV>(entries: Seq<(KV, VV)>, cap: nat, key: KV, value: VV) -> Seq<
    (KV, VV),
> {
    let i = key_index(entries, key);
    if i < entries.len() {
        seq![(key, value)] + entries.remove(i)
    } else if entries.len() >= cap && entries.len() > 0 {
        seq![(key, value)] + entries.drop_last()
    } else {
        seq![(key, value)] + entries
    }
}

/// Where `key_index` points.
pub proof fn lemma_key_index<KV, VV>(entries: Seq<(KV, VV)>, key: KV)
    ensures
        0 <= key_index(entries, key) <= entries.len(),
        key_index(entries, key) < entries.len() ==> entries[key_index(entries, key)].0 == key,
        forall|j: int| 0 <= j < key_index(entries, key) ==> entries[j].0 != key,
    decreases entries.len(),
{
    if entries.len() > 0 && entries[0].0 != key {
        let rest = entries.drop_first();
        lemma_key_index(rest, key);
        assert forall|j: int| 0 <= j < key_index(entries, key) implies entries[j].0 != key by {
            if j > 0 {
                assert(rest[j - 1] == entries[j]);
            }
        }
    }
}

/// A lookup keeps the number of entries, and a put never takes a cache
/// beyond its limit.
pub proof fn lemma_cache_stays_bounded<KV, VV>(entries: Seq<(KV, VV)>, cap: nat, key: KV, value: VV)
    requires
        cap >= 1,
    ensures
        after_get(entries, key).len() == entries.len(),
        entries.len() <= cap ==> after_put(entries, cap, key, value).len() <= cap,
{
    lemma_key_index(entries, key);
}

/// An identifier as a cache key.
pub open spec fn id_key(id: BlameIdView) -> KeyView {
    (id.commit, id.blob, id.path)
}

/// A cache of per-author tallies, keyed by the three fields of an
/// identifier.
pub type AuthorCache = LruCache<(String, String, String), Vec<(String, u64)>>;

/// The key of a cache entry, as texts.
pub type KeyView = (Seq<char>, Seq<char>, Seq<char>);

/// The entries of a cache of per-author tallies, the most recently used
/// first.
pub uninterp spec fn author_entries(cache: AuthorCache) -> Seq<(KeyView, Seq<(Seq<char>, u64)>)>;

/// The number of entries that a cache of per-author tallies holds at most.
pub uninterp spec fn author_cap(cache: AuthorCache) -> nat;

/// The texts and counts of a list of `(author, lines)` pairs.
pub open spec fn author_pairs(pairs: Seq<(String, u64)>) -> Seq<(Seq<char>, u64)> {
    pairs.map_values(|p: (String, u64)| (p.0@, p.1))
}

/// Calls `LruCache::new`. The new cache is empty and holds at most `cap`
/// entries.
#[verifier::external_body]
pub(crate) fn author_cache_new(cap: usize) -> (cache: AuthorCache)
    requires
        cap > 0,
    ensures
        author_entries(cache).len() == 0,
        author_cap(cache) == cap,
{
    LruCache::new(NonZeroUsize::new(cap).unwrap())
}

/// Calls `LruCache::get`. A hit hands out the value under the key and moves
/// its entry to the front; a miss leaves the cache as it is.
#[verifier::external_body]
pub(crate) fn author_cache_get<'a>(cache: &'a mut AuthorCache, id: &BlameId) -> (hit: Option<&'a Vec<(String, u64)>>)
    ensures
        author_entries(*final(cache)) == after_get(author_entries(*old(cache)), id_key(id@)),
        author_cap(*final(cache)) == author_cap(*old(cache)),
        match hit {
            Some(pairs) => {
                let i = key_index(author_entries(*old(cache)), id_key(id@));
                i < author_entries(*old(cache)).len() && author_pairs(pairs@) == author_entries(
                    *old(cache),
                )[i].1
            },
            None => key_index(author_entries(*old(cache)), id_key(id@)) == author_entries(
                *old(cache),
            ).len(),
        },
{
    cache.get(&(id.commit.clone(), id.blob.clone(), id.path.clone()))
}

/// Calls `LruCache::put`. The new entry stands at the front; it replaces the
/// old entry under the key if there was one, or else, in a full cache, the
/// least recently used entry.
#[verifier::external_body]
pub(crate) fn author_cache_put(cache: &mut AuthorCache, id: BlameId, pairs: Vec<(String, u64)>)
    ensures
        author_entries(*final(cache)) == after_put(
            author_entries(*old(cache)),
            author_cap(*old(cache)),
            id_key(id@),
            author_pairs(pairs@),
        ),
        author_cap(*final(cache)) == author_cap(*old(cache)),
{
    cache.put((id.commit, id.blob, id.path), pairs);
}

/// A cache of per-year tallies, keyed by the three fields of an identifier.
pub type YearCache = LruCache<(String, String, String), Vec<(i16, u64)>>;

/// The entries of a cache of per-year tallies, the most recently used first.
pub uninterp spec fn year_entries(cache: YearCache) -> Seq<(KeyView, Seq<(i16, u64)>)>;

/// The number of entries that a cache of per-year tallies holds at most.
pub uninterp spec fn year_cap(cache: YearCache) -> nat;

/// Calls `LruCache::new`. The new cache is empty and holds at most `cap`
/// entries.
#[verifier::external_body]
pub(crate) fn year_cache_new(cap: usize) -> (cache: YearCache)
    requires
        cap > 0,
    ensures
        year_entries(cache).len() == 0,
        year_cap(cache) == cap,
{
    LruCache::new(NonZeroUsize::new(cap).unwrap())
}

/// Calls `LruCache::get`. A hit hands out the value under the key and moves
/// its entry to the front; a miss leaves the cache as it is.
#[verifier::external_body]
pub(crate) fn year_cache_get<'a>(cache: &'a mut YearCache, id: &BlameId) -> (hit: Option<&'a Vec<(i16, u64)>>)
    ensures
        year_entries(*final(cache)) == after_get(year_entries(*old(cache)), id_key(id@)),
        year_cap(*final(cache)) == year_cap(*old(cache)),
        match hit {
            Some(pairs) => {
                let i = key_index(year_entries(*old(cache)), id_key(id@));
                i < year_entries(*old(cache)).len() && pairs@ == year_entries(*old(cache))[i].1
            },
            None => key_index(year_entries(*old(cache)), id_key(id@)) == year_entries(
                *old(cache),
            ).len(),
        },
{
    cache.get(&(id.commit.clone(), id.blob.clone(), id.path.clone()))
}

/// Calls `LruCache::put`. The new entry stands at the front; it replaces the
/// old entry under the key if there was one, or else, in a full cache, the
/// least recently used entry.
#[verifier::external_body]
pub(crate) fn year_cache_put(cache: &mut YearCache, id: BlameId, pairs: Vec<(i16, u64)>)
    ensures
        year_entries(*final(cache)) == after_put(
            year_entries(*old(cache)),
            year_cap(*old(cache)),
            id_key(id@),
            pairs@,
        ),
        year_cap(*final(cache)) == year_cap(*old(cache)),
{
    cache.put((id.commit, id.blob, id.path), pairs);
}

} // verus!
