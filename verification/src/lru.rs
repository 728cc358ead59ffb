//! The recency-ordered map that backs the dataset cache, and the statement of
//! what each of its operations does to the entries it holds.

use vstd::prelude::*;
use lru_cache::LruCache;
use std::hash::{BuildHasher, Hash};

verus! {

/// Key-value pairs in recency order, least recently used first. A key is its
/// 32 bytes; a value is the number that stands for a dataset.
pub type Entries = Seq<(Seq<u8>, u64)>;

/// `lru_cache::LruCache`, taken as an opaque value: what it holds is spoken of
/// through `lru_entries` and `lru_capacity` only.
#[verifier::external_type_specification]
#[verifier::external_body]
#[verifier::reject_recursive_types(K)]
#[verifier::reject_recursive_types(V)]
#[verifier::reject_recursive_types(S)]
pub struct ExLruCache<K: Eq + Hash, V, S: BuildHasher>(lru_cache::LruCache<K, V, S>);

/// What an `LruCache` holds: its key-value pairs from the least recently used
/// to the most recently used, each key as its 32 bytes.
pub uninterp spec fn lru_entries(cache: LruCache<[u8; 32], u64>) -> Seq<(Seq<u8>, u64)>;

/// The capacity that an `LruCache` was made with.
pub uninterp spec fn lru_capacity(cache: LruCache<[u8; 32], u64>) -> nat;

/// The index of the entry with the given key, or -1 where no entry has it.
pub open spec fn position(entries: Entries, key: Seq<u8>) -> int
    decreases entries.len(),
{
    if entries.len() == 0 {
        -1
    } else if entries.last().0 == key {
        entries.len() - 1
    } else {
        position(entries.drop_last(), key)
    }
}

/// The value stored under a key, if any.
pub open spec fn value_of(entries: Entries, key: Seq<u8>) -> Option<u64> {
    let p = position(entries, key);
    if p < 0 {
        None
    } else {
        Some(entries[p].1)
    }
}

/// The entries after a key was used: its entry, if there is one, has moved to
/// the most recently used end.
pub open spec fn refreshed(entries: Entries, key: Seq<u8>) -> Entries {
    let p = position(entries, key);
    if p < 0 {
        entries
    } else {
        entries.remove(p).push(entries[p])
    }
}

/// The entries after a key was linked in at the most recently used end,
/// before any eviction: a former entry of that key is gone.
pub open spec fn linked(entries: Entries, key: Seq<u8>, value: u64) -> Entries {
    let p = position(entries, key);
    if p < 0 {
        entries.push((key, value))
    } else {
        entries.remove(p).push((key, value))
    }
}

/// The entries after an insertion under a capacity: the pair is linked in,
/// and where that exceeds the capacity the least recently used entry leaves.
pub open spec fn inserted(entries: Entries, capacity: nat, key: Seq<u8>, value: u64) -> Entries {
    let all = linked(entries, key, value);
    if all.len() > capacity {
        all.subrange(1, all.len() as int)
    } else {
        all
    }
}

/// No key occurs in two entries.
pub open spec fn keys_distinct(entries: Entries) -> bool {
    forall|i: int, j: int|
        0 <= i < entries.len() && 0 <= j < entries.len() && i != j ==> entries[i].0 != entries[j].0
}

/// `LruCache::new`: an empty cache of the given capacity.
#[verifier::external_body]
pub(crate) fn lru_new(capacity: usize) -> (cache: LruCache<[u8; 32], u64>)
    ensures
        lru_entries(cache) == Seq::<(Seq<u8>, u64)>::empty(),
        lru_capacity(cache) == capacity,
{
    LruCache::new(capacity)
}

/// `LruCache::len`: the number of entries held.
#[verifier::external_body]
pub(crate) fn lru_len(cache: &LruCache<[u8; 32], u64>) -> (n: usize)
    ensures
        n == lru_entries(*cache).len(),
{
    cache.len()
}

/// `LruCache::get_mut`, with the value copied out: the value under the key if
/// the key is held, and then that entry becomes the most recently used; the
/// other entries keep their order, and a miss changes nothing.
#[verifier::external_body]
pub(crate) fn lru_get(cache: &mut LruCache<[u8; 32], u64>, key: &[u8; 32]) -> (found: Option<u64>)
    ensures
        found == value_of(lru_entries(*old(cache)), key@),
        lru_entries(*final(cache)) == refreshed(lru_entries(*old(cache)), key@),
        lru_capacity(*final(cache)) == lru_capacity(*old(cache)),
{
    match cache.get_mut(key) {
        Some(value) => Some(*value),
        None => None,
    }
}

/// `LruCache::insert`: the pair becomes the most recently used entry, taking
/// the place of a former entry of the same key, whose value is returned; if
/// the cache then holds more than its capacity, the least recently used entry
/// is dropped.
#[verifier::external_body]
pub(crate) fn lru_insert(cache: &mut LruCache<[u8; 32], u64>, key: [u8; 32], value: u64) -> (former: Option<u64>)
    ensures
        former == value_of(lru_entries(*old(cache)), key@),
        lru_entries(*final(cache)) == inserted(
            lru_entries(*old(cache)),
            lru_capacity(*old(cache)),
            key@,
            value,
        ),
        lru_capacity(*final(cache)) == lru_capacity(*old(cache)),
{
    cache.insert(key, value)
}

/// `LruCache::iter`, first item: the least recently used entry, or nothing
/// for an empty cache.
#[verifier::external_body]
pub(crate) fn lru_oldest(cache: &LruCache<[u8; 32], u64>) -> (oldest: Option<([u8; 32], u64)>)
    ensures
        oldest is Some <==> lru_entries(*cache).len() > 0,
        oldest matches Some(e) ==> e.0@ == lru_entries(*cache)[0].0 && e.1 == lru_entries(*cache)[0].1,
{
    match cache.iter().next() {
        Some((key, value)) => Some((*key, *value)),
        None => None,
    }
}

/// What `position` finds: an index of an entry with the key, or -1 exactly
/// where no entry has the key.
pub proof fn lemma_position(entries: Entries, key: Seq<u8>)
    ensures
        -1 <= position(entries, key) < entries.len(),
        position(entries, key) >= 0 ==> entries[position(entries, key)].0 == key,
        position(entries, key) < 0 ==> forall|i: int| 0 <= i < entries.len() ==> entries[i].0 != key,
    decreases entries.len(),
{
    if entries.len() > 0 && entries.last().0 != key {
        lemma_position(entries.drop_last(), key);
        assert forall|i: int| 0 <= i < entries.len() && position(entries, key) < 0 implies entries[i].0
            != key by {
            if i < entries.len() - 1 {
                assert(entries.drop_last()[i] == entries[i]);
            }
        }
    }
}

/// With distinct keys, the entry that holds a key is the one `position` finds.
pub proof fn lemma_position_unique(entries: Entries, key: Seq<u8>, i: int)
    requires
        keys_distinct(entries),
        0 <= i < entries.len(),
        entries[i].0 == key,
    ensures
        position(entries, key) == i,
{
    lemma_position(entries, key);
}

} // verus!
