//! The bounded, recency-ordered store of datasets, keyed by epoch key.
//!
//! A dataset is stood for by a number that the caller chooses when it has
//! built one; the cache decides which datasets stay reachable and which one
//! leaves when a new epoch arrives.

use vstd::prelude::*;
use lru_cache::LruCache;
use crate::hash::H256;
use crate::lru::{
    inserted, keys_distinct, lemma_position, lemma_position_unique, linked, lru_capacity,
    lru_entries, lru_get, lru_insert, lru_len, lru_new, lru_oldest, position, refreshed, value_of,
    Entries,
};

verus! {

/// The number of datasets that the cache keeps at most.
pub const CACHE_CAPACITY: usize = 2;

/// The entry that leaves the cache when a dataset is stored under `key`:
/// the former entry of that key if there is one, else the least recently used
/// entry if the cache is full, else none.
pub open spec fn displaced_by(entries: Entries, key: Seq<u8>) -> Option<(Seq<u8>, u64)> {
    let p = position(entries, key);
    if p >= 0 {
        Some(entries[p])
    } else if entries.len() >= CACHE_CAPACITY {
        Some(entries[0])
    } else {
        None
    }
}

/// A shared store of at most `CACHE_CAPACITY` datasets with
/// least-recently-used eviction. Its view lists the entries from the least
/// recently used to the most recently used.
pub struct ResourceCache {
    slots: LruCache<[u8; 32], u64>,
}

impl View for ResourceCache {
    type V = Entries;

    closed spec fn view(&self) -> Entries {
        lru_entries(self.slots)
    }
}

impl ResourceCache {
    /// The cache's invariant: it was made with the fixed capacity, holds no
    /// more entries than that, and no key twice.
    pub closed spec fn wf(&self) -> bool {
        &&& lru_capacity(self.slots) == CACHE_CAPACITY
        &&& self@.len() <= CACHE_CAPACITY
        &&& keys_distinct(self@)
    }

    /// An empty cache.
    pub fn new() -> (cache: ResourceCache)
        ensures
            cache.wf(),
            cache@ == Seq::<(Seq<u8>, u64)>::empty(),
    {
        ResourceCache { slots: lru_new(CACHE_CAPACITY) }
    }

    /// The number of datasets held.
    pub fn len(&self) -> (n: usize)
        requires
            self.wf(),
        ensures
            n == self@.len(),
            n <= CACHE_CAPACITY,
    {
        lru_len(&self.slots)
    }

    /// Looks a key up. A hit returns the dataset held under the key and makes
    /// that entry the most recently used; a miss changes nothing.
    pub fn lookup(&mut self, key: &H256) -> (found: Option<u64>)
        requires
            old(self).wf(),
        ensures
            final(self).wf(),
            found == value_of(old(self)@, key@),
            final(self)@ == refreshed(old(self)@, key@),
    {
        proof {
            lemma_refreshed_valid(self@, key@);
        }
        lru_get(&mut self.slots, &key.0)
    }

    /// Stores a freshly built dataset under a key as the most recently used
    /// entry, and returns the entry that left the cache to make room, if any.
    pub fn insert(&mut self, key: &H256, dataset: u64) -> (displaced: Option<(H256, u64)>)
        requires
            old(self).wf(),
        ensures
            final(self).wf(),
            final(self)@ == inserted(old(self)@, CACHE_CAPACITY as nat, key@, dataset),
            match displaced {
                Some(gone) => displaced_by(old(self)@, key@) == Some((gone.0@, gone.1)),
                None => displaced_by(old(self)@, key@) is None,
            },
    {
        proof {
            lemma_position(self@, key@);
            lemma_inserted_valid(self@, key@, dataset);
        }
        let full = lru_len(&self.slots) >= CACHE_CAPACITY;
        let oldest = lru_oldest(&self.slots);
        let former = lru_insert(&mut self.slots, key.0, dataset);
        match former {
            Some(value) => {
                proof {
                    lemma_position_unique(old(self)@, key@, position(old(self)@, key@));
                }
                Some((*key, value))
            },
            None => {
                if full {
                    match oldest {
                        Some(entry) => Some((H256(entry.0), entry.1)),
                        None => None,
                    }
                } else {
                    None
                }
            },
        }
    }
}

/// A valid cache never holds more datasets than its capacity.
pub proof fn lemma_capacity_bound(cache: ResourceCache)
    requires
        cache.wf(),
    ensures
        cache@.len() <= CACHE_CAPACITY,
        keys_distinct(cache@),
{
}

/// In entries with distinct keys, the value found under the key of the entry
/// at index `i` is that entry's value.
pub proof fn lemma_value_at(entries: Entries, i: int)
    requires
        keys_distinct(entries),
        0 <= i < entries.len(),
    ensures
        value_of(entries, entries[i].0) == Some(entries[i].1),
{
    lemma_position_unique(entries, entries[i].0, i);
}

/// A use keeps what the cache holds: the same number of entries, still with
/// distinct keys, and every key finds the value it found before.
pub proof fn lemma_refreshed_valid(entries: Entries, key: Seq<u8>)
    requires
        keys_distinct(entries),
    ensures
        keys_distinct(refreshed(entries, key)),
        refreshed(entries, key).len() == entries.len(),
        forall|other: Seq<u8>| value_of(refreshed(entries, key), other) == value_of(entries, other),
        position(entries, key) >= 0 ==> refreshed(entries, key).last() == entries[position(
            entries,
            key,
        )],
{
    lemma_position(entries, key);
    let p = position(entries, key);
    let after = refreshed(entries, key);
    if p >= 0 {
        assert forall|i: int| 0 <= i < after.len() implies after[i] == entries[source_index(
            entries.len() as int,
            p,
            i,
        )] by {}
        assert(keys_distinct(after));
        assert forall|other: Seq<u8>| value_of(after, other) == value_of(entries, other) by {
            lemma_position(entries, other);
            lemma_position(after, other);
            let q = position(entries, other);
            let r = position(after, other);
            if q >= 0 {
                let t = if q == p {
                    entries.len() - 1
                } else if q < p {
                    q
                } else {
                    q - 1
                };
                assert(after[t] == entries[q]);
                lemma_position_unique(after, other, t);
            } else if r >= 0 {
                assert(after[r] == entries[source_index(entries.len() as int, p, r)]);
            }
        }
    }
}

/// Where the entry at index `i` stood before the entry at index `p` moved to
/// the end of `len` entries.
pub open spec fn source_index(len: int, p: int, i: int) -> int {
    if i == len - 1 {
        p
    } else if i < p {
        i
    } else {
        i + 1
    }
}

/// An insertion keeps the cache valid and within its capacity, and the
/// inserted key then finds the inserted dataset.
pub proof fn lemma_inserted_valid(entries: Entries, key: Seq<u8>, dataset: u64)
    requires
        keys_distinct(entries),
        entries.len() <= CACHE_CAPACITY,
    ensures
        keys_distinct(inserted(entries, CACHE_CAPACITY as nat, key, dataset)),
        1 <= inserted(entries, CACHE_CAPACITY as nat, key, dataset).len() <= CACHE_CAPACITY,
        inserted(entries, CACHE_CAPACITY as nat, key, dataset).last() == (key, dataset),
        value_of(inserted(entries, CACHE_CAPACITY as nat, key, dataset), key) == Some(dataset),
{
    lemma_position(entries, key);
    let p = position(entries, key);
    let all = linked(entries, key, dataset);
    let after = inserted(entries, CACHE_CAPACITY as nat, key, dataset);
    if p >= 0 {
        assert forall|i: int| 0 <= i < all.len() - 1 implies all[i] == entries[source_index(
            entries.len() as int,
            p,
            i,
        )] by {}
    }
    assert(keys_distinct(all));
    assert(after.last() == (key, dataset));
    assert(keys_distinct(after));
    lemma_value_at(after, after.len() - 1);
}

/// Inserting a third key into a full cache evicts exactly the least recently
/// used entry: the other entry stays, the new one is the most recently used,
/// and the evicted key is no longer found.
pub proof fn lemma_third_key_evicts_oldest(entries: Entries, key: Seq<u8>, dataset: u64)
    requires
        keys_distinct(entries),
        entries.len() == CACHE_CAPACITY,
        value_of(entries, key) is None,
    ensures
        inserted(entries, CACHE_CAPACITY as nat, key, dataset) == seq![entries[1], (key, dataset)],
        displaced_by(entries, key) == Some(entries[0]),
        value_of(inserted(entries, CACHE_CAPACITY as nat, key, dataset), entries[0].0) is None,
        value_of(inserted(entries, CACHE_CAPACITY as nat, key, dataset), entries[1].0) == Some(
            entries[1].1,
        ),
{
    lemma_position(entries, key);
    let after = inserted(entries, CACHE_CAPACITY as nat, key, dataset);
    assert(after =~= seq![entries[1], (key, dataset)]);
    lemma_position(after, entries[0].0);
    if position(after, entries[0].0) >= 0 {
        assert(after[position(after, entries[0].0)].0 == entries[0].0);
    }
    lemma_inserted_valid(entries, key, dataset);
    lemma_value_at(after, 0);
}

/// Once a dataset is stored under a key, every later lookup of that key
/// finds that same dataset and leaves it in the cache, however often it is
/// repeated: one construction serves all who ask.
pub proof fn lemma_inserted_is_shared(entries: Entries, key: Seq<u8>, dataset: u64)
    requires
        keys_distinct(entries),
        entries.len() <= CACHE_CAPACITY,
    ensures
        value_of(inserted(entries, CACHE_CAPACITY as nat, key, dataset), key) == Some(dataset),
        value_of(
            refreshed(inserted(entries, CACHE_CAPACITY as nat, key, dataset), key),
            key,
        ) == Some(dataset),
        refreshed(inserted(entries, CACHE_CAPACITY as nat, key, dataset), key) == inserted(
            entries,
            CACHE_CAPACITY as nat,
            key,
            dataset,
        ),
{
    lemma_inserted_valid(entries, key, dataset);
    let after = inserted(entries, CACHE_CAPACITY as nat, key, dataset);
    lemma_refreshed_valid(after, key);
    lemma_position_unique(after, key, after.len() - 1);
    assert(refreshed(after, key) =~= after);
}

} // verus!
