//! The per-worker execution context and the decisions of one compute request.
//!
//! A worker owns one context. Before each hash computation it asks the context
//! for the epoch key it needs. The context answers with what has to happen
//! before the hash primitive may run: nothing, a new handle on a dataset that
//! the cache already holds, or the construction of a dataset. The caller does
//! that work and, after a construction, reports the new dataset back.

use vstd::prelude::*;
use crate::cache::{
    displaced_by, lemma_inserted_valid, lemma_refreshed_valid, ResourceCache, CACHE_CAPACITY,
};
use crate::hash::H256;
use crate::lru::{inserted, keys_distinct, lemma_position, refreshed, value_of, Entries};

verus! {

/// A binding: the bound key's bytes and the dataset that the handle uses.
pub type Binding = Option<(Seq<u8>, u64)>;

/// What the caller has to do before it may run the hash primitive.
#[derive(Clone, Copy, Debug, PartialEq, Eq, Structural)]
pub enum Action {
    /// The context is already bound to the key: use the existing handle.
    Ready { dataset: u64 },
    /// The cache holds the key's dataset and the context is now bound to it:
    /// make a new handle on that dataset and discard the previous one.
    Bind { dataset: u64 },
    /// No dataset is cached for the key: build one, then call `complete`.
    Construct,
}

/// Whether a binding is to the given key.
pub open spec fn is_bound(binding: Binding, key: Seq<u8>) -> bool {
    binding matches Some(b) && b.0 == key
}

/// The action that answers a request for `key`.
pub open spec fn action_for(binding: Binding, entries: Entries, key: Seq<u8>) -> Action {
    if is_bound(binding, key) {
        Action::Ready { dataset: binding.unwrap().1 }
    } else {
        match value_of(entries, key) {
            Some(dataset) => Action::Bind { dataset },
            None => Action::Construct,
        }
    }
}

/// The binding after a request for `key`: it changes only on a cache hit for
/// a key other than the bound one.
pub open spec fn binding_after(binding: Binding, entries: Entries, key: Seq<u8>) -> Binding {
    if is_bound(binding, key) {
        binding
    } else {
        match value_of(entries, key) {
            Some(dataset) => Some((key, dataset)),
            None => binding,
        }
    }
}

/// The cache after a request for `key`: untouched when the context is bound
/// to the key, else as a lookup of the key leaves it.
pub open spec fn entries_after(binding: Binding, entries: Entries, key: Seq<u8>) -> Entries {
    if is_bound(binding, key) {
        entries
    } else {
        refreshed(entries, key)
    }
}

/// The binding and the cache after a whole request for `key`, in which
/// `fresh` is the dataset that the caller builds if one has to be built.
pub open spec fn served(binding: Binding, entries: Entries, key: Seq<u8>, fresh: u64) -> (
    Binding,
    Entries,
) {
    if action_for(binding, entries, key) is Construct {
        (Some((key, fresh)), inserted(entries, CACHE_CAPACITY as nat, key, fresh))
    } else {
        (binding_after(binding, entries, key), entries_after(binding, entries, key))
    }
}

/// The binding and the cache after a sequence of whole requests, each a key
/// and the dataset built for it if one has to be built.
pub open spec fn served_all(binding: Binding, entries: Entries, requests: Entries) -> (
    Binding,
    Entries,
)
    decreases requests.len(),
{
    if requests.len() == 0 {
        (binding, entries)
    } else {
        let before = served_all(binding, entries, requests.drop_last());
        served(before.0, before.1, requests.last().0, requests.last().1)
    }
}

/// What comes of several workers, each with its own binding, asking for one
/// key in turn: their bindings afterwards, the cache afterwards, and the
/// number of datasets that were built. `fresh` is the dataset that a
/// construction yields.
pub open spec fn served_each(workers: Seq<Binding>, entries: Entries, key: Seq<u8>, fresh: u64) -> (
    Seq<Binding>,
    Entries,
    nat,
)
    decreases workers.len(),
{
    if workers.len() == 0 {
        (Seq::empty(), entries, 0)
    } else {
        let before = served_each(workers.drop_last(), entries, key, fresh);
        let step = served(workers.last(), before.1, key, fresh);
        let built: nat = if action_for(workers.last(), before.1, key) is Construct {
            1
        } else {
            0
        };
        (before.0.push(step.0), step.1, before.2 + built)
    }
}

/// A worker's execution context: unbound, or bound to one key and the
/// dataset that its handle was made from.
pub struct ExecutionContext {
    bound: Option<(H256, u64)>,
}

impl View for ExecutionContext {
    type V = Binding;

    closed spec fn view(&self) -> Binding {
        match self.bound {
            Some(b) => Some((b.0@, b.1)),
            None => None,
        }
    }
}

impl ExecutionContext {
    /// A context that is bound to nothing.
    pub fn new() -> (context: ExecutionContext)
        ensures
            context@ is None,
    {
        ExecutionContext { bound: None }
    }

    /// The key that the context is bound to, if any.
    pub fn bound_key(&self) -> (key: Option<H256>)
        ensures
            match key {
                Some(k) => self@ matches Some(b) && b.0 == k@,
                None => self@ is None,
            },
    {
        match &self.bound {
            Some(b) => Some(b.0),
            None => None,
        }
    }

    /// The dataset that the context's handle uses, if it is bound.
    pub fn bound_dataset(&self) -> (dataset: Option<u64>)
        ensures
            match dataset {
                Some(d) => self@ matches Some(b) && b.1 == d,
                None => self@ is None,
            },
    {
        match &self.bound {
            Some(b) => Some(b.1),
            None => None,
        }
    }

    /// Whether the context is bound to `key`, so that a request for it needs
    /// no access to the cache.
    pub fn is_bound_to(&self, key: &H256) -> (bound: bool)
        ensures
            bound == is_bound(self@, key@),
    {
        match &self.bound {
            Some(b) => b.0 == *key,
            None => false,
        }
    }

    /// Answers a request for `key`. Bound to `key` already, the context
    /// leaves itself and the cache alone. Otherwise it looks the key up: on a
    /// hit it binds to the cached dataset, on a miss it stays as it was and
    /// asks for a construction.
    pub fn ensure_bound(&mut self, cache: &mut ResourceCache, key: &H256) -> (action: Action)
        requires
            old(cache).wf(),
        ensures
            final(cache).wf(),
            action == action_for(old(self)@, old(cache)@, key@),
            final(self)@ == binding_after(old(self)@, old(cache)@, key@),
            final(cache)@ == entries_after(old(self)@, old(cache)@, key@),
            !(action is Construct) ==> is_bound(final(self)@, key@),
            action is Construct ==> final(self)@ == old(self)@ && final(cache)@ == old(cache)@,
    {
        proof {
            lemma_position(cache@, key@);
        }
        match &self.bound {
            Some(b) => {
                if b.0 == *key {
                    return Action::Ready { dataset: b.1 };
                }
            },
            None => {},
        }
        match cache.lookup(key) {
            Some(dataset) => {
                self.bound = Some((*key, dataset));
                Action::Bind { dataset }
            },
            None => Action::Construct,
        }
    }

    /// Takes in the dataset built after a `Construct`: stores it in the cache
    /// under `key`, binds the context to it, and returns the entry that left
    /// the cache, if any.
    pub fn complete(&mut self, cache: &mut ResourceCache, key: &H256, dataset: u64) -> (displaced:
        Option<(H256, u64)>)
        requires
            old(cache).wf(),
        ensures
            final(cache).wf(),
            final(self)@ == Some((key@, dataset)),
            final(cache)@ == inserted(old(cache)@, CACHE_CAPACITY as nat, key@, dataset),
            match displaced {
                Some(gone) => displaced_by(old(cache)@, key@) == Some((gone.0@, gone.1)),
                None => displaced_by(old(cache)@, key@) is None,
            },
    {
        let displaced = cache.insert(key, dataset);
        self.bound = Some((*key, dataset));
        displaced
    }
}

/// A whole request keeps the cache valid and within its capacity, and leaves
/// the context bound to the requested key.
pub proof fn lemma_served(binding: Binding, entries: Entries, key: Seq<u8>, fresh: u64)
    requires
        keys_distinct(entries),
        entries.len() <= CACHE_CAPACITY,
    ensures
        is_bound(served(binding, entries, key, fresh).0, key),
        keys_distinct(served(binding, entries, key, fresh).1),
        served(binding, entries, key, fresh).1.len() <= CACHE_CAPACITY,
{
    lemma_refreshed_valid(entries, key);
    lemma_inserted_valid(entries, key, fresh);
}

/// After any sequence of requests by one worker, the context is bound to the
/// key of the last request, and the cache holds no more than its capacity.
pub proof fn lemma_bound_to_last_request(binding: Binding, entries: Entries, requests: Entries)
    requires
        keys_distinct(entries),
        entries.len() <= CACHE_CAPACITY,
    ensures
        requests.len() > 0 ==> is_bound(
            served_all(binding, entries, requests).0,
            requests.last().0,
        ),
        keys_distinct(served_all(binding, entries, requests).1),
        served_all(binding, entries, requests).1.len() <= CACHE_CAPACITY,
    decreases requests.len(),
{
    if requests.len() > 0 {
        lemma_bound_to_last_request(binding, entries, requests.drop_last());
        let before = served_all(binding, entries, requests.drop_last());
        lemma_served(before.0, before.1, requests.last().0, requests.last().1);
    }
}

/// When any number of workers, none of them bound to it, ask for a key that
/// the cache does not hold, exactly one dataset is built, and every worker
/// ends up bound to that one dataset.
pub proof fn lemma_workers_share_one_dataset(
    workers: Seq<Binding>,
    entries: Entries,
    key: Seq<u8>,
    fresh: u64,
)
    requires
        keys_distinct(entries),
        entries.len() <= CACHE_CAPACITY,
        value_of(entries, key) is None,
        workers.len() > 0,
        forall|i: int| 0 <= i < workers.len() ==> !is_bound(#[trigger] workers[i], key),
    ensures
        served_each(workers, entries, key, fresh).2 == 1,
        served_each(workers, entries, key, fresh).0.len() == workers.len(),
        forall|i: int|
            0 <= i < workers.len() ==> (#[trigger] served_each(workers, entries, key, fresh).0[i])
                == Some((key, fresh)),
        value_of(served_each(workers, entries, key, fresh).1, key) == Some(fresh),
        keys_distinct(served_each(workers, entries, key, fresh).1),
        served_each(workers, entries, key, fresh).1.len() <= CACHE_CAPACITY,
    decreases workers.len(),
{
    let rest = workers.drop_last();
    if rest.len() == 0 {
        assert(served_each(rest, entries, key, fresh) == (Seq::<Binding>::empty(), entries, 0nat));
        lemma_inserted_valid(entries, key, fresh);
    } else {
        lemma_workers_share_one_dataset(rest, entries, key, fresh);
        let before = served_each(rest, entries, key, fresh);
        lemma_refreshed_valid(before.1, key);
    }
}

/// Requesting the bound key again needs nothing: the answer is `Ready` with
/// the bound dataset, and neither the context nor the cache changes.
pub proof fn lemma_repeated_request(binding: Binding, entries: Entries, key: Seq<u8>)
    requires
        is_bound(binding, key),
    ensures
        action_for(binding, entries, key) == (Action::Ready { dataset: binding.unwrap().1 }),
        binding_after(binding, entries, key) == binding,
        entries_after(binding, entries, key) == entries,
        forall|fresh: u64| served(binding, entries, key, fresh) == (binding, entries),
{
}

/// A key that was evicted has to be built again: once a third key has pushed
/// the least recently used entry out of a full cache, a context that is not
/// bound to the evicted key is told to construct when it asks for it.
pub proof fn lemma_evicted_key_is_rebuilt(
    binding: Binding,
    entries: Entries,
    key: Seq<u8>,
    fresh: u64,
)
    requires
        keys_distinct(entries),
        entries.len() == CACHE_CAPACITY,
        value_of(entries, key) is None,
        !is_bound(binding, entries[0].0),
    ensures
        action_for(
            binding,
            inserted(entries, CACHE_CAPACITY as nat, key, fresh),
            entries[0].0,
        ) is Construct,
{
    crate::cache::lemma_third_key_evicts_oldest(entries, key, fresh);
}

} // verus!
