//! The cache overlay: a store of results in front of a scheduler, which
//! lets every key be looked up at most once at a time.
//!
//! The overlay owns the scheduler's requests: one for each key that is
//! being loaded. Callers ask by key, and everyone who asks for a key sees
//! the one item that the store holds for it.
use vstd::prelude::*;
use std::collections::HashMap;
use std::hash::{BuildHasher, Hash};
use vstd::laws_eq::obeys_concrete_eq;
use vstd::std_specs::hash::{builds_valid_hashers, obeys_key_model};
use crate::batch_fn::{BatchFn, BatchOutcome, DEFAULT_MAX_BATCH_SIZE};
use crate::error::{clone_result, result_cloned, ConfigError, LoadError};
use crate::keys::{obeys_clone_laws, obeys_key_laws};
use crate::model::SchedulerView;
use crate::overlay::CachedView;
use crate::non_cached::resolve;
use crate::request::{BatchId, BatchView, Deferral, Poll, RequestId};

verus! {

/// A store of values by key, which the overlay keeps its items in.
///
/// A store forgets nothing by itself: what was inserted stays until it is
/// removed or replaced. An implementation says what it holds by defining
/// `entries` and `wf`, and proves its operations against them. One that
/// proves nothing leaves both undefined: what is proved of the overlay then
/// holds as far as that store behaves as a map does.
pub trait Cache {
    type Key;

    type Val;

    /// What the store holds.
    open spec fn entries(&self) -> Map<Self::Key, Self::Val> {
        arbitrary()
    }

    /// The store is one that its operations keep.
    open spec fn wf(&self) -> bool {
        arbitrary()
    }

    /// The value stored under `key`, if there is one.
    fn get(&mut self, key: &Self::Key) -> (found: Option<&Self::Val>)
        requires
            old(self).wf(),
        ensures
            final(self).wf(),
            final(self).entries() == old(self).entries(),
            match found {
                Some(val) => old(self).entries().contains_key(*key) && *val
                    == old(self).entries()[*key],
                None => !old(self).entries().contains_key(*key),
            },
    ;

    /// Stores `val` under `key`, in place of what was stored there.
    fn insert(&mut self, key: Self::Key, val: Self::Val)
        requires
            old(self).wf(),
        ensures
            final(self).wf(),
            final(self).entries() == old(self).entries().insert(key, val),
    ;

    /// Takes out what is stored under `key`, if anything is.
    fn remove(&mut self, key: &Self::Key) -> (taken: Option<Self::Val>)
        requires
            old(self).wf(),
        ensures
            final(self).wf(),
            final(self).entries() == old(self).entries().remove(*key),
            match taken {
                Some(val) => old(self).entries().contains_key(*key) && val
                    == old(self).entries()[*key],
                None => !old(self).entries().contains_key(*key),
            },
    ;

    /// Takes everything out.
    fn clear(&mut self)
        requires
            old(self).wf(),
        ensures
            final(self).wf(),
            final(self).entries() == Map::<Self::Key, Self::Val>::empty(),
    ;
}

impl<K: Eq + Hash, V, S: BuildHasher> Cache for HashMap<K, V, S> {
    type Key = K;

    type Val = V;

    open spec fn entries(&self) -> Map<K, V> {
        self@
    }

    open spec fn wf(&self) -> bool {
        obeys_key_model::<K>() && builds_valid_hashers::<S>()
    }

    fn get(&mut self, key: &K) -> (found: Option<&V>) {
        broadcast use vstd::std_specs::hash::group_hash_axioms;

        HashMap::get(self, key)
    }

    fn insert(&mut self, key: K, val: V) {
        broadcast use vstd::std_specs::hash::group_hash_axioms;

        HashMap::insert(self, key, val);
    }

    fn remove(&mut self, key: &K) -> (taken: Option<V>) {
        broadcast use vstd::std_specs::hash::group_hash_axioms;

        HashMap::remove(self, key)
    }

    fn clear(&mut self) {
        HashMap::clear(self)
    }
}

/// What the overlay stores for a key.
#[derive(Debug, PartialEq, Eq)]
pub enum Item<V, E> {
    /// A value that was given to the overlay; no batch was dispatched for it.
    Primed(V),
    /// The scheduler's request that is loading the key.
    Loading(RequestId),
    /// What a batch gave for the key.
    Loaded(Result<V, LoadError<E>>),
}

/// What the store shows for a key.
enum Seen<V, E> {
    /// A value or a result, cloned.
    Ready(Result<V, LoadError<E>>),
    /// The request that is said to load the key.
    Loading(RequestId),
    /// Nothing.
    Missing,
}

/// The shared state of a cache overlay: a scheduler and the store in front
/// of it.
#[verifier::reject_recursive_types(K)]
#[verifier::reject_recursive_types(V)]
#[verifier::reject_recursive_types(E)]
pub struct State<K, V, E, C = HashMap<K, Item<V, E>>> where C: Cache<Key = K, Val = Item<V, E>> {
    scheduler: crate::non_cached::State<K, V, E>,
    cache: C,
}

impl<K, V, E, C> View for State<K, V, E, C> where C: Cache<Key = K, Val = Item<V, E>> {
    type V = CachedView<K, V, E>;

    closed spec fn view(&self) -> CachedView<K, V, E> {
        CachedView { scheduler: self.scheduler@, items: self.cache.entries() }
    }
}

impl<K: Eq + Hash + Clone, V, E> State<K, V, E, HashMap<K, Item<V, E>>> {
    /// An overlay that holds nothing, over a scheduler as `with_cache`
    /// makes it, with a hash map for its store.
    pub fn new() -> (state: Self)
        requires
            obeys_key_laws::<K>(),
            obeys_clone_laws::<K>(),
        ensures
            state.wf(),
            state@.items == Map::<K, Item<V, E>>::empty(),
            state@.scheduler.queued.len() == 0,
            state@.scheduler.batches.len() == 0,
            state@.scheduler.id_seq == 0,
            state@.scheduler.max_batch_size == DEFAULT_MAX_BATCH_SIZE,
            state@.scheduler.deferral == Deferral::PollCount,
    {
        broadcast use vstd::std_specs::hash::group_hash_axioms;

        State::with_cache(HashMap::new())
    }
}

impl<K: Eq + Hash + Clone, V, E, C> State<K, V, E, C> where C: Cache<Key = K, Val = Item<V, E>> {
    /// The store is one that its operations keep.
    pub closed spec fn cache_wf(&self) -> bool {
        self.cache.wf()
    }

    /// The state is one that the overlay's operations keep.
    pub open spec fn wf(&self) -> bool {
        &&& obeys_key_laws::<K>()
        &&& obeys_clone_laws::<K>()
        &&& self.cache_wf()
        &&& self@.wf()
    }

    /// An overlay over a new scheduler, with `cache` and what it holds for
    /// its store. The scheduler forms batches of up to
    /// `DEFAULT_MAX_BATCH_SIZE` keys and dispatches a batch that is not full
    /// once every queued request has been advanced.
    pub fn with_cache(cache: C) -> (state: Self)
        requires
            obeys_key_laws::<K>(),
            obeys_clone_laws::<K>(),
            cache.wf(),
        ensures
            state.wf(),
            state@.items == cache.entries(),
            state@.scheduler.queued.len() == 0,
            state@.scheduler.batches.len() == 0,
            state@.scheduler.id_seq == 0,
            state@.scheduler.max_batch_size == DEFAULT_MAX_BATCH_SIZE,
            state@.scheduler.deferral == Deferral::PollCount,
    {
        let state = State { scheduler: crate::non_cached::State::new(), cache };
        proof {
            assert forall|id: RequestId, key: K| !#[trigger] state@.scheduler.pends(id, key) by {
                if state@.scheduler.pends(id, key) {
                    state@.scheduler.lemma_pends_one_key(id, key, key);
                }
            }
        }
        state
    }

    /// The same overlay with batches of up to `max_batch_size` keys, or the
    /// refusal of a size of zero.
    pub fn with_max_batch_size(self, max_batch_size: usize) -> (built: Result<Self, ConfigError>)
        requires
            self.wf(),
        ensures
            match built {
                Ok(state) => {
                    &&& max_batch_size > 0
                    &&& state.wf()
                    &&& state@.items == self@.items
                    &&& state@.scheduler == self@.scheduler.with_max_batch_size(max_batch_size)
                },
                Err(e) => max_batch_size == 0 && e == ConfigError::ZeroBatchSize,
            },
    {
        let ghost before = self@;
        let State { scheduler, cache } = self;
        match scheduler.with_max_batch_size(max_batch_size) {
            Ok(scheduler) => {
                let state = State { scheduler, cache };
                proof {
                    before.lemma_same_requests_wf(state@.scheduler);
                }
                Ok(state)
            },
            Err(e) => Err(e),
        }
    }

    /// The same overlay, whose scheduler from now on dispatches a batch
    /// that is not full as soon as an item has been told to wait
    /// `yield_count` times.
    pub fn with_yield_count(self, yield_count: usize) -> (state: Self)
        requires
            self.wf(),
        ensures
            state.wf(),
            state@.items == self@.items,
            state@.scheduler == self@.scheduler.with_deferral(Deferral::YieldCount(yield_count)),
    {
        let ghost before = self@;
        let State { scheduler, cache } = self;
        let state = State { scheduler: scheduler.with_yield_count(yield_count), cache };
        proof {
            before.lemma_same_requests_wf(state@.scheduler);
        }
        state
    }

    /// The largest number of requests that a batch is formed of.
    pub fn max_batch_size(&self) -> (size: usize)
        ensures
            size == self@.scheduler.max_batch_size,
    {
        self.scheduler.max_batch_size()
    }

    /// How many more requests can be given an id.
    pub fn spare_ids(&self) -> (spare: usize)
        ensures
            spare == usize::MAX - self@.scheduler.id_seq,
    {
        self.scheduler.spare_ids()
    }

    /// The keys that the batch function is to be called with for the batch
    /// named `batch`, if that batch is in flight.
    pub fn batch_keys(&self, batch: BatchId) -> (keys: Option<&Vec<K>>)
        requires
            self.wf(),
        ensures
            match keys {
                Some(keys) => self@.scheduler.has_batch(batch) && keys@
                    == self@.scheduler.batches[self@.scheduler.batch_at(batch)].keys,
                None => !self@.scheduler.has_batch(batch),
            },
    {
        self.scheduler.batch_keys(batch)
    }

    /// Offers `val` for `key`: it is stored where the store holds nothing
    /// for `key`, and dropped otherwise.
    pub fn prime(&mut self, key: K, val: V)
        requires
            old(self).wf(),
        ensures
            final(self).wf(),
            final(self)@ == old(self)@.prime(key, val),
    {
        let vacant = self.cache.get(&key).is_none();
        if vacant {
            self.cache.insert(key, Item::Primed(val));
        }
    }

    /// Offers each pair of `values`, in their order, as `prime` does.
    pub fn prime_many(&mut self, values: Vec<(K, V)>)
        requires
            old(self).wf(),
        ensures
            final(self).wf(),
            final(self)@ == old(self)@.prime_many(values@),
    {
        let ghost all = values@;
        let ghost start = self@;
        for pair in it: values
            invariant
                it.seq() == all,
                self.wf(),
                self@ == start.prime_many(all.take(it.index() as int)),
        {
            let ghost done = it.index() as int;
            proof {
                assert(all.take(done + 1).drop_last() =~= all.take(done));
                assert(all.take(done + 1).last() == pair);
            }
            let (key, val) = pair;
            self.prime(key, val);
        }
        proof {
            assert(all.take(all.len() as int) =~= all);
        }
    }

    /// Evicts the item of `key` and hands it over, if there is one. A
    /// request that was loading the key is given up.
    pub fn remove(&mut self, key: &K) -> (evicted: Option<Item<V, E>>)
        requires
            old(self).wf(),
        ensures
            final(self).wf(),
            final(self)@ == old(self)@.remove(*key),
            match evicted {
                Some(item) => old(self)@.items.contains_key(*key) && item == old(self)@.items[*key],
                None => !old(self)@.items.contains_key(*key),
            },
    {
        proof {
            old(self)@.lemma_remove_wf(*key);
        }
        let evicted = self.cache.remove(key);
        match &evicted {
            Some(Item::Loading(id)) => {
                if self.runs(*id, key) {
                    self.scheduler.cancel_request(*id);
                }
            },
            _ => {},
        }
        evicted
    }

    /// Whether the scheduler still runs the request `id` for `key`.
    fn runs(&self, id: RequestId, key: &K) -> (running: bool)
        requires
            obeys_key_laws::<K>(),
            self@.scheduler.wf(),
        ensures
            running == self@.scheduler.pends(id, *key),
    {
        match self.scheduler.pending_key(id) {
            Some(k) => {
                proof {
                    reveal(obeys_concrete_eq);
                    if self@.scheduler.pends(id, *key) {
                        self@.scheduler.lemma_pends_one_key(id, *key, *k);
                    }
                }
                *k == *key
            },
            None => false,
        }
    }

    /// Evicts every item, and gives up every request.
    pub fn clear(&mut self)
        requires
            old(self).wf(),
        ensures
            final(self).wf(),
            final(self)@ == old(self)@.clear(),
    {
        proof {
            old(self)@.lemma_clear_wf();
        }
        self.cache.clear();
        self.scheduler.reset();
    }
}

impl<K: Eq + Hash + Clone, V: Clone, E: Clone, C> State<K, V, E, C> where
    C: Cache<Key = K, Val = Item<V, E>>,
 {
    /// What the store shows for `key`.
    fn look(&mut self, key: &K) -> (seen: Seen<V, E>)
        requires
            old(self).wf(),
        ensures
            final(self).wf(),
            final(self)@ == old(self)@,
            match seen {
                Seen::Missing => !old(self)@.items.contains_key(*key),
                Seen::Loading(id) => old(self)@.items.contains_key(*key) && old(self)@.items[*key]
                    == Item::<V, E>::Loading(id),
                Seen::Ready(result) => old(self)@.items.contains_key(*key) && !(
                old(self)@.items[*key] is Loading) && old(self)@.observes(
                    *key,
                    Poll::Ready(result),
                ),
            },
    {
        match self.cache.get(key) {
            Some(Item::Primed(val)) => Seen::Ready(Ok(val.clone())),
            Some(Item::Loaded(result)) => Seen::Ready(clone_result(result)),
            Some(Item::Loading(id)) => Seen::Loading(*id),
            None => Seen::Missing,
        }
    }

    /// Asks for `key`. Where the store holds a value or a result for it, a
    /// clone of that is the answer. Where a request is loading it, the
    /// answer is to wait, and no request is added. Otherwise the scheduler
    /// takes a request for `key` in, the store names it, and the answer is
    /// the batch that this dispatched, or to wait.
    pub fn load(&mut self, key: K) -> (answer: Poll<V, E>)
        requires
            old(self).wf(),
            old(self)@.scheduler.id_seq < usize::MAX,
        ensures
            final(self).wf(),
            final(self)@ == old(self)@.load(key),
            old(self)@.load_answers(key, answer),
    {
        match self.look(&key) {
            Seen::Ready(result) => {
                return Poll::Ready(result);
            },
            Seen::Loading(id) => {
                if self.runs(id, &key) {
                    return Poll::Wait;
                }
            },
            Seen::Missing => {},
        }
        let copy = key.clone();
        proof {
            assert(cloned(key, copy));
            old(self)@.lemma_load_wf(key);
        }
        let (handle, batch) = self.scheduler.load(copy);
        self.cache.insert(key, Item::Loading(handle.id()));
        match batch {
            Some(batch) => Poll::Dispatch(batch),
            None => Poll::Wait,
        }
    }

    /// Asks for each of `keys`, in their order, as `load` does, and gives
    /// the answers in the same order. A key that stands twice is loaded
    /// once: the second answer is to wait for the request of the first.
    pub fn load_many(&mut self, keys: Vec<K>) -> (answers: Vec<Poll<V, E>>)
        requires
            old(self).wf(),
            old(self)@.scheduler.id_seq + keys.len() <= usize::MAX,
        ensures
            final(self).wf(),
            final(self)@ == old(self)@.load_many(keys@),
            answers.len() == keys.len(),
            forall|i: int|
                0 <= i < keys.len() ==> old(self)@.load_many(keys@.take(i)).load_answers(
                    keys@[i],
                    #[trigger] answers[i],
                ),
    {
        let ghost all = keys@;
        let ghost start = self@;
        let mut answers: Vec<Poll<V, E>> = Vec::new();
        for key in it: keys
            invariant
                it.seq() == all,
                start.scheduler.id_seq + all.len() <= usize::MAX,
                self.wf(),
                self@ == start.load_many(all.take(it.index() as int)),
                self@.scheduler.id_seq <= start.scheduler.id_seq + it.index(),
                answers.len() == it.index(),
                forall|i: int|
                    0 <= i < answers.len() ==> start.load_many(all.take(i)).load_answers(
                        all[i],
                        #[trigger] answers[i],
                    ),
        {
            let ghost done = answers.len() as int;
            proof {
                assert(all.take(done + 1).drop_last() =~= all.take(done));
                assert(all.take(done + 1).last() == key);
            }
            let answer = self.load(key);
            answers.push(answer);
        }
        proof {
            assert(all.take(all.len() as int) =~= all);
        }
        answers
    }

    /// Advances the item of `key`. Where the store holds a value or a
    /// result for it, a clone of that is the answer. Where a request is
    /// loading it, that request is advanced, and what the scheduler says is
    /// the answer. Where there is nothing to observe, the answer is `Gone`.
    pub fn poll(&mut self, key: &K) -> (answer: Poll<V, E>)
        requires
            old(self).wf(),
        ensures
            final(self).wf(),
            final(self)@ == old(self)@.poll(*key),
            old(self)@.poll_answers(*key, answer),
    {
        match self.look(key) {
            Seen::Ready(result) => Poll::Ready(result),
            Seen::Loading(id) => {
                if self.runs(id, key) {
                    proof {
                        old(self)@.lemma_poll_wf(*key);
                    }
                    self.scheduler.poll_request(id)
                } else {
                    Poll::Gone
                }
            },
            Seen::Missing => Poll::Gone,
        }
    }

    /// Completes the batch named `batch` with what the batch function gave
    /// back for its keys: the batch leaves the scheduler, and the store
    /// gets the result that is owed for each key that a member still asked
    /// for. Where no such batch is in flight, the outcome is dropped and
    /// nothing changes.
    pub fn complete(&mut self, batch: BatchId, outcome: BatchOutcome<K, V, E>)
        requires
            old(self).wf(),
        ensures
            final(self).wf(),
            old(self)@.completes(batch, outcome, final(self)@),
    {
        let ghost start = self@;
        match self.scheduler.retire(batch) {
            None => {},
            Some((members, keys)) => {
                let ghost b = start.scheduler.batch_at(batch);
                let ghost done = start.scheduler.batches[b];
                assert(done.wf());
                let mut m: usize = 0;
                while m < members.len()
                    invariant
                        obeys_key_laws::<K>(),
                        obeys_clone_laws::<K>(),
                        self.cache_wf(),
                        m <= members.len(),
                        members@ == done.members,
                        keys@ == done.keys,
                        done.wf(),
                        self@.scheduler == start.scheduler.retire(batch),
                        forall|key: K| #[trigger] start.served(done, outcome, m as int, self@, key),
                    decreases members.len() - m,
                {
                    let ghost earlier = self@;
                    if !members[m].abandoned {
                        let slot = members[m].slot;
                        let result = resolve(&outcome, &keys, slot);
                        let key = keys[slot].clone();
                        self.cache.insert(key, Item::Loaded(result));
                        proof {
                            assert(cloned(keys@[slot as int], key));
                            assert(done.keys[done.keys.index_of(key)] == key);
                        }
                    }
                    proof {
                        let now = self@;
                        assert forall|k: K| #[trigger]
                            start.served(done, outcome, m + 1, now, k) by {
                            assert(start.served(done, outcome, m as int, earlier, k));
                            if done.serves_before(m + 1, k) {
                                let n = done.server_before(m + 1, k);
                                if n != m {
                                    assert(done.serves_before(m as int, k));
                                }
                            }
                            if done.serves_before(m as int, k) {
                                assert(done.serves_before(m + 1, k));
                            }
                            let served = done.members[m as int];
                            if !served.abandoned && k == done.keys[served.slot as int] {
                                assert(done.serves_before(m + 1, k));
                            }
                        }
                    }
                    m += 1;
                }
                proof {
                    start.lemma_completes_wf(batch, outcome, self@);
                }
            },
        }
    }
}

impl<K: Eq + Hash + Clone, V: Clone, E: Clone, C> State<K, V, E, C> where
    C: Cache<Key = K, Val = Item<V, E>>,
 {
    /// Calls `load_fn` with the keys of the batch named `batch` and
    /// completes the batch with what it gives back. Tells whether such a
    /// batch was in flight; where none was, `load_fn` is not called and
    /// nothing changes.
    pub fn run_batch<F: BatchFn<K, V, Error = E>>(&mut self, batch: BatchId, load_fn: &mut F) -> (ran:
        bool)
        requires
            old(self).wf(),
        ensures
            final(self).wf(),
            ran == old(self)@.scheduler.has_batch(batch),
            !ran ==> final(self)@ == old(self)@,
            ran ==> exists|outcome: BatchOutcome<K, V, E>| #[trigger]
                old(self)@.completes(batch, outcome, final(self)@),
    {
        let outcome = match self.scheduler.batch_keys(batch) {
            Some(keys) => load_fn.load(keys.as_slice()),
            None => {
                return false;
            },
        };
        self.complete(batch, outcome);
        true
    }

    /// Loads every key that a request is loading: calls `load_fn` for each
    /// batch in flight, oldest first, then dispatches what is queued and
    /// calls `load_fn` for that, until nothing is queued or in flight.
    /// Afterwards the store holds a result for each of those keys, and what
    /// it held for other keys is as it was.
    pub fn drain<F: BatchFn<K, V, Error = E>>(&mut self, load_fn: &mut F)
        requires
            old(self).wf(),
        ensures
            final(self).wf(),
            final(self)@.scheduler.queued.len() == 0,
            final(self)@.scheduler.batches.len() == 0,
            old(self)@.runs_on(final(self)@),
            forall|key: K| !#[trigger] final(self)@.is_loading(key),
    {
        let ghost start = self@;
        while self.scheduler.batch_count() > 0 || self.scheduler.queue_len() > 0
            invariant
                self.wf(),
                start.wf(),
                start.runs_on(self@),
            decreases 2 * self@.scheduler.queued.len() + self@.scheduler.batches.len(),
        {
            if self.scheduler.batch_count() == 0 {
                proof {
                    start.lemma_dispatch_runs_on(self@);
                }
                self.scheduler.dispatch();
            }
            let ghost mid = self@;
            let batch = self.scheduler.oldest_batch();
            self.run_batch(batch, load_fn);
            proof {
                let outcome = choose|outcome: BatchOutcome<K, V, E>| #[trigger]
                    mid.completes(batch, outcome, self@);
                start.lemma_completes_runs_on(mid, batch, outcome, self@);
            }
        }
        proof {
            assert forall|key: K| !#[trigger] self@.is_loading(key) by {
                self@.lemma_idle_loads_nothing(key);
            }
        }
    }
}

} // verus!
