//! The cache overlay as contracts speak of it: what it holds, when that is
//! consistent, what each transition makes of it, and that each transition
//! keeps it consistent.
use vstd::prelude::*;
use crate::batch_fn::BatchOutcome;
use crate::cached::Item;
use crate::error::{result_cloned, LoadError};
use crate::model::{delivered, SchedulerView};
use crate::request::{BatchId, BatchView, Deferral, Poll, RequestId};

verus! {

/// The overlay as contracts speak of it.
#[verifier::reject_recursive_types(K)]
pub struct CachedView<K, V, E> {
    pub scheduler: SchedulerView<K, V, E>,
    pub items: Map<K, Item<V, E>>,
}

impl<K> BatchView<K> {
    /// One of the first `upto` members asks for `key`, and its handle was
    /// not given up.
    pub open spec fn serves_before(self, upto: int, key: K) -> bool {
        exists|m: int|
            0 <= m < upto && m < self.members.len() && !(#[trigger] self.members[m]).abandoned
                && self.keys[self.members[m].slot as int] == key
    }

    /// Which of the first `upto` members asks for `key`.
    pub open spec fn server_before(self, upto: int, key: K) -> int {
        choose|m: int|
            0 <= m < upto && m < self.members.len() && !(#[trigger] self.members[m]).abandoned
                && self.keys[self.members[m].slot as int] == key
    }

    /// A member whose handle was not given up asks for `key`.
    pub open spec fn serves(self, key: K) -> bool {
        self.serves_before(self.members.len() as int, key)
    }
}

impl<K, V, E> CachedView<K, V, E> {
    /// Every pending lookup of the scheduler is the one that the store names
    /// for its key, and no result waits in the scheduler.
    pub open spec fn wf(self) -> bool {
        &&& self.scheduler.wf()
        &&& forall|id: RequestId| !self.scheduler.completed.contains_key(id)
        &&& forall|id: RequestId, key: K| #[trigger]
            self.scheduler.pends(id, key) ==> self.items.contains_key(key) && self.items[key]
                == Item::<V, E>::Loading(id)
    }

    /// The store holds an item for `key` that can be observed: a value, a
    /// result, or a request that the scheduler still runs for this key.
    pub open spec fn is_hit(self, key: K) -> bool {
        &&& self.items.contains_key(key)
        &&& match self.items[key] {
            Item::Loading(id) => self.scheduler.pends(id, key),
            _ => true,
        }
    }

    /// A request is loading `key`.
    pub open spec fn is_loading(self, key: K) -> bool {
        self.is_hit(key) && self.items[key] is Loading
    }

    /// On the way from `self` to `now`, in which requests were run and none
    /// was taken in, `key` has come no further than from being loaded to
    /// having a result: what the store held for it otherwise is as it was.
    pub open spec fn runs_to(self, now: Self, key: K) -> bool {
        if self.is_loading(key) {
            &&& now.items.contains_key(key)
            &&& now.items[key] is Loaded || (now.items[key] == self.items[key] && now.is_loading(
                key,
            ))
        } else {
            &&& now.items.contains_key(key) == self.items.contains_key(key)
            &&& self.items.contains_key(key) ==> now.items[key] == self.items[key]
        }
    }

    /// `now` is reached from `self` by running requests and taking none in:
    /// no id was given out, every request that still pends pended before,
    /// and each key has come no further than from being loaded to having a
    /// result.
    pub open spec fn runs_on(self, now: Self) -> bool {
        &&& now.scheduler.id_seq == self.scheduler.id_seq
        &&& forall|id: RequestId, key: K| #[trigger]
            now.scheduler.pends(id, key) ==> self.scheduler.pends(id, key)
        &&& forall|key: K| #[trigger] self.runs_to(now, key)
    }

    /// The overlay after `key` was asked for: where the store has nothing to
    /// observe for it, the scheduler takes a request for it in, and the
    /// store names that request.
    pub open spec fn load(self, key: K) -> Self {
        if self.is_hit(key) {
            self
        } else {
            CachedView {
                scheduler: self.scheduler.load(key),
                items: self.items.insert(
                    key,
                    Item::Loading((self.scheduler.id_seq + 1) as usize),
                ),
            }
        }
    }

    /// The overlay after each of `keys` was asked for, in their order.
    pub open spec fn load_many(self, keys: Seq<K>) -> Self
        decreases keys.len(),
    {
        if keys.len() == 0 {
            self
        } else {
            self.load_many(keys.drop_last()).load(keys.last())
        }
    }

    /// The overlay after the item of `key` was advanced.
    pub open spec fn poll(self, key: K) -> Self {
        if self.is_hit(key) && self.items[key] is Loading {
            CachedView { scheduler: self.scheduler.poll(self.items[key]->Loading_0), ..self }
        } else {
            self
        }
    }

    /// The overlay after `val` was offered for `key`: it is stored where
    /// the store holds nothing for `key`, and dropped otherwise.
    pub open spec fn prime(self, key: K, val: V) -> Self {
        if self.items.contains_key(key) {
            self
        } else {
            CachedView { items: self.items.insert(key, Item::Primed(val)), ..self }
        }
    }

    /// The overlay after each pair of `values` was offered, in their order.
    pub open spec fn prime_many(self, values: Seq<(K, V)>) -> Self
        decreases values.len(),
    {
        if values.len() == 0 {
            self
        } else {
            self.prime_many(values.drop_last()).prime(values.last().0, values.last().1)
        }
    }

    /// The overlay after the item of `key` was evicted: the store holds
    /// nothing for `key`, and a request that was loading it is given up.
    pub open spec fn remove(self, key: K) -> Self {
        CachedView {
            scheduler: if self.is_hit(key) && self.items[key] is Loading {
                self.scheduler.cancel(self.items[key]->Loading_0)
            } else {
                self.scheduler
            },
            items: self.items.remove(key),
        }
    }

    /// The overlay after everything was evicted.
    pub open spec fn clear(self) -> Self {
        CachedView { scheduler: self.scheduler.reset(), items: Map::empty() }
    }
}

impl<K, V: Clone, E: Clone> CachedView<K, V, E> {
    /// `answer` is what observing the item of `key` may give: a clone of the
    /// value or of the result that the store holds.
    pub open spec fn observes(self, key: K, answer: Poll<V, E>) -> bool {
        match self.items[key] {
            Item::Primed(val) => answer matches Poll::Ready(Ok(copy)) && cloned(val, copy),
            Item::Loaded(result) => answer matches Poll::Ready(copy) && result_cloned(result, copy),
            Item::Loading(_) => false,
        }
    }

    /// `answer` is what asking for `key` may give: what the store holds for
    /// it, the advice to wait for the request that is loading it, or, where
    /// a request was taken in, what the scheduler says of that.
    pub open spec fn load_answers(self, key: K, answer: Poll<V, E>) -> bool {
        if !self.is_hit(key) {
            match self.scheduler.load_batch(key) {
                Some(batch) => answer == Poll::<V, E>::Dispatch(batch),
                None => answer == Poll::<V, E>::Wait,
            }
        } else if self.items[key] is Loading {
            answer == Poll::<V, E>::Wait
        } else {
            self.observes(key, answer)
        }
    }

    /// `answer` is what advancing the item of `key` may give: what the
    /// store holds for it, what the scheduler says of the request that is
    /// loading it, or the report that there is nothing to observe.
    pub open spec fn poll_answers(self, key: K, answer: Poll<V, E>) -> bool {
        if !self.is_hit(key) {
            answer == Poll::<V, E>::Gone
        } else if self.items[key] is Loading {
            answer == self.scheduler.poll_answer(self.items[key]->Loading_0)
        } else {
            self.observes(key, answer)
        }
    }

    /// `now` holds for `key` what it is owed once the first `upto` members of
    /// the batch `done` were answered from `outcome`: the result of the
    /// member that asked for it, or what `self` held for it where none of
    /// them did.
    pub open spec fn served(
        self,
        done: BatchView<K>,
        outcome: BatchOutcome<K, V, E>,
        upto: int,
        now: Self,
        key: K,
    ) -> bool {
        if done.serves_before(upto, key) {
            &&& now.items.contains_key(key)
            &&& now.items[key] matches Item::Loaded(result)
            &&& delivered(outcome, done.keys, done.keys.index_of(key), result)
        } else {
            &&& now.items.contains_key(key) == self.items.contains_key(key)
            &&& self.items.contains_key(key) ==> now.items[key] == self.items[key]
        }
    }

    /// `next` is what the overlay may be after the batch named `batch` was
    /// completed with `outcome`: the batch has left the scheduler, the
    /// store holds the result that is owed for each key that a member still
    /// asked for, and nothing else has changed.
    pub open spec fn completes(
        self,
        batch: BatchId,
        outcome: BatchOutcome<K, V, E>,
        next: Self,
    ) -> bool {
        &&& next.scheduler == self.scheduler.retire(batch)
        &&& if self.scheduler.has_batch(batch) {
            let done = self.scheduler.batches[self.scheduler.batch_at(batch)];
            forall|key: K| #[trigger] self.served(done, outcome, done.members.len() as int, next, key)
        } else {
            next.items == self.items
        }
    }
}

impl<K, V, E> CachedView<K, V, E> {
    /// Books of the scheduler that have the queue and the batches of
    /// consistent books of an overlay, and no result that waits, make a
    /// consistent overlay with the same store.
    pub proof fn lemma_same_requests_wf(self, scheduler: SchedulerView<K, V, E>)
        requires
            self.wf(),
            scheduler.wf(),
            scheduler.queued == self.scheduler.queued,
            scheduler.batches == self.scheduler.batches,
            scheduler.completed == self.scheduler.completed,
        ensures
            (CachedView { scheduler, ..self }).wf(),
    {
        scheduler.lemma_same_queue(self.scheduler);
        scheduler.lemma_same_batches(self.scheduler);
        assert forall|id: RequestId, key: K| #[trigger]
            scheduler.pends(id, key) implies self.scheduler.pends(id, key) by {
            assert(scheduler.queued_with(id, key) == self.scheduler.queued_with(id, key));
            assert(scheduler.in_flight_with(id, key) == self.scheduler.in_flight_with(id, key));
        }
    }

    /// Asking for a key keeps the overlay consistent.
    pub proof fn lemma_load_wf(self, key: K)
        requires
            self.wf(),
            self.scheduler.id_seq < usize::MAX,
        ensures
            self.load(key).wf(),
    {
        if !self.is_hit(key) {
            let next = self.load(key);
            self.scheduler.lemma_load_wf(key);
            self.scheduler.lemma_load_pends(key);
            assert forall|id: RequestId, k: K| #[trigger]
                next.scheduler.pends(id, k) implies next.items.contains_key(k) && next.items[k]
                == Item::<V, E>::Loading(id) by {
                if self.scheduler.pends(id, k) {
                    assert(self.items[k] == Item::<V, E>::Loading(id));
                }
            }
        }
    }

    /// Asking for keys one after the other keeps the overlay consistent,
    /// and gives out no more ids than there are keys.
    pub proof fn lemma_load_many_wf(self, keys: Seq<K>)
        requires
            self.wf(),
            self.scheduler.id_seq + keys.len() <= usize::MAX,
        ensures
            self.load_many(keys).wf(),
            self.scheduler.id_seq <= self.load_many(keys).scheduler.id_seq <= self.scheduler.id_seq
                + keys.len(),
        decreases keys.len(),
    {
        if keys.len() > 0 {
            self.lemma_load_many_wf(keys.drop_last());
            self.load_many(keys.drop_last()).lemma_load_wf(keys.last());
        }
    }

    /// Advancing an item keeps the overlay consistent.
    pub proof fn lemma_poll_wf(self, key: K)
        requires
            self.wf(),
        ensures
            self.poll(key).wf(),
    {
        if self.is_loading(key) {
            let id = self.items[key]->Loading_0;
            let next = self.poll(key);
            self.scheduler.lemma_poll_wf(id);
            self.scheduler.lemma_poll_pends(id);
            assert forall|other: RequestId, k: K| #[trigger]
                next.scheduler.pends(other, k) implies next.items.contains_key(k) && next.items[k]
                == Item::<V, E>::Loading(other) by {
                assert(self.scheduler.pends(other, k));
            }
        }
    }

    /// Priming keeps the overlay consistent.
    pub proof fn lemma_prime_wf(self, key: K, val: V)
        requires
            self.wf(),
        ensures
            self.prime(key, val).wf(),
    {
    }

    /// Priming one pair after the other keeps the overlay consistent.
    pub proof fn lemma_prime_many_wf(self, values: Seq<(K, V)>)
        requires
            self.wf(),
        ensures
            self.prime_many(values).wf(),
        decreases values.len(),
    {
        if values.len() > 0 {
            self.lemma_prime_many_wf(values.drop_last());
            self.prime_many(values.drop_last()).lemma_prime_wf(values.last().0, values.last().1);
        }
    }

    /// Evicting an item keeps the overlay consistent.
    pub proof fn lemma_remove_wf(self, key: K)
        requires
            self.wf(),
        ensures
            self.remove(key).wf(),
    {
        let next = self.remove(key);
        if self.is_loading(key) {
            let id = self.items[key]->Loading_0;
            self.scheduler.lemma_cancel_wf(id);
            self.scheduler.lemma_cancel_pends(id);
        }
        assert forall|id: RequestId, k: K| #[trigger]
            next.scheduler.pends(id, k) implies next.items.contains_key(k) && next.items[k]
            == Item::<V, E>::Loading(id) by {
            assert(self.scheduler.pends(id, k));
        }
    }

    /// Evicting everything keeps the overlay consistent.
    pub proof fn lemma_clear_wf(self)
        requires
            self.wf(),
        ensures
            self.clear().wf(),
    {
        assert forall|id: RequestId, key: K| !#[trigger] self.clear().scheduler.pends(id, key) by {}
    }
}

impl<K, V: Clone, E: Clone> CachedView<K, V, E> {
    /// Completing a batch keeps the overlay consistent.
    pub proof fn lemma_completes_wf(self, batch: BatchId, outcome: BatchOutcome<K, V, E>, next: Self)
        requires
            self.wf(),
            self.completes(batch, outcome, next),
        ensures
            next.wf(),
    {
        self.scheduler.lemma_retire_wf(batch);
        if self.scheduler.has_batch(batch) {
            let b = self.scheduler.batch_at(batch);
            let done = self.scheduler.batches[b];
            self.scheduler.lemma_retire_pends(batch);
            assert forall|id: RequestId, k: K| #[trigger]
                next.scheduler.pends(id, k) implies next.items.contains_key(k) && next.items[k]
                == Item::<V, E>::Loading(id) by {
                assert(self.scheduler.pends(id, k));
                assert(self.served(done, outcome, done.members.len() as int, next, k));
                if done.serves(k) {
                    let n = done.server_before(done.members.len() as int, k);
                    assert(self.scheduler.batches[b].members[n].id == done.members[n].id);
                    assert(self.scheduler.pends(done.members[n].id, k));
                    assert(done.has_member(done.members[n].id));
                }
            }
        }
    }
}

impl<K, V, E> CachedView<K, V, E> {
    /// Dispatching what is queued is a way of running requests on.
    pub proof fn lemma_dispatch_runs_on(self, now: Self)
        requires
            self.wf(),
            now.wf(),
            self.runs_on(now),
        ensures
            (CachedView { scheduler: now.scheduler.dispatch(), ..now }).wf(),
            self.runs_on(CachedView { scheduler: now.scheduler.dispatch(), ..now }),
    {
        let sent = CachedView { scheduler: now.scheduler.dispatch(), ..now };
        now.scheduler.lemma_dispatch_pends();
        now.scheduler.lemma_dispatch_wf();
        assert forall|id: RequestId, key: K| #[trigger]
            sent.scheduler.pends(id, key) implies now.scheduler.pends(id, key) by {}
        assert forall|key: K| #[trigger] self.runs_to(sent, key) by {
            assert(self.runs_to(now, key));
            if now.is_loading(key) {
                assert(now.scheduler.dispatch().pends(now.items[key]->Loading_0, key));
            }
        }
    }

    /// An overlay whose scheduler has nothing queued and nothing in flight
    /// is loading no key.
    pub proof fn lemma_idle_loads_nothing(self, key: K)
        requires
            self.scheduler.queued.len() == 0,
            self.scheduler.batches.len() == 0,
        ensures
            !self.is_loading(key),
    {
    }
}

impl<K, V: Clone, E: Clone> CachedView<K, V, E> {
    /// Completing a batch is a way of running requests on.
    pub proof fn lemma_completes_runs_on(
        self,
        now: Self,
        batch: BatchId,
        outcome: BatchOutcome<K, V, E>,
        next: Self,
    )
        requires
            self.wf(),
            now.wf(),
            self.runs_on(now),
            now.completes(batch, outcome, next),
        ensures
            self.runs_on(next),
    {
        if now.scheduler.has_batch(batch) {
            let b = now.scheduler.batch_at(batch);
            let done = now.scheduler.batches[b];
            now.scheduler.lemma_retire_pends(batch);
            assert forall|id: RequestId, key: K| #[trigger]
                next.scheduler.pends(id, key) implies self.scheduler.pends(id, key) by {
                assert(now.scheduler.pends(id, key));
            }
            assert forall|key: K| #[trigger] self.runs_to(next, key) by {
                assert(self.runs_to(now, key));
                assert(now.served(done, outcome, done.members.len() as int, next, key));
                if done.serves(key) {
                    let n = done.server_before(done.members.len() as int, key);
                    assert(now.scheduler.batches[b].members[n].id == done.members[n].id);
                    assert(now.scheduler.pends(done.members[n].id, key));
                    assert(self.scheduler.pends(done.members[n].id, key));
                    assert(self.is_loading(key));
                } else if self.is_loading(key) && !(now.items[key] is Loaded) {
                    let id = now.items[key]->Loading_0;
                    assert(now.scheduler.pends(id, key));
                    if done.has_member(id) {
                        let n = done.member_at(id);
                        now.scheduler.lemma_member_at(b, n);
                        now.scheduler.lemma_pends_one_key(id, key, key);
                        now.scheduler.lemma_one_place(id);
                        if now.scheduler.in_flight_with(id, key) {
                            let (c, x) = now.scheduler.in_flight_with_at(id, key);
                            now.scheduler.lemma_member_at(c, x);
                            assert(done.serves(key));
                        }
                        if now.scheduler.queued_with(id, key) {
                            assert(now.scheduler.is_queued(id));
                        }
                    }
                    assert(next.scheduler.pends(id, key));
                }
            }
        } else {
            assert forall|key: K| #[trigger] self.runs_to(next, key) by {
                assert(self.runs_to(now, key));
            }
            assert forall|id: RequestId, key: K| #[trigger]
                next.scheduler.pends(id, key) implies self.scheduler.pends(id, key) by {
                assert(now.scheduler.pends(id, key));
            }
        }
    }
}

} // verus!
