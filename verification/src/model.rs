//! The scheduler as contracts speak of it: what it holds, when that is
//! consistent, and what each transition makes of it.
use vstd::prelude::*;
use crate::batch_fn::BatchOutcome;
use crate::error::{result_cloned, LoadError};
use crate::request::{form_batch, BatchId, BatchView, Deferral, Poll, Request, RequestId};

verus! {

/// The books of a scheduler.
pub struct SchedulerView<K, V, E> {
    /// The requests that wait for a batch, oldest first.
    pub queued: Seq<Request<K>>,
    /// The batches in flight, oldest first.
    pub batches: Seq<BatchView<K>>,
    /// The results that wait to be picked up.
    pub completed: Map<RequestId, Result<V, LoadError<E>>>,
    /// The id given out last.
    pub id_seq: RequestId,
    pub max_batch_size: usize,
    pub deferral: Deferral,
}

/// `polls` and one more, as far as the type goes.
pub open spec fn one_more(polls: usize) -> usize {
    if polls < usize::MAX {
        (polls + 1) as usize
    } else {
        polls
    }
}

impl<K, V, E> SchedulerView<K, V, E> {
    // ---------------------------------------------------------------
    // Where a request is
    // ---------------------------------------------------------------
    /// `id` waits in the queue.
    pub open spec fn is_queued(self, id: RequestId) -> bool {
        exists|i: int| 0 <= i < self.queued.len() && (#[trigger] self.queued[i]).id == id
    }

    /// Where `id` waits in the queue.
    pub open spec fn queued_at(self, id: RequestId) -> int {
        choose|i: int| 0 <= i < self.queued.len() && (#[trigger] self.queued[i]).id == id
    }

    /// `id` was put into a batch that is still in flight.
    pub open spec fn is_member(self, id: RequestId) -> bool {
        exists|b: int, m: int|
            0 <= b < self.batches.len() && 0 <= m < self.batches[b].members.len() && (
            #[trigger] self.batches[b].members[m]).id == id
    }

    /// The batch that holds `id`, and where it stands in it.
    pub open spec fn member_at(self, id: RequestId) -> (int, int) {
        choose|b: int, m: int|
            0 <= b < self.batches.len() && 0 <= m < self.batches[b].members.len() && (
            #[trigger] self.batches[b].members[m]).id == id
    }

    /// `id` is in a batch in flight and its handle was not given up.
    pub open spec fn is_in_flight(self, id: RequestId) -> bool {
        &&& self.is_member(id)
        &&& !self.batches[self.member_at(id).0].members[self.member_at(id).1].abandoned
    }

    /// A batch named `batch` is in flight.
    pub open spec fn has_batch(self, batch: BatchId) -> bool {
        exists|b: int| 0 <= b < self.batches.len() && (#[trigger] self.batches[b]).id == batch
    }

    /// Where the batch named `batch` stands.
    pub open spec fn batch_at(self, batch: BatchId) -> int {
        choose|b: int| 0 <= b < self.batches.len() && (#[trigger] self.batches[b]).id == batch
    }

    /// The result of `id` waits to be picked up.
    pub open spec fn is_completed(self, id: RequestId) -> bool {
        self.completed.contains_key(id)
    }

    /// `id` waits in the queue and asks for `key`.
    pub open spec fn queued_with(self, id: RequestId, key: K) -> bool {
        exists|i: int|
            0 <= i < self.queued.len() && (#[trigger] self.queued[i]).id == id
                && self.queued[i].key == key
    }

    /// `id` is in a batch in flight, its handle was not given up, and it
    /// points at `key`.
    pub open spec fn in_flight_with(self, id: RequestId, key: K) -> bool {
        exists|b: int, m: int|
            0 <= b < self.batches.len() && 0 <= m < self.batches[b].members.len() && (
            #[trigger] self.batches[b].members[m]).id == id && !self.batches[b].members[m].abandoned
                && self.batches[b].keys[self.batches[b].members[m].slot as int] == key
    }

    /// Where `id` waits in the queue and asks for `key`.
    pub open spec fn queued_with_at(self, id: RequestId, key: K) -> int {
        choose|i: int|
            0 <= i < self.queued.len() && (#[trigger] self.queued[i]).id == id
                && self.queued[i].key == key
    }

    /// The batch in flight, and the place in it, where `id` points at `key`
    /// and its handle was not given up.
    pub open spec fn in_flight_with_at(self, id: RequestId, key: K) -> (int, int) {
        choose|b: int, m: int|
            0 <= b < self.batches.len() && 0 <= m < self.batches[b].members.len() && (
            #[trigger] self.batches[b].members[m]).id == id && !self.batches[b].members[m].abandoned
                && self.batches[b].keys[self.batches[b].members[m].slot as int] == key
    }

    /// The lookup `id` of `key` has not been answered by the batch function
    /// yet, and its handle was not given up.
    pub open spec fn pends(self, id: RequestId, key: K) -> bool {
        self.queued_with(id, key) || self.in_flight_with(id, key)
    }

    /// The scheduler owes the handle of `id` an answer.
    pub open spec fn is_live(self, id: RequestId) -> bool {
        self.is_queued(id) || self.is_in_flight(id) || self.is_completed(id)
    }

    // ---------------------------------------------------------------
    // Consistency
    // ---------------------------------------------------------------
    /// Ids grow with age: through the queue, through each batch, from one
    /// batch to the next and from any batch to the queue; and none is
    /// larger than the one given out last.
    pub open spec fn ids_ordered(self) -> bool {
        &&& forall|i: int, j: int|
            0 <= i < j < self.queued.len() ==> (#[trigger] self.queued[i]).id < (
            #[trigger] self.queued[j]).id
        &&& forall|i: int|
            0 <= i < self.queued.len() ==> (#[trigger] self.queued[i]).id <= self.id_seq
        &&& forall|b: int, m: int|
            0 <= b < self.batches.len() && 0 <= m < self.batches[b].members.len() ==> (
            #[trigger] self.batches[b].members[m]).id <= self.id_seq
        &&& forall|b: int, m: int, i: int|
            0 <= b < self.batches.len() && 0 <= m < self.batches[b].members.len() && 0 <= i
                < self.queued.len() ==> (#[trigger] self.batches[b].members[m]).id < (
            #[trigger] self.queued[i]).id
        &&& forall|b: int, c: int, m: int, n: int|
            0 <= b < c < self.batches.len() && 0 <= m < self.batches[b].members.len() && 0 <= n
                < self.batches[c].members.len() ==> (#[trigger] self.batches[b].members[m]).id < (
            #[trigger] self.batches[c].members[n]).id
    }

    /// A result that waits belongs to a request that is neither queued nor
    /// in a batch.
    pub open spec fn completed_apart(self) -> bool {
        &&& forall|id: RequestId| #[trigger] self.completed.contains_key(id) ==> id <= self.id_seq
        &&& forall|i: int|
            0 <= i < self.queued.len() ==> !self.completed.contains_key(
                (#[trigger] self.queued[i]).id,
            )
        &&& forall|b: int, m: int|
            0 <= b < self.batches.len() && 0 <= m < self.batches[b].members.len()
                ==> !self.completed.contains_key((#[trigger] self.batches[b].members[m]).id)
    }

    /// The books are consistent.
    pub open spec fn wf(self) -> bool {
        &&& self.max_batch_size > 0
        &&& forall|b: int| 0 <= b < self.batches.len() ==> (#[trigger] self.batches[b]).wf()
        &&& self.ids_ordered()
        &&& self.completed_apart()
    }

    // ---------------------------------------------------------------
    // Transitions
    // ---------------------------------------------------------------
    /// The same books with another batch size.
    pub open spec fn with_max_batch_size(self, max_batch_size: usize) -> Self {
        SchedulerView { max_batch_size, ..self }
    }

    /// The same books with another deferral policy.
    pub open spec fn with_deferral(self, deferral: Deferral) -> Self {
        SchedulerView { deferral, ..self }
    }

    /// The same books after `id` was given out.
    pub open spec fn with_id_seq(self, id: RequestId) -> Self {
        SchedulerView { id_seq: id, ..self }
    }

    /// How many requests the next batch takes from the queue.
    pub open spec fn batch_len(self) -> int {
        if self.queued.len() <= self.max_batch_size {
            self.queued.len() as int
        } else {
            self.max_batch_size as int
        }
    }

    /// The batch that `dispatch` forms, if it forms one.
    pub open spec fn next_batch(self) -> Option<BatchId> {
        if self.queued.len() == 0 {
            None
        } else {
            Some(self.queued[0].id)
        }
    }

    /// The oldest queued requests, as many as a batch may hold, leave the
    /// queue and become the youngest batch in flight.
    pub open spec fn dispatch(self) -> Self {
        if self.queued.len() == 0 {
            self
        } else {
            SchedulerView {
                queued: self.queued.skip(self.batch_len()),
                batches: self.batches.push(form_batch(self.queued.take(self.batch_len()))),
                ..self
            }
        }
    }

    /// A request for `key` joins the queue under the next id.
    pub open spec fn enqueue(self, key: K) -> Self {
        SchedulerView {
            queued: self.queued.push(
                Request { id: (self.id_seq + 1) as usize, key, polls: 0 },
            ),
            id_seq: (self.id_seq + 1) as usize,
            ..self
        }
    }

    /// The queue has reached the size of a batch.
    pub open spec fn is_full(self) -> bool {
        self.queued.len() >= self.max_batch_size
    }

    /// A request for `key` is taken in: it joins the queue, and if that
    /// fills the queue, a batch is dispatched at once.
    pub open spec fn load(self, key: K) -> Self {
        if self.enqueue(key).is_full() {
            self.enqueue(key).dispatch()
        } else {
            self.enqueue(key)
        }
    }

    /// The batch that loading `key` dispatches, if it dispatches one.
    pub open spec fn load_batch(self, key: K) -> Option<BatchId> {
        if self.enqueue(key).is_full() {
            self.enqueue(key).next_batch()
        } else {
            None
        }
    }

    /// The requests for `keys` are taken in one after the other.
    pub open spec fn load_many(self, keys: Seq<K>) -> Self
        decreases keys.len(),
    {
        if keys.len() == 0 {
            self
        } else {
            self.load_many(keys.drop_last()).load(keys.last())
        }
    }

    /// The batches that loading `keys` dispatches, in their order.
    pub open spec fn load_many_batches(self, keys: Seq<K>) -> Seq<BatchId>
        decreases keys.len(),
    {
        if keys.len() == 0 {
            Seq::empty()
        } else {
            let before = self.load_many_batches(keys.drop_last());
            match self.load_many(keys.drop_last()).load_batch(keys.last()) {
                Some(batch) => before.push(batch),
                None => before,
            }
        }
    }

    /// The queue with one more poll counted for the request at `i`.
    pub open spec fn mark(self, i: int) -> Self {
        SchedulerView {
            queued: self.queued.update(
                i,
                Request {
                    id: self.queued[i].id,
                    key: self.queued[i].key,
                    polls: one_more(self.queued[i].polls),
                },
            ),
            ..self
        }
    }

    /// The deferral policy lets the request at `i` dispatch the queue now:
    /// every other queued request has been advanced before, or the request
    /// itself has waited as often as was asked.
    pub open spec fn is_due(self, i: int) -> bool {
        match self.deferral {
            Deferral::PollCount => forall|j: int|
                0 <= j < self.queued.len() && j != i ==> (#[trigger] self.queued[j]).polls > 0,
            Deferral::YieldCount(n) => self.queued[i].polls >= n,
        }
    }

    /// The books after the handle of `id` was advanced.
    pub open spec fn poll(self, id: RequestId) -> Self {
        if self.is_completed(id) {
            SchedulerView { completed: self.completed.remove(id), ..self }
        } else if self.is_queued(id) {
            if self.is_due(self.queued_at(id)) {
                self.mark(self.queued_at(id)).dispatch()
            } else {
                self.mark(self.queued_at(id))
            }
        } else {
            self
        }
    }

    /// What the handle of `id` is told when it is advanced.
    pub open spec fn poll_answer(self, id: RequestId) -> Poll<V, E> {
        if self.is_completed(id) {
            Poll::Ready(self.completed[id])
        } else if self.is_queued(id) {
            if self.is_due(self.queued_at(id)) {
                Poll::Dispatch(self.queued[0].id)
            } else {
                Poll::Wait
            }
        } else if self.is_in_flight(id) {
            Poll::Wait
        } else {
            Poll::Gone
        }
    }

    /// The books after the handle of `id` was given up: a result that
    /// waited is dropped, a queued request leaves the queue, a member of a
    /// batch is marked, and a batch whose members are all marked is torn
    /// down.
    pub open spec fn cancel(self, id: RequestId) -> Self {
        if self.is_completed(id) {
            SchedulerView { completed: self.completed.remove(id), ..self }
        } else if self.is_queued(id) {
            SchedulerView { queued: self.queued.remove(self.queued_at(id)), ..self }
        } else if self.is_in_flight(id) {
            let (b, m) = self.member_at(id);
            if self.batches[b].abandon(m).all_abandoned() {
                SchedulerView { batches: self.batches.remove(b), ..self }
            } else {
                SchedulerView {
                    batches: self.batches.update(b, self.batches[b].abandon(m)),
                    ..self
                }
            }
        } else {
            self
        }
    }

    /// The books after every request was forgotten.
    pub open spec fn reset(self) -> Self {
        SchedulerView {
            queued: Seq::empty(),
            batches: Seq::empty(),
            completed: Map::empty(),
            ..self
        }
    }

    /// The books without the batch named `batch`.
    pub open spec fn retire(self, batch: BatchId) -> Self {
        if self.has_batch(batch) {
            SchedulerView { batches: self.batches.remove(self.batch_at(batch)), ..self }
        } else {
            self
        }
    }
}

/// What the member that points at `slot` is owed when the batch function
/// answered the keys `keys` with `outcome`: the failure of the batch; the
/// value at its place, or the report of both lengths where the answer is not
/// as long as the keys; the value under its key, or the report that the key
/// is missing.
pub open spec fn owed<K, V, E>(outcome: BatchOutcome<K, V, E>, keys: Seq<K>, slot: int) -> Result<
    V,
    LoadError<E>,
> {
    match outcome {
        BatchOutcome::Failed(e) => Err(LoadError::BatchFunctionFailed(e)),
        BatchOutcome::Positional(values) => if values@.len() == keys.len() {
            Ok(values@[slot])
        } else {
            Err(
                LoadError::SizeMismatch {
                    key_count: keys.len() as usize,
                    value_count: values@.len() as usize,
                },
            )
        },
        BatchOutcome::Keyed(found) => if found@.contains_key(keys[slot]) {
            Ok(found@[keys[slot]])
        } else {
            Err(LoadError::KeyNotFoundInResult)
        },
    }
}

/// `result` is what a member that points at `slot` may be handed: a clone of
/// what it is owed.
pub open spec fn delivered<K, V: Clone, E: Clone>(
    outcome: BatchOutcome<K, V, E>,
    keys: Seq<K>,
    slot: int,
    result: Result<V, LoadError<E>>,
) -> bool {
    result_cloned(owed(outcome, keys, slot), result)
}

impl<K, V: Clone, E: Clone> SchedulerView<K, V, E> {
    /// `next` is what the books may be after the batch named `batch` was
    /// completed with `outcome`: the batch is gone, each member whose
    /// handle was not given up has the result it is owed, and nothing else
    /// has changed. Where no such batch is in flight, nothing changes.
    pub open spec fn completes(self, batch: BatchId, outcome: BatchOutcome<K, V, E>, next: Self) -> bool {
        if self.has_batch(batch) {
            let done = self.batches[self.batch_at(batch)];
            &&& next.queued == self.queued
            &&& next.batches == self.batches.remove(self.batch_at(batch))
            &&& next.id_seq == self.id_seq
            &&& next.max_batch_size == self.max_batch_size
            &&& next.deferral == self.deferral
            &&& forall|id: RequestId|
                #![trigger next.completed.contains_key(id)]
                #![trigger done.waits(id)]
                next.completed.contains_key(id) <==> self.completed.contains_key(id) || done.waits(
                    id,
                )
            &&& forall|id: RequestId|
                self.completed.contains_key(id) ==> next.completed[id] == self.completed[id]
            &&& forall|m: int|
                0 <= m < done.members.len() && !(#[trigger] done.members[m]).abandoned
                    ==> delivered(
                    outcome,
                    done.keys,
                    done.members[m].slot as int,
                    next.completed[done.members[m].id],
                )
        } else {
            next == self
        }
    }
}

/// What the results of many lookups come to when they are put together:
/// the value of each key (the last one, where a key stands twice), or the
/// failure that stands first.
pub open spec fn gathered<K, V, E>(pairs: Seq<(K, Result<V, LoadError<E>>)>) -> Result<
    Map<K, V>,
    LoadError<E>,
>
    decreases pairs.len(),
{
    if pairs.len() == 0 {
        Ok(Map::empty())
    } else {
        match gathered(pairs.drop_last()) {
            Err(e) => Err(e),
            Ok(found) => match pairs.last().1 {
                Ok(value) => Ok(found.insert(pairs.last().0, value)),
                Err(e) => Err(e),
            },
        }
    }
}

/// Putting results together fails exactly if one of them is a failure; it
/// then gives the first of them, and otherwise a value for each key and for
/// no other.
pub proof fn lemma_gathered<K, V, E>(pairs: Seq<(K, Result<V, LoadError<E>>)>)
    ensures
        match gathered(pairs) {
            Ok(found) => {
                &&& forall|i: int| 0 <= i < pairs.len() ==> (#[trigger] pairs[i]).1 is Ok
                &&& forall|key: K|
                    found.contains_key(key) <==> exists|i: int|
                        0 <= i < pairs.len() && (#[trigger] pairs[i]).0 == key
            },
            Err(e) => exists|i: int|
                {
                    &&& 0 <= i < pairs.len()
                    &&& (#[trigger] pairs[i]).1 == Err::<V, LoadError<E>>(e)
                    &&& forall|j: int| 0 <= j < i ==> (#[trigger] pairs[j]).1 is Ok
                },
        },
    decreases pairs.len(),
{
    if pairs.len() > 0 {
        let front = pairs.drop_last();
        let last = pairs.len() - 1;
        lemma_gathered(front);
        match gathered(front) {
            Err(e) => {
                let i = choose|i: int|
                    {
                        &&& 0 <= i < front.len()
                        &&& (#[trigger] front[i]).1 == Err::<V, LoadError<E>>(e)
                        &&& forall|j: int| 0 <= j < i ==> (#[trigger] front[j]).1 is Ok
                    };
                assert(pairs[i] == front[i]);
                assert forall|j: int| 0 <= j < i implies (#[trigger] pairs[j]).1 is Ok by {
                    assert(pairs[j] == front[j]);
                }
            },
            Ok(found) => {
                assert forall|j: int| 0 <= j < last implies (#[trigger] pairs[j]).1 is Ok by {
                    assert(pairs[j] == front[j]);
                }
                match pairs.last().1 {
                    Ok(value) => {
                        let all = found.insert(pairs.last().0, value);
                        assert forall|key: K|
                            all.contains_key(key) <==> exists|i: int|
                                0 <= i < pairs.len() && (#[trigger] pairs[i]).0 == key by {
                            if found.contains_key(key) {
                                let i = choose|i: int|
                                    0 <= i < front.len() && (#[trigger] front[i]).0 == key;
                                assert(pairs[i] == front[i]);
                            }
                            if key == pairs.last().0 {
                                assert(pairs[last].0 == key);
                            }
                            if exists|i: int| 0 <= i < pairs.len() && (#[trigger] pairs[i]).0 == key {
                                let i = choose|i: int|
                                    0 <= i < pairs.len() && (#[trigger] pairs[i]).0 == key;
                                if i < last {
                                    assert(front[i] == pairs[i]);
                                }
                            }
                        }
                    },
                    Err(e) => {
                        assert(pairs[last].1 == Err::<V, LoadError<E>>(e));
                    },
                }
            },
        }
    }
}

} // verus!
