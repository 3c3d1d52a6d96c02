//! The coalescing scheduler: it takes lookups in, decides when a batch is
//! dispatched, and hands the results of a completed batch to its members.
//!
//! A scheduler runs no batch function and suspends nobody. Its caller holds
//! it behind one lock, asks it what to do next, does that outside the lock,
//! and reports back.
use vstd::prelude::*;
use std::collections::HashMap;
use std::hash::Hash;
use crate::batch_fn::{BatchFn, BatchOutcome, DEFAULT_MAX_BATCH_SIZE};
use crate::error::{ConfigError, LoadError};
use crate::keys::{obeys_key_laws, position, unique};
use crate::model::{delivered, gathered, SchedulerView};
use crate::request::{
    form_batch, keys_of, BatchId, BatchView, Deferral, Handle, Member, Poll, Request, RequestId,
    next_stage, Stage,
};

verus! {

/// A batch in flight.
struct Batch<K> {
    id: BatchId,
    members: Vec<Member>,
    keys: Vec<K>,
}

impl<K> View for Batch<K> {
    type V = BatchView<K>;

    closed spec fn view(&self) -> BatchView<K> {
        BatchView { id: self.id, members: self.members@, keys: self.keys@ }
    }
}

impl<K> Batch<K> {
    /// Whether every member has been abandoned.
    fn all_abandoned(&self) -> (all: bool)
        ensures
            all == self@.all_abandoned(),
    {
        let mut m: usize = 0;
        while m < self.members.len()
            invariant
                m <= self.members.len(),
                forall|n: int| 0 <= n < m ==> (#[trigger] self.members@[n]).abandoned,
            decreases self.members.len() - m,
        {
            if !self.members[m].abandoned {
                assert(!self@.members[m as int].abandoned);
                return false;
            }
            m += 1;
        }
        true
    }
}

impl<K: Eq + Hash> Batch<K> {
    /// The batch made of the queued requests `taken`.
    fn form(taken: Vec<Request<K>>) -> (batch: Batch<K>)
        requires
            taken.len() > 0,
            obeys_key_laws::<K>(),
        ensures
            batch@ == form_batch(taken@),
    {
        let id = taken[0].id;
        let ghost all = taken@;
        let mut members: Vec<Member> = Vec::new();
        let mut keys: Vec<K> = Vec::new();
        for request in it: taken
            invariant
                obeys_key_laws::<K>(),
                it.seq() == all,
                members.len() == it.index(),
                keys@ == unique(keys_of(all.take(it.index() as int))),
                forall|m: int|
                    0 <= m < members.len() ==> {
                        &&& (#[trigger] members[m]).id == all[m].id
                        &&& !members[m].abandoned
                        &&& members[m].slot < keys.len()
                        &&& keys[members[m].slot as int] == all[m].key
                    },
        {
            let ghost done = members.len() as int;
            let ghost before = keys@;
            assert(request == all[done]);
            proof {
                let front = all.take(done + 1);
                assert(front.drop_last() =~= all.take(done));
                assert(keys_of(front).drop_last() =~= keys_of(all.take(done)));
                assert(keys_of(front).last() == request.key);
                crate::keys::lemma_unique(keys_of(all.take(done)));
            }
            let Request { id: request_id, key, polls: _ } = request;
            match position(&keys, &key) {
                Some(slot) => {
                    members.push(Member { id: request_id, slot, abandoned: false });
                },
                None => {
                    members.push(Member { id: request_id, slot: keys.len(), abandoned: false });
                    keys.push(key);
                },
            }
            assert(keys@ == unique(keys_of(all.take(done + 1))));
            assert forall|m: int| 0 <= m < members.len() implies {
                &&& (#[trigger] members[m]).id == all[m].id
                &&& !members[m].abandoned
                &&& members[m].slot < keys.len()
                &&& keys[members[m].slot as int] == all[m].key
            } by {
                if m < done {
                    assert(keys[members[m].slot as int] == before[members[m].slot as int]);
                }
            }
        }
        let batch = Batch { id, members, keys };
        proof {
            assert(all.take(all.len() as int) =~= all);
            let formed = form_batch(all);
            crate::keys::lemma_unique(keys_of(all));
            assert forall|m: int| 0 <= m < all.len() implies batch@.members[m]
                == formed.members[m] by {
                let wanted = formed.keys.index_of(all[m].key);
                assert(formed.keys[batch@.members[m].slot as int] == all[m].key);
                assert(formed.keys.contains(all[m].key));
                assert(formed.keys[wanted] == all[m].key);
                assert(wanted == batch@.members[m].slot);
            }
            assert(batch@.members =~= formed.members);
        }
        batch
    }
}

/// The shared state of a scheduler.
pub struct State<K, V, E> {
    queued: Vec<Request<K>>,
    batches: Vec<Batch<K>>,
    completed: HashMap<RequestId, Result<V, LoadError<E>>>,
    id_seq: RequestId,
    max_batch_size: usize,
    deferral: Deferral,
}

impl<K, V, E> View for State<K, V, E> {
    type V = SchedulerView<K, V, E>;

    closed spec fn view(&self) -> SchedulerView<K, V, E> {
        SchedulerView {
            queued: self.queued@,
            batches: self.batches@.map_values(|b: Batch<K>| b@),
            completed: self.completed@,
            id_seq: self.id_seq,
            max_batch_size: self.max_batch_size,
            deferral: self.deferral,
        }
    }
}

impl<K: Eq + Hash, V, E> State<K, V, E> {
    /// The state is one that the scheduler's operations keep: its books are
    /// consistent, and its key type keeps the laws of keys.
    pub open spec fn wf(&self) -> bool {
        &&& obeys_key_laws::<K>()
        &&& self@.wf()
    }

    /// A scheduler that holds nothing, with batches of up to
    /// `DEFAULT_MAX_BATCH_SIZE` keys, which dispatches a batch that is not
    /// full once every queued request has been advanced.
    pub fn new() -> (state: Self)
        requires
            obeys_key_laws::<K>(),
        ensures
            state.wf(),
            state@.queued.len() == 0,
            state@.batches.len() == 0,
            state@.completed == Map::<RequestId, Result<V, LoadError<E>>>::empty(),
            state@.id_seq == 0,
            state@.max_batch_size == DEFAULT_MAX_BATCH_SIZE,
            state@.deferral == Deferral::PollCount,
    {
        let state = State {
            queued: Vec::new(),
            batches: Vec::new(),
            completed: HashMap::new(),
            id_seq: 0,
            max_batch_size: DEFAULT_MAX_BATCH_SIZE,
            deferral: Deferral::PollCount,
        };
        proof {
            assert(state@.batches =~= Seq::empty());
        }
        state
    }

    /// Asks `load_fn` for the batch size it declares and builds a scheduler
    /// for it: one that holds nothing, or the refusal of a size of zero.
    pub fn for_batch_fn<F: BatchFn<K, V, Error = E>>(load_fn: &F) -> (built: Result<Self, ConfigError>)
        requires
            obeys_key_laws::<K>(),
        ensures
            exists|declared: usize| #[trigger]
                call_ensures(F::max_batch_size, (load_fn,), declared) && Self::built_for(
                    built,
                    declared,
                ),
    {
        let declared = load_fn.max_batch_size();
        let state: Self = State::new();
        let built = state.with_max_batch_size(declared);
        assert(call_ensures(F::max_batch_size, (load_fn,), declared) && Self::built_for(
            built,
            declared,
        ));
        built
    }

    /// `built` is what building a scheduler for batches of up to `size` keys
    /// gives: the refusal of a size of zero, and otherwise a scheduler that
    /// holds nothing, has given out no id, forms batches of that size, and
    /// dispatches a batch that is not full once every queued request has
    /// been advanced.
    pub open spec fn built_for(built: Result<Self, ConfigError>, size: usize) -> bool {
        match built {
            Ok(state) => {
                &&& size > 0
                &&& state.wf()
                &&& state@.queued.len() == 0
                &&& state@.batches.len() == 0
                &&& state@.completed == Map::<RequestId, Result<V, LoadError<E>>>::empty()
                &&& state@.id_seq == 0
                &&& state@.max_batch_size == size
                &&& state@.deferral == Deferral::PollCount
            },
            Err(e) => size == 0 && e == ConfigError::ZeroBatchSize,
        }
    }

    /// The same scheduler with batches of up to `max_batch_size` keys, or
    /// the refusal of a size of zero.
    pub fn with_max_batch_size(self, max_batch_size: usize) -> (built: Result<Self, ConfigError>)
        requires
            self.wf(),
        ensures
            match built {
                Ok(state) => {
                    &&& max_batch_size > 0
                    &&& state.wf()
                    &&& state@ == self@.with_max_batch_size(max_batch_size)
                },
                Err(e) => max_batch_size == 0 && e == ConfigError::ZeroBatchSize,
            },
    {
        if max_batch_size == 0 {
            return Err(ConfigError::ZeroBatchSize);
        }
        let mut state = self;
        state.max_batch_size = max_batch_size;
        Ok(state)
    }

    /// The same scheduler, which from now on dispatches a batch that is not
    /// full as soon as a handle has been told to wait `yield_count` times.
    pub fn with_yield_count(self, yield_count: usize) -> (state: Self)
        requires
            self.wf(),
        ensures
            state.wf(),
            state@ == self@.with_deferral(Deferral::YieldCount(yield_count)),
    {
        let mut state = self;
        state.deferral = Deferral::YieldCount(yield_count);
        state
    }

    /// The largest number of requests that a batch is formed of.
    pub fn max_batch_size(&self) -> (size: usize)
        ensures
            size == self@.max_batch_size,
    {
        self.max_batch_size
    }

    /// When a batch that is not full is dispatched.
    pub fn deferral(&self) -> (deferral: Deferral)
        ensures
            deferral == self@.deferral,
    {
        self.deferral
    }

    /// How many more requests can be given an id.
    pub fn spare_ids(&self) -> (spare: usize)
        ensures
            spare == usize::MAX - self@.id_seq,
    {
        usize::MAX - self.id_seq
    }

    /// Where `id` waits in the queue, if it waits there.
    fn find_queued(&self, id: RequestId) -> (found: Option<usize>)
        requires
            self.wf(),
        ensures
            match found {
                Some(i) => self@.is_queued(id) && i == self@.queued_at(id) && i < self@.queued.len(),
                None => !self@.is_queued(id),
            },
    {
        let mut i: usize = 0;
        while i < self.queued.len()
            invariant
                self.wf(),
                i <= self.queued.len(),
                forall|j: int| 0 <= j < i ==> (#[trigger] self.queued@[j]).id != id,
            decreases self.queued.len() - i,
        {
            if self.queued[i].id == id {
                proof {
                    assert(self@.queued[i as int].id == id);
                    let chosen = self@.queued_at(id);
                    assert(self@.queued[chosen].id == id);
                    if chosen < i {
                        assert(self@.queued[chosen].id < self@.queued[i as int].id);
                    }
                    if i < chosen {
                        assert(self@.queued[i as int].id < self@.queued[chosen].id);
                    }
                }
                return Some(i);
            }
            i += 1;
        }
        None
    }

    /// Where the batch named `batch` stands, if it is in flight.
    fn find_batch(&self, batch: BatchId) -> (found: Option<usize>)
        requires
            self.wf(),
        ensures
            match found {
                Some(b) => self@.has_batch(batch) && b == self@.batch_at(batch) && b
                    < self@.batches.len(),
                None => !self@.has_batch(batch),
            },
    {
        let mut b: usize = 0;
        while b < self.batches.len()
            invariant
                self.wf(),
                b <= self.batches.len(),
                forall|c: int| 0 <= c < b ==> (#[trigger] self@.batches[c]).id != batch,
            decreases self.batches.len() - b,
        {
            assert(self@.batches[b as int] == self.batches@[b as int]@);
            if self.batches[b].id == batch {
                proof {
                    let chosen = self@.batch_at(batch);
                    assert(self@.batches[chosen].id == batch);
                    assert(self@.batches[chosen].wf());
                    assert(self@.batches[b as int].wf());
                    if chosen < b {
                        assert(self@.batches[chosen].members[0].id < self@.batches[b as int].members[0].id);
                    }
                    if b < chosen {
                        assert(self@.batches[b as int].members[0].id < self@.batches[chosen].members[0].id);
                    }
                }
                return Some(b);
            }
            b += 1;
        }
        None
    }

    /// The batch that holds `id` and where `id` stands in it, if a batch in
    /// flight holds it.
    fn find_member(&self, id: RequestId) -> (found: Option<(usize, usize)>)
        requires
            self.wf(),
        ensures
            match found {
                Some((b, m)) => {
                    &&& self@.is_member(id)
                    &&& (b as int, m as int) == self@.member_at(id)
                    &&& b < self@.batches.len()
                    &&& m < self@.batches[b as int].members.len()
                },
                None => !self@.is_member(id),
            },
    {
        let mut b: usize = 0;
        while b < self.batches.len()
            invariant
                self.wf(),
                b <= self.batches.len(),
                forall|c: int, n: int|
                    0 <= c < b && 0 <= n < self@.batches[c].members.len() ==> (
                    #[trigger] self@.batches[c].members[n]).id != id,
            decreases self.batches.len() - b,
        {
            assert(self@.batches[b as int] == self.batches@[b as int]@);
            let mut m: usize = 0;
            while m < self.batches[b].members.len()
                invariant
                    self.wf(),
                    b < self.batches.len(),
                    self@.batches[b as int] == self.batches@[b as int]@,
                    m <= self.batches@[b as int].members.len(),
                    forall|n: int|
                        0 <= n < m ==> (#[trigger] self@.batches[b as int].members[n]).id != id,
                decreases self.batches@[b as int].members.len() - m,
            {
                if self.batches[b].members[m].id == id {
                    proof {
                        assert(self@.batches[b as int].members[m as int].id == id);
                        let (cb, cm) = self@.member_at(id);
                        assert(self@.batches[cb].members[cm].id == id);
                        assert(self@.batches[cb].wf());
                        if cb < b {
                            assert(self@.batches[cb].members[cm].id
                                < self@.batches[b as int].members[m as int].id);
                        }
                        if b < cb {
                            assert(self@.batches[b as int].members[m as int].id
                                < self@.batches[cb].members[cm].id);
                        }
                        if cm < m {
                            assert(self@.batches[cb].members[cm].id < self@.batches[cb].members[m as int].id);
                        }
                        if m < cm {
                            assert(self@.batches[cb].members[m as int].id < self@.batches[cb].members[cm].id);
                        }
                    }
                    return Some((b, m));
                }
                m += 1;
            }
            b += 1;
        }
        None
    }

    /// Forms a batch of the oldest queued requests, as many as a batch may
    /// hold, and names it. Where nothing is queued, nothing happens.
    pub fn dispatch(&mut self) -> (formed: Option<BatchId>)
        requires
            old(self).wf(),
        ensures
            final(self).wf(),
            final(self)@ == old(self)@.dispatch(),
            formed == old(self)@.next_batch(),
    {
        if self.queued.len() == 0 {
            return None;
        }
        let n = if self.queued.len() <= self.max_batch_size {
            self.queued.len()
        } else {
            self.max_batch_size
        };
        let rest = self.queued.split_off(n);
        let mut taken = rest;
        std::mem::swap(&mut taken, &mut self.queued);
        let batch = Batch::form(taken);
        let id = batch.id;
        self.batches.push(batch);
        proof {
            old(self)@.lemma_dispatch_wf();
            assert(old(self)@.queued.take(n as int) == old(self)@.queued.subrange(0, n as int));
            assert(final(self)@.queued =~= old(self)@.dispatch().queued);
            assert(final(self)@.batches =~= old(self)@.dispatch().batches);
        }
        Some(id)
    }

    /// Takes a lookup of `key` in: it joins the queue under a new id, and
    /// where that fills the queue, a batch is dispatched at once. Gives the
    /// handle of the lookup and the batch that was dispatched, if one was.
    pub fn load(&mut self, key: K) -> (taken_in: (Handle, Option<BatchId>))
        requires
            old(self).wf(),
            old(self)@.id_seq < usize::MAX,
        ensures
            final(self).wf(),
            final(self)@ == old(self)@.load(key),
            taken_in.0.id() == old(self)@.id_seq + 1,
            taken_in.0.stage() == Stage::Created,
            taken_in.1 == old(self)@.load_batch(key),
    {
        let id = self.enqueue(key);
        let batch = if self.queued.len() >= self.max_batch_size {
            self.dispatch()
        } else {
            None
        };
        (Handle::new(id), batch)
    }

    /// Puts a lookup of `key` at the end of the queue under a new id.
    fn enqueue(&mut self, key: K) -> (id: RequestId)
        requires
            old(self).wf(),
            old(self)@.id_seq < usize::MAX,
        ensures
            final(self).wf(),
            final(self)@ == old(self)@.enqueue(key),
            id == old(self)@.id_seq + 1,
    {
        let id = self.next_request_id();
        self.queued.push(Request { id, key, polls: 0 });
        proof {
            old(self)@.lemma_enqueue_wf(key);
            assert(final(self)@.batches =~= old(self)@.batches);
        }
        id
    }

    /// Whether the deferral policy lets the queued request at `i` dispatch
    /// the queue now.
    fn is_due(&self, i: usize) -> (due: bool)
        requires
            self.wf(),
            i < self@.queued.len(),
        ensures
            due == self@.is_due(i as int),
    {
        match self.deferral {
            Deferral::YieldCount(n) => self.queued[i].polls >= n,
            Deferral::PollCount => {
                let mut j: usize = 0;
                while j < self.queued.len()
                    invariant
                        self.deferral == Deferral::PollCount,
                        j <= self.queued.len(),
                        i < self.queued.len(),
                        forall|k: int|
                            0 <= k < j && k != i ==> (#[trigger] self.queued@[k]).polls > 0,
                    decreases self.queued.len() - j,
                {
                    if j != i && self.queued[j].polls == 0 {
                        assert(self@.queued[j as int].polls == 0);
                        return false;
                    }
                    j += 1;
                }
                true
            },
        }
    }

    /// Counts one more poll for the queued request at `i`.
    fn mark(&mut self, i: usize)
        requires
            old(self).wf(),
            i < old(self)@.queued.len(),
        ensures
            final(self).wf(),
            final(self)@ == old(self)@.mark(i as int),
    {
        let polls = self.queued[i].polls;
        let counted = if polls < usize::MAX {
            polls + 1
        } else {
            polls
        };
        self.queued[i].polls = counted;
        proof {
            old(self)@.lemma_mark_wf(i as int);
            assert(final(self)@.queued =~= old(self)@.mark(i as int).queued);
            assert(final(self)@.batches =~= old(self)@.batches);
        }
    }

    /// Advances the request `id`: hands its result over if it waits, lets it
    /// dispatch the queue if it is queued and the deferral policy says so,
    /// and tells it to wait otherwise.
    pub fn poll_request(&mut self, id: RequestId) -> (answer: Poll<V, E>)
        requires
            old(self).wf(),
        ensures
            final(self).wf(),
            final(self)@ == old(self)@.poll(id),
            answer == old(self)@.poll_answer(id),
    {
        broadcast use vstd::std_specs::hash::group_hash_axioms;

        proof {
            old(self)@.lemma_poll_wf(id);
        }
        match self.completed.remove(&id) {
            Some(result) => {
                proof {
                    assert(final(self)@.batches =~= old(self)@.batches);
                }
                return Poll::Ready(result);
            },
            None => {
                proof {
                    assert(self.completed@ =~= old(self).completed@);
                    assert(self@.batches =~= old(self)@.batches);
                    assert(self@ == old(self)@);
                }
            },
        }
        match self.find_queued(id) {
            Some(i) => {
                let due = self.is_due(i);
                self.mark(i);
                if due {
                    let formed = self.dispatch();
                    match formed {
                        Some(batch) => Poll::Dispatch(batch),
                        None => Poll::Wait,
                    }
                } else {
                    Poll::Wait
                }
            },
            None => {
                match self.find_member(id) {
                    Some((b, m)) => {
                        assert(self@.batches[b as int] == self.batches@[b as int]@);
                        if self.batches[b].members[m].abandoned {
                            Poll::Gone
                        } else {
                            Poll::Wait
                        }
                    },
                    None => Poll::Gone,
                }
            },
        }
    }

    /// Advances `handle`, and moves it to the stage that the answer puts it
    /// in.
    pub fn poll(&mut self, handle: &mut Handle) -> (answer: Poll<V, E>)
        requires
            old(self).wf(),
        ensures
            final(self).wf(),
            final(self)@ == old(self)@.poll(old(handle).id()),
            answer == old(self)@.poll_answer(old(handle).id()),
            final(handle).id() == old(handle).id(),
            final(handle).stage() == next_stage(old(handle).stage(), answer is Ready),
    {
        let answer = self.poll_request(handle.id());
        let ready = match &answer {
            Poll::Ready(_) => true,
            _ => false,
        };
        handle.advance(ready);
        answer
    }

    /// Gives the request `id` up: a result that waits for it is dropped, a
    /// queued request leaves the queue, and a member of a batch in flight is
    /// marked as abandoned; a batch whose members are all abandoned is torn
    /// down at once. An id that the scheduler does not know changes nothing.
    pub fn cancel_request(&mut self, id: RequestId)
        requires
            old(self).wf(),
        ensures
            final(self).wf(),
            final(self)@ == old(self)@.cancel(id),
    {
        broadcast use vstd::std_specs::hash::group_hash_axioms;

        proof {
            old(self)@.lemma_cancel_wf(id);
        }
        match self.completed.remove(&id) {
            Some(_) => {
                proof {
                    assert(final(self)@.batches =~= old(self)@.batches);
                }
                return ;
            },
            None => {
                proof {
                    assert(self.completed@ =~= old(self).completed@);
                    assert(self@.batches =~= old(self)@.batches);
                    assert(self@ == old(self)@);
                }
            },
        }
        match self.find_queued(id) {
            Some(i) => {
                self.queued.remove(i);
                proof {
                    assert(final(self)@.batches =~= old(self)@.batches);
                    assert(final(self)@.queued =~= old(self)@.queued.remove(i as int));
                }
                return ;
            },
            None => {},
        }
        match self.find_member(id) {
            Some((b, m)) => {
                assert(self@.batches[b as int] == self.batches@[b as int]@);
                if !self.batches[b].members[m].abandoned {
                    let ghost marked = old(self)@.batches[b as int].abandon(m as int);
                    self.batches[b].members[m].abandoned = true;
                    assert(self.batches@[b as int]@.members =~= marked.members);
                    assert(self.batches@[b as int]@ == marked);
                    if self.batches[b].all_abandoned() {
                        self.batches.remove(b);
                        proof {
                            assert(final(self)@.batches =~= old(self)@.batches.remove(b as int));
                        }
                    } else {
                        proof {
                            assert(final(self)@.batches =~= old(self)@.batches.update(
                                b as int,
                                marked,
                            ));
                        }
                    }
                }
            },
            None => {},
        }
    }

    /// Gives `handle` up before its result was handed over.
    pub fn cancel(&mut self, handle: Handle)
        requires
            old(self).wf(),
        ensures
            final(self).wf(),
            final(self)@ == old(self)@.cancel(handle.id()),
    {
        self.cancel_request(handle.id());
    }

    /// The keys that the batch function is to be called with for the batch
    /// named `batch`, if that batch is in flight.
    pub fn batch_keys(&self, batch: BatchId) -> (keys: Option<&Vec<K>>)
        requires
            self.wf(),
        ensures
            match keys {
                Some(keys) => self@.has_batch(batch) && keys@
                    == self@.batches[self@.batch_at(batch)].keys,
                None => !self@.has_batch(batch),
            },
    {
        match self.find_batch(batch) {
            Some(b) => {
                assert(self@.batches[b as int] == self.batches@[b as int]@);
                Some(&self.batches[b].keys)
            },
            None => None,
        }
    }

    /// Takes the batch named `batch` out of flight and hands over its
    /// members and its keys. Where no such batch is in flight, nothing
    /// changes.
    pub fn retire(&mut self, batch: BatchId) -> (retired: Option<(Vec<Member>, Vec<K>)>)
        requires
            old(self).wf(),
        ensures
            final(self).wf(),
            final(self)@ == old(self)@.retire(batch),
            match retired {
                Some((members, keys)) => {
                    &&& old(self)@.has_batch(batch)
                    &&& members@ == old(self)@.batches[old(self)@.batch_at(batch)].members
                    &&& keys@ == old(self)@.batches[old(self)@.batch_at(batch)].keys
                },
                None => !old(self)@.has_batch(batch),
            },
    {
        proof {
            old(self)@.lemma_retire_wf(batch);
        }
        match self.find_batch(batch) {
            Some(b) => {
                assert(self@.batches[b as int] == self.batches@[b as int]@);
                let Batch { id: _, members, keys } = self.batches.remove(b);
                proof {
                    assert(final(self)@.batches =~= old(self)@.batches.remove(b as int));
                }
                Some((members, keys))
            },
            None => None,
        }
    }

    /// Forgets every request: the queue, the batches in flight and the
    /// results that wait. Ids that were given out are not given out again.
    pub fn reset(&mut self)
        requires
            old(self).wf(),
        ensures
            final(self).wf(),
            final(self)@ == old(self)@.reset(),
    {
        self.queued.clear();
        self.batches.clear();
        self.completed.clear();
        proof {
            assert(final(self)@.batches =~= Seq::empty());
            assert(final(self)@.queued =~= Seq::empty());
        }
    }

    /// Takes the lookups of `keys` in, one after the other as `load` does.
    /// Gives their handles in the order of the keys, and the batches that
    /// were dispatched on the way. A key that stands twice is taken in
    /// twice; the batch function is still asked for it once in each batch.
    pub fn load_many(&mut self, keys: Vec<K>) -> (taken_in: (Vec<Handle>, Vec<BatchId>))
        requires
            old(self).wf(),
            old(self)@.id_seq + keys.len() <= usize::MAX,
        ensures
            final(self).wf(),
            final(self)@ == old(self)@.load_many(keys@),
            taken_in.0.len() == keys.len(),
            forall|i: int|
                0 <= i < keys.len() ==> {
                    &&& (#[trigger] taken_in.0[i]).id() == old(self)@.id_seq + 1 + i
                    &&& taken_in.0[i].stage() == Stage::Created
                },
            taken_in.1@ == old(self)@.load_many_batches(keys@),
    {
        let ghost all = keys@;
        let ghost start = self@;
        let mut handles: Vec<Handle> = Vec::new();
        let mut batches: Vec<BatchId> = Vec::new();
        for key in it: keys
            invariant
                it.seq() == all,
                start.wf(),
                start.id_seq + all.len() <= usize::MAX,
                self.wf(),
                self@ == start.load_many(all.take(it.index() as int)),
                batches@ == start.load_many_batches(all.take(it.index() as int)),
                handles.len() == it.index(),
                forall|i: int|
                    0 <= i < handles.len() ==> {
                        &&& (#[trigger] handles[i]).id() == start.id_seq + 1 + i
                        &&& handles[i].stage() == Stage::Created
                    },
        {
            let ghost done = handles.len() as int;
            proof {
                start.lemma_load_many(all.take(done));
                assert(all.take(done + 1).drop_last() =~= all.take(done));
                assert(all.take(done + 1).last() == key);
            }
            let (handle, batch) = self.load(key);
            handles.push(handle);
            match batch {
                Some(batch) => {
                    batches.push(batch);
                },
                None => {},
            }
        }
        proof {
            assert(all.take(all.len() as int) =~= all);
        }
        (handles, batches)
    }

    /// The key that the lookup `id` asks for, if that lookup is queued or in
    /// flight and its handle was not given up.
    pub fn pending_key(&self, id: RequestId) -> (key: Option<&K>)
        requires
            self.wf(),
        ensures
            match key {
                Some(k) => self@.pends(id, *k),
                None => forall|k: K| !self@.pends(id, k),
            },
    {
        match self.find_queued(id) {
            Some(i) => {
                proof {
                    self@.lemma_queued_at(i as int);
                }
                Some(&self.queued[i].key)
            },
            None => {
                match self.find_member(id) {
                    Some((b, m)) => {
                        assert(self@.batches[b as int] == self.batches@[b as int]@);
                        assert(self@.batches[b as int].wf());
                        if self.batches[b].members[m].abandoned {
                            proof {
                                assert forall|k: K| !self@.pends(id, k) by {
                                    if self@.pends(id, k) {
                                        self@.lemma_pends_one_key(id, k, k);
                                    }
                                }
                            }
                            None
                        } else {
                            let slot = self.batches[b].members[m].slot;
                            assert(self@.batches[b as int].members[m as int].id == id);
                            Some(&self.batches[b].keys[slot])
                        }
                    },
                    None => {
                        proof {
                            assert forall|k: K| !self@.pends(id, k) by {
                                if self@.pends(id, k) {
                                    self@.lemma_pends_one_key(id, k, k);
                                }
                            }
                        }
                        None
                    },
                }
            },
        }
    }

    /// How many requests are queued.
    pub fn queue_len(&self) -> (len: usize)
        ensures
            len == self@.queued.len(),
    {
        self.queued.len()
    }

    /// How many batches are in flight.
    pub fn batch_count(&self) -> (count: usize)
        ensures
            count == self@.batches.len(),
    {
        self.batches.len()
    }

    /// The name of the batch that has been in flight longest.
    pub fn oldest_batch(&self) -> (batch: BatchId)
        requires
            self.wf(),
            self@.batches.len() > 0,
        ensures
            batch == self@.batches[0].id,
            self@.has_batch(batch),
            self@.batch_at(batch) == 0,
    {
        assert(self@.batches[0] == self.batches@[0]@);
        proof {
            self@.lemma_batch_at(0);
        }
        self.batches[0].id
    }

    /// The next request id: one more than the one given out last.
    pub fn next_request_id(&mut self) -> (id: RequestId)
        requires
            old(self).wf(),
            old(self)@.id_seq < usize::MAX,
        ensures
            final(self).wf(),
            id == old(self)@.id_seq + 1,
            final(self)@ == old(self)@.with_id_seq(id),
    {
        self.id_seq = self.id_seq + 1;
        self.id_seq
    }
}

/// The result that the member pointing at `slot` is owed when the batch
/// function answered `keys` with `outcome`: a clone of the failure, a clone
/// of the value at its place or under its key, or the report that the
/// answer has the wrong length or lacks the key.
pub fn resolve<K: Eq + Hash, V: Clone, E: Clone>(
    outcome: &BatchOutcome<K, V, E>,
    keys: &Vec<K>,
    slot: usize,
) -> (result: Result<V, LoadError<E>>)
    requires
        obeys_key_laws::<K>(),
        slot < keys.len(),
    ensures
        delivered(*outcome, keys@, slot as int, result),
{
    broadcast use vstd::std_specs::hash::group_hash_axioms;

    match outcome {
        BatchOutcome::Failed(e) => Err(LoadError::BatchFunctionFailed(e.clone())),
        BatchOutcome::Positional(values) => {
            if values.len() == keys.len() {
                Ok(values[slot].clone())
            } else {
                Err(LoadError::SizeMismatch { key_count: keys.len(), value_count: values.len() })
            }
        },
        BatchOutcome::Keyed(found) => {
            match found.get(&keys[slot]) {
                Some(value) => Ok(value.clone()),
                None => Err(LoadError::KeyNotFoundInResult),
            }
        },
    }
}

impl<K: Eq + Hash, V: Clone, E: Clone> State<K, V, E> {
    /// Completes the batch named `batch` with what the batch function gave
    /// back for its keys: the batch leaves the books, and each member whose
    /// handle was not given up gets the result it is owed. Where no such
    /// batch is in flight, the outcome is dropped and nothing changes.
    pub fn complete(&mut self, batch: BatchId, outcome: BatchOutcome<K, V, E>)
        requires
            old(self).wf(),
        ensures
            final(self).wf(),
            old(self)@.completes(batch, outcome, final(self)@),
    {
        broadcast use vstd::std_specs::hash::group_hash_axioms;

        let ghost start = self@;
        match self.retire(batch) {
            None => {},
            Some((members, keys)) => {
                let ghost b = start.batch_at(batch);
                let ghost done = start.batches[b];
                let ghost before = self.completed@;
                assert(done.wf());
                assert forall|m: int| 0 <= m < done.members.len() implies !before.contains_key(
                    (#[trigger] done.members[m]).id,
                ) by {
                    assert(!start.completed.contains_key(start.batches[b].members[m].id));
                }
                let mut m: usize = 0;
                while m < members.len()
                    invariant
                        obeys_key_laws::<K>(),
                        m <= members.len(),
                        members@ == done.members,
                        keys@ == done.keys,
                        done.wf(),
                        self@.queued == start.queued,
                        self@.batches == start.batches.remove(b),
                        self@.id_seq == start.id_seq,
                        self@.max_batch_size == start.max_batch_size,
                        self@.deferral == start.deferral,
                        before == start.completed,
                        forall|n: int|
                            0 <= n < done.members.len() ==> !before.contains_key(
                                (#[trigger] done.members[n]).id,
                            ),
                        forall|id: RequestId|
                            self@.completed.contains_key(id) <==> before.contains_key(id) || exists|
                                n: int,
                            |
                                0 <= n < m && (#[trigger] done.members[n]).id == id
                                    && !done.members[n].abandoned,
                        forall|id: RequestId|
                            before.contains_key(id) ==> self@.completed[id] == before[id],
                        forall|n: int|
                            0 <= n < m && !(#[trigger] done.members[n]).abandoned ==> delivered(
                                outcome,
                                done.keys,
                                done.members[n].slot as int,
                                self@.completed[done.members[n].id],
                            ),
                    decreases members.len() - m,
                {
                    let ghost earlier = self@.completed;
                    if !members[m].abandoned {
                        let result = resolve(&outcome, &keys, members[m].slot);
                        self.completed.insert(members[m].id, result);
                        proof {
                            let id = done.members[m as int].id;
                            assert(self@.batches =~= start.batches.remove(b));
                            assert forall|n: int|
                                0 <= n < m && !(#[trigger] done.members[n]).abandoned implies delivered(
                                outcome,
                                done.keys,
                                done.members[n].slot as int,
                                self@.completed[done.members[n].id],
                            ) by {
                                assert(done.members[n].id < done.members[m as int].id);
                                assert(self@.completed[done.members[n].id]
                                    == earlier[done.members[n].id]);
                            }
                            assert forall|other: RequestId|
                                self@.completed.contains_key(other) <==> before.contains_key(other)
                                    || exists|n: int|
                                    0 <= n < m + 1 && (#[trigger] done.members[n]).id == other
                                        && !done.members[n].abandoned by {
                                if other == id {
                                    assert(done.members[m as int].id == other
                                        && !done.members[m as int].abandoned);
                                }
                            }
                        }
                    }
                    m += 1;
                }
                proof {
                    assert(start.completes(batch, outcome, self@));
                }
            },
        }
        proof {
            start.lemma_completes_wf(batch, outcome, self@);
        }
    }
}

impl<K: Eq + Hash, V: Clone, E: Clone> State<K, V, E> {
    /// Calls `load_fn` with the keys of the batch named `batch` and
    /// completes the batch with what it gives back. Tells whether such a
    /// batch was in flight; where none was, `load_fn` is not called and
    /// nothing changes.
    pub fn run_batch<F: BatchFn<K, V, Error = E>>(&mut self, batch: BatchId, load_fn: &mut F) -> (ran:
        bool)
        requires
            old(self).wf(),
        ensures
            final(self).wf(),
            ran == old(self)@.has_batch(batch),
            !ran ==> final(self)@ == old(self)@,
            ran ==> exists|outcome: BatchOutcome<K, V, E>| #[trigger]
                old(self)@.completes(batch, outcome, final(self)@),
    {
        let outcome = match self.batch_keys(batch) {
            Some(keys) => load_fn.load(keys.as_slice()),
            None => {
                return false;
            },
        };
        self.complete(batch, outcome);
        true
    }

    /// Answers every request that the scheduler owes an answer: calls
    /// `load_fn` for each batch in flight, oldest first, then dispatches
    /// what is queued and calls `load_fn` for that, until nothing is queued
    /// or in flight. Afterwards the result of each of those requests waits
    /// to be picked up.
    pub fn drain<F: BatchFn<K, V, Error = E>>(&mut self, load_fn: &mut F)
        requires
            old(self).wf(),
        ensures
            final(self).wf(),
            final(self)@.queued.len() == 0,
            final(self)@.batches.len() == 0,
            final(self)@.id_seq == old(self)@.id_seq,
            final(self)@.max_batch_size == old(self)@.max_batch_size,
            final(self)@.deferral == old(self)@.deferral,
            forall|id: RequestId|
                #[trigger] final(self)@.is_completed(id) <==> old(self)@.is_live(id),
            forall|id: RequestId|
                old(self)@.is_completed(id) ==> final(self)@.is_completed(id)
                    && #[trigger] final(self)@.completed[id] == old(self)@.completed[id],
    {
        let ghost start = self@;
        while self.batches.len() > 0 || self.queued.len() > 0
            invariant
                self.wf(),
                self@.id_seq == start.id_seq,
                self@.max_batch_size == start.max_batch_size,
                self@.deferral == start.deferral,
                forall|id: RequestId| #[trigger] self@.is_live(id) <==> start.is_live(id),
                forall|id: RequestId| #[trigger]
                    start.completed.contains_key(id) ==> self@.completed.contains_key(id)
                        && self@.completed[id] == start.completed[id],
            decreases 2 * self@.queued.len() + self@.batches.len(),
        {
            let ghost before = self@;
            if self.batches.len() == 0 {
                proof {
                    before.lemma_dispatch_live();
                    before.lemma_dispatch_wf();
                }
                self.dispatch();
            }
            let ghost mid = self@;
            let batch = self.oldest_batch();
            self.run_batch(batch, load_fn);
            proof {
                let outcome = choose|outcome: BatchOutcome<K, V, E>| #[trigger]
                    mid.completes(batch, outcome, self@);
                mid.lemma_completes_live(batch, outcome, self@);
                assert forall|id: RequestId| #[trigger] self@.is_live(id) <==> start.is_live(
                    id,
                ) by {
                    assert(mid.is_live(id) <==> before.is_live(id));
                }
                assert forall|id: RequestId| #[trigger]
                    start.completed.contains_key(id) implies self@.completed.contains_key(id)
                    && self@.completed[id] == start.completed[id] by {
                    assert(before.completed.contains_key(id));
                    assert(mid.completed == before.completed);
                    assert(mid.is_completed(id));
                    assert(self@.completed[id] == mid.completed[id]);
                }
            }
        }
        proof {
            assert forall|id: RequestId| #[trigger]
                final(self)@.is_completed(id) <==> start.is_live(id) by {
                assert(final(self)@.is_live(id) <==> start.is_live(id));
                assert(!final(self)@.is_queued(id));
                assert(!final(self)@.is_member(id));
            }
        }
    }
}

/// Puts the results of many lookups together, each with the key it was
/// asked for: a map from each key to its value, or the first failure.
pub fn gather<K: Eq + Hash, V, E>(pairs: Vec<(K, Result<V, LoadError<E>>)>) -> (all: Result<
    HashMap<K, V>,
    LoadError<E>,
>)
    requires
        obeys_key_laws::<K>(),
    ensures
        match all {
            Ok(found) => gathered(pairs@) == Ok::<Map<K, V>, LoadError<E>>(found@),
            Err(e) => gathered(pairs@) == Err::<Map<K, V>, LoadError<E>>(e),
        },
{
    broadcast use vstd::std_specs::hash::group_hash_axioms;

    let ghost whole = pairs@;
    let mut found: HashMap<K, V> = HashMap::new();
    for pair in it: pairs
        invariant
            obeys_key_laws::<K>(),
            it.seq() == whole,
            gathered(whole.take(it.index() as int)) == Ok::<Map<K, V>, LoadError<E>>(found@),
    {
        let ghost done = it.index() as int;
        proof {
            assert(whole.take(done + 1).drop_last() =~= whole.take(done));
            assert(whole.take(done + 1).last() == pair);
        }
        let (key, result) = pair;
        match result {
            Ok(value) => {
                found.insert(key, value);
            },
            Err(e) => {
                proof {
                    lemma_gather_fails(whole, done + 1);
                }
                return Err(e);
            },
        }
    }
    proof {
        assert(whole.take(whole.len() as int) =~= whole);
    }
    Ok(found)
}

/// Once the first `upto` results come to a failure, all of them come to
/// that failure.
proof fn lemma_gather_fails<K, V, E>(pairs: Seq<(K, Result<V, LoadError<E>>)>, upto: int)
    requires
        0 <= upto <= pairs.len(),
        gathered(pairs.take(upto)) is Err,
    ensures
        gathered(pairs) == gathered(pairs.take(upto)),
    decreases pairs.len() - upto,
{
    if upto < pairs.len() {
        assert(pairs.take(upto + 1).drop_last() =~= pairs.take(upto));
        lemma_gather_fails(pairs, upto + 1);
    } else {
        assert(pairs.take(upto) =~= pairs);
    }
}

} // verus!
