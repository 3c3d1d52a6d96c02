//! No transition of the scheduler loses a pending lookup, makes one up, or
//! changes the key that one asks for.
use vstd::prelude::*;
use crate::batch_fn::BatchOutcome;
use crate::model::SchedulerView;
use crate::request::{form_batch, lemma_form_batch, BatchId, RequestId};

verus! {

impl<K, V, E> SchedulerView<K, V, E> {
    /// Books with the same batches have the same lookups in flight.
    pub proof fn lemma_same_batches(self, other: Self)
        requires
            self.batches == other.batches,
        ensures
            forall|id: RequestId, k: K|
                #[trigger] self.in_flight_with(id, k) == other.in_flight_with(id, k),
    {
        assert forall|id: RequestId, k: K| #[trigger]
            self.in_flight_with(id, k) == other.in_flight_with(id, k) by {
            if self.in_flight_with(id, k) {
                let (b, m) = self.in_flight_with_at(id, k);
                assert(other.batches[b].members[m].id == id);
            }
            if other.in_flight_with(id, k) {
                let (b, m) = other.in_flight_with_at(id, k);
                assert(self.batches[b].members[m].id == id);
            }
        }
    }

    /// Books with the same queue have the same lookups queued.
    pub proof fn lemma_same_queue(self, other: Self)
        requires
            self.queued == other.queued,
        ensures
            forall|id: RequestId, k: K| #[trigger] self.queued_with(id, k) == other.queued_with(id, k),
    {
        assert forall|id: RequestId, k: K| #[trigger]
            self.queued_with(id, k) == other.queued_with(id, k) by {
            if self.queued_with(id, k) {
                let i = self.queued_with_at(id, k);
                assert(other.queued[i].id == id);
            }
            if other.queued_with(id, k) {
                let i = other.queued_with_at(id, k);
                assert(self.queued[i].id == id);
            }
        }
    }

    /// A request is in one place at most: in the queue, in one batch in
    /// flight, or among the results that wait.
    pub proof fn lemma_one_place(self, id: RequestId)
        requires
            self.wf(),
        ensures
            !(self.is_queued(id) && self.is_member(id)),
            !(self.is_queued(id) && self.is_completed(id)),
            !(self.is_member(id) && self.is_completed(id)),
    {
        if self.is_queued(id) {
            let i = self.queued_at(id);
            assert(!self.completed.contains_key(self.queued[i].id));
            if self.is_member(id) {
                let (b, m) = self.member_at(id);
                assert(self.batches[b].members[m].id < self.queued[i].id);
            }
        }
        if self.is_member(id) {
            let (b, m) = self.member_at(id);
            assert(!self.completed.contains_key(self.batches[b].members[m].id));
        }
    }

    /// A pending lookup asks for one key, and it is queued or in flight.
    pub proof fn lemma_pends_one_key(self, id: RequestId, key: K, other: K)
        requires
            self.wf(),
            self.pends(id, key),
        ensures
            self.is_queued(id) || self.is_in_flight(id),
            !self.is_completed(id),
            self.pends(id, other) ==> other == key,
            self.queued_with(id, key) ==> self.queued[self.queued_at(id)].key == key,
    {
        self.lemma_one_place(id);
        if self.queued_with(id, key) {
            let i = self.queued_with_at(id, key);
            assert(self.is_queued(id));
            let at = self.queued_at(id);
            if at < i {
                assert(self.queued[at].id < self.queued[i].id);
            }
            if i < at {
                assert(self.queued[i].id < self.queued[at].id);
            }
            if self.queued_with(id, other) {
                let j = self.queued_with_at(id, other);
                if i < j {
                    assert(self.queued[i].id < self.queued[j].id);
                }
                if j < i {
                    assert(self.queued[j].id < self.queued[i].id);
                }
            }
            if self.in_flight_with(id, other) {
                let (b, m) = self.in_flight_with_at(id, other);
                assert(self.is_member(id));
            }
        } else {
            let (b, m) = self.in_flight_with_at(id, key);
            assert(self.is_member(id));
            self.lemma_member_at(b, m);
            if self.in_flight_with(id, other) {
                let (c, n) = self.in_flight_with_at(id, other);
                self.lemma_member_at(c, n);
            }
            if self.queued_with(id, other) {
                assert(self.is_queued(id));
            }
        }
    }

    /// The member `m` of the batch at `b` is where its id is found.
    pub proof fn lemma_member_at(self, b: int, m: int)
        requires
            self.wf(),
            0 <= b < self.batches.len(),
            0 <= m < self.batches[b].members.len(),
        ensures
            self.is_member(self.batches[b].members[m].id),
            self.member_at(self.batches[b].members[m].id) == (b, m),
    {
        let id = self.batches[b].members[m].id;
        assert(self.is_member(id));
        let (c, n) = self.member_at(id);
        assert(self.batches[c].members[n].id == id);
        assert(self.batches[c].wf());
        if c < b {
            assert(self.batches[c].members[n].id < self.batches[b].members[m].id);
        }
        if b < c {
            assert(self.batches[b].members[m].id < self.batches[c].members[n].id);
        }
        if n < m {
            assert(self.batches[b].members[n].id < self.batches[b].members[m].id);
        }
        if m < n {
            assert(self.batches[b].members[m].id < self.batches[b].members[n].id);
        }
    }

    /// The request at `i` of the queue is where its id is found.
    pub proof fn lemma_queued_at(self, i: int)
        requires
            self.wf(),
            0 <= i < self.queued.len(),
        ensures
            self.is_queued(self.queued[i].id),
            self.queued_at(self.queued[i].id) == i,
            self.pends(self.queued[i].id, self.queued[i].key),
    {
        let id = self.queued[i].id;
        assert(self.is_queued(id));
        let at = self.queued_at(id);
        if at < i {
            assert(self.queued[at].id < self.queued[i].id);
        }
        if i < at {
            assert(self.queued[i].id < self.queued[at].id);
        }
    }

    /// The batch at `b` is where its name is found.
    pub proof fn lemma_batch_at(self, b: int)
        requires
            self.wf(),
            0 <= b < self.batches.len(),
        ensures
            self.has_batch(self.batches[b].id),
            self.batch_at(self.batches[b].id) == b,
    {
        let name = self.batches[b].id;
        assert(self.has_batch(name));
        let c = self.batch_at(name);
        assert(self.batches[c].wf());
        assert(self.batches[b].wf());
        if c < b {
            assert(self.batches[c].members[0].id < self.batches[b].members[0].id);
        }
        if b < c {
            assert(self.batches[b].members[0].id < self.batches[c].members[0].id);
        }
    }

    /// A request that is queued or in flight pends with the key it asks for.
    pub proof fn lemma_pending_has_key(self, id: RequestId) -> (key: K)
        requires
            self.wf(),
            self.is_queued(id) || self.is_in_flight(id),
        ensures
            self.pends(id, key),
    {
        if self.is_queued(id) {
            let i = self.queued_at(id);
            self.queued[i].key
        } else {
            let (b, m) = self.member_at(id);
            self.batches[b].keys[self.batches[b].members[m].slot as int]
        }
    }

    /// Putting a request into the queue adds that one pending lookup.
    pub proof fn lemma_enqueue_pends(self, key: K)
        requires
            self.wf(),
            self.id_seq < usize::MAX,
        ensures
            forall|id: RequestId, k: K|
                #[trigger] self.enqueue(key).pends(id, k) <==> self.pends(id, k) || (id
                    == self.id_seq + 1 && k == key),
    {
        let next = self.enqueue(key);
        let last = self.queued.len() as int;
        assert(next.queued[last].id == self.id_seq + 1 && next.queued[last].key == key);
        next.lemma_same_batches(self);
        assert forall|id: RequestId, k: K| #[trigger]
            next.pends(id, k) <==> self.pends(id, k) || (id == self.id_seq + 1 && k == key) by {
            if next.queued_with(id, k) {
                let i = next.queued_with_at(id, k);
                if i < last {
                    assert(self.queued[i] == next.queued[i]);
                }
            }
            if self.queued_with(id, k) {
                let i = self.queued_with_at(id, k);
                assert(next.queued[i] == self.queued[i]);
            }
            assert(next.in_flight_with(id, k) == self.in_flight_with(id, k));
        }
    }

    /// Dispatching changes no pending lookup.
    pub proof fn lemma_dispatch_pends(self)
        requires
            self.wf(),
        ensures
            forall|id: RequestId, k: K| #[trigger] self.dispatch().pends(id, k) <==> self.pends(id, k),
    {
        if self.queued.len() > 0 {
            let n = self.batch_len();
            let taken = self.queued.take(n);
            let rest = self.queued.skip(n);
            let next = self.dispatch();
            let formed = form_batch(taken);
            let at = self.batches.len() as int;
            assert forall|i: int, j: int| 0 <= i < j < taken.len() implies (#[trigger] taken[i]).id
                < (#[trigger] taken[j]).id by {
                assert(taken[i] == self.queued[i]);
                assert(taken[j] == self.queued[j]);
            }
            lemma_form_batch(taken);
            assert(next.batches[at] == formed);
            assert forall|id: RequestId, k: K| #[trigger]
                next.pends(id, k) <==> self.pends(id, k) by {
                if next.queued_with(id, k) {
                    let i = next.queued_with_at(id, k);
                    assert(self.queued[i + n] == rest[i]);
                    assert(self.queued_with(id, k));
                }
                if next.in_flight_with(id, k) {
                    let (b, m) = next.in_flight_with_at(id, k);
                    if b < at {
                        assert(next.batches[b] == self.batches[b]);
                        assert(self.batches[b].members[m].id == id);
                        assert(self.in_flight_with(id, k));
                    } else {
                        assert(formed.members[m].id == taken[m].id);
                        assert(taken[m] == self.queued[m]);
                        assert(self.queued[m].id == id && self.queued[m].key == k);
                        assert(self.queued_with(id, k));
                    }
                }
                if self.queued_with(id, k) {
                    let i = self.queued_with_at(id, k);
                    if i < n {
                        assert(taken[i] == self.queued[i]);
                        assert(formed.members[i].id == id);
                        assert(next.batches[at].members[i].id == id);
                        assert(next.in_flight_with(id, k));
                    } else {
                        assert(rest[i - n] == self.queued[i]);
                        assert(next.queued[i - n].id == id);
                        assert(next.queued_with(id, k));
                    }
                }
                if self.in_flight_with(id, k) {
                    let (b, m) = self.in_flight_with_at(id, k);
                    assert(next.batches[b] == self.batches[b]);
                    assert(next.batches[b].members[m].id == id);
                    assert(next.in_flight_with(id, k));
                }
            }
        }
    }

    /// Taking a request in adds that one pending lookup.
    pub proof fn lemma_load_pends(self, key: K)
        requires
            self.wf(),
            self.id_seq < usize::MAX,
        ensures
            forall|id: RequestId, k: K|
                #[trigger] self.load(key).pends(id, k) <==> self.pends(id, k) || (id == self.id_seq
                    + 1 && k == key),
    {
        self.lemma_enqueue_pends(key);
        self.lemma_enqueue_wf(key);
        self.enqueue(key).lemma_dispatch_pends();
        assert forall|id: RequestId, k: K| #[trigger]
            self.load(key).pends(id, k) <==> self.pends(id, k) || (id == self.id_seq + 1 && k
                == key) by {
            assert(self.enqueue(key).dispatch().pends(id, k) <==> self.enqueue(key).pends(id, k));
        }
    }

    /// Counting a poll changes no pending lookup.
    pub proof fn lemma_mark_pends(self, i: int)
        requires
            self.wf(),
            0 <= i < self.queued.len(),
        ensures
            forall|id: RequestId, k: K| #[trigger] self.mark(i).pends(id, k) <==> self.pends(id, k),
    {
        let next = self.mark(i);
        self.lemma_mark_wf(i);
        next.lemma_same_batches(self);
        assert forall|id: RequestId, k: K| #[trigger] next.pends(id, k) <==> self.pends(id, k) by {
            if next.queued_with(id, k) {
                let j = next.queued_with_at(id, k);
                assert(self.queued[j].id == id && self.queued[j].key == k);
            }
            if self.queued_with(id, k) {
                let j = self.queued_with_at(id, k);
                assert(next.queued[j].id == id && next.queued[j].key == k);
            }
            assert(next.in_flight_with(id, k) == self.in_flight_with(id, k));
        }
    }

    /// Advancing a handle changes no pending lookup.
    pub proof fn lemma_poll_pends(self, id: RequestId)
        requires
            self.wf(),
        ensures
            forall|other: RequestId, k: K|
                #[trigger] self.poll(id).pends(other, k) <==> self.pends(other, k),
    {
        if self.is_completed(id) {
            self.poll(id).lemma_same_batches(self);
            self.poll(id).lemma_same_queue(self);
            assert forall|other: RequestId, k: K| #[trigger]
                self.poll(id).pends(other, k) <==> self.pends(other, k) by {
                assert(self.poll(id).queued_with(other, k) == self.queued_with(other, k));
                assert(self.poll(id).in_flight_with(other, k) == self.in_flight_with(other, k));
            }
        } else if self.is_queued(id) {
            let i = self.queued_at(id);
            self.lemma_mark_pends(i);
            self.lemma_mark_wf(i);
            self.mark(i).lemma_dispatch_pends();
            assert forall|other: RequestId, k: K| #[trigger]
                self.poll(id).pends(other, k) <==> self.pends(other, k) by {
                assert(self.mark(i).dispatch().pends(other, k) <==> self.mark(i).pends(other, k));
                assert(self.mark(i).pends(other, k) <==> self.pends(other, k));
            }
        }
    }

    /// Taking the batch at `b` away takes the lookups of its members away,
    /// and no other.
    pub proof fn lemma_unbatch_pends(self, b: int)
        requires
            self.wf(),
            0 <= b < self.batches.len(),
        ensures
            forall|id: RequestId, k: K|
                #[trigger] (SchedulerView { batches: self.batches.remove(b), ..self }).pends(id, k)
                    <==> self.pends(id, k) && !self.batches[b].has_member(id),
    {
        let next = SchedulerView { batches: self.batches.remove(b), ..self };
        assert forall|c: int| 0 <= c < next.batches.len() implies #[trigger] next.batches[c]
            == self.batches[if c < b {
            c
        } else {
            c + 1
        }] by {}
        next.lemma_same_queue(self);
        assert forall|id: RequestId, k: K| #[trigger]
            next.pends(id, k) <==> self.pends(id, k) && !self.batches[b].has_member(id) by {
            assert(next.queued_with(id, k) == self.queued_with(id, k));
            if self.batches[b].has_member(id) {
                let n = self.batches[b].member_at(id);
                self.lemma_member_at(b, n);
                self.lemma_one_place(id);
                if next.queued_with(id, k) {
                    assert(self.is_queued(id));
                }
                if next.in_flight_with(id, k) {
                    let (c, m) = next.in_flight_with_at(id, k);
                    let x = if c < b { c } else { c + 1 };
                    assert(next.batches[c] == self.batches[x]);
                    self.lemma_member_at(x, m);
                }
            } else {
                if next.in_flight_with(id, k) {
                    let (c, m) = next.in_flight_with_at(id, k);
                    let x = if c < b { c } else { c + 1 };
                    assert(next.batches[c] == self.batches[x]);
                    assert(self.batches[x].members[m].id == id);
                    assert(self.in_flight_with(id, k));
                }
                if self.in_flight_with(id, k) {
                    let (c, m) = self.in_flight_with_at(id, k);
                    if c == b {
                        assert(self.batches[b].has_member(id));
                    }
                    let y = if c < b { c } else { c - 1 };
                    assert(next.batches[y] == self.batches[c]);
                    assert(next.batches[y].members[m].id == id);
                    assert(next.in_flight_with(id, k));
                }
            }
        }
    }

    /// Taking a batch out of flight takes the lookups of its members away,
    /// and no other.
    pub proof fn lemma_retire_pends(self, batch: BatchId)
        requires
            self.wf(),
            self.has_batch(batch),
        ensures
            forall|id: RequestId, k: K|
                #[trigger] self.retire(batch).pends(id, k) <==> self.pends(id, k)
                    && !self.batches[self.batch_at(batch)].has_member(id),
    {
        self.lemma_unbatch_pends(self.batch_at(batch));
    }

    /// Giving a handle up takes its lookup away, and no other.
    pub proof fn lemma_cancel_pends(self, id: RequestId)
        requires
            self.wf(),
        ensures
            forall|other: RequestId, k: K|
                #[trigger] self.cancel(id).pends(other, k) <==> self.pends(other, k) && other != id,
    {
        let next = self.cancel(id);
        self.lemma_one_place(id);
        if self.is_completed(id) {
            next.lemma_same_batches(self);
            next.lemma_same_queue(self);
            assert forall|other: RequestId, k: K| #[trigger]
                next.pends(other, k) <==> self.pends(other, k) && other != id by {
                assert(next.queued_with(other, k) == self.queued_with(other, k));
                assert(next.in_flight_with(other, k) == self.in_flight_with(other, k));
                if self.pends(id, k) {
                    self.lemma_pends_one_key(id, k, k);
                }
            }
        } else if self.is_queued(id) {
            let at = self.queued_at(id);
            assert forall|j: int| 0 <= j < next.queued.len() implies #[trigger] next.queued[j]
                == self.queued[if j < at {
                j
            } else {
                j + 1
            }] by {}
            next.lemma_same_batches(self);
            assert forall|other: RequestId, k: K| #[trigger]
                next.pends(other, k) <==> self.pends(other, k) && other != id by {
                assert(next.in_flight_with(other, k) == self.in_flight_with(other, k));
                if self.in_flight_with(other, k) {
                    let (b, m) = self.in_flight_with_at(other, k);
                    assert(self.is_member(other));
                }
                if next.queued_with(other, k) {
                    let j = next.queued_with_at(other, k);
                    let x = if j < at { j } else { j + 1 };
                    assert(next.queued[j] == self.queued[x]);
                    assert(self.queued[x].id == other);
                    assert(self.queued_with(other, k));
                    if x < at {
                        assert(self.queued[x].id < self.queued[at].id);
                    } else {
                        assert(self.queued[at].id < self.queued[x].id);
                    }
                }
                if self.queued_with(other, k) && other != id {
                    let j = self.queued_with_at(other, k);
                    let y = if j < at { j } else { j - 1 };
                    assert(next.queued[y] == self.queued[j]);
                    assert(next.queued[y].id == other);
                    assert(next.queued_with(other, k));
                }
            }
        } else if self.is_in_flight(id) {
            let (b, m) = self.member_at(id);
            let marked = self.batches[b].abandon(m);
            assert(self.batches[b].wf());
            if marked.all_abandoned() {
                self.lemma_unbatch_pends(b);
                assert forall|other: RequestId, k: K| #[trigger]
                    next.pends(other, k) <==> self.pends(other, k) && other != id by {
                    if self.batches[b].has_member(other) && other != id {
                        let n = self.batches[b].member_at(other);
                        self.lemma_member_at(b, n);
                        self.lemma_one_place(other);
                        assert(marked.members[n].abandoned);
                        assert(self.batches[b].members[n].abandoned);
                        if self.pends(other, k) {
                            self.lemma_pends_one_key(other, k, k);
                            if self.in_flight_with(other, k) {
                                let (c, x) = self.in_flight_with_at(other, k);
                                self.lemma_member_at(c, x);
                            }
                            if self.queued_with(other, k) {
                                let j = self.queued_with_at(other, k);
                                assert(self.is_queued(other));
                            }
                        }
                    }
                    if other == id {
                        assert(self.batches[b].members[m].id == id);
                        assert(self.batches[b].has_member(id));
                    }
                }
            } else {
                assert forall|c: int| 0 <= c < next.batches.len() && c != b implies #[trigger] next.batches[c]
                    == self.batches[c] by {}
                assert(next.batches[b] == marked);
                next.lemma_same_queue(self);
                assert forall|other: RequestId, k: K| #[trigger]
                    next.pends(other, k) <==> self.pends(other, k) && other != id by {
                    assert(next.queued_with(other, k) == self.queued_with(other, k));
                    if self.queued_with(other, k) {
                        assert(self.is_queued(other));
                    }
                    if next.in_flight_with(other, k) {
                        let (c, x) = next.in_flight_with_at(other, k);
                        if c == b {
                            assert(x != m);
                            assert(marked.members[x] == self.batches[b].members[x]);
                            assert(self.batches[b].members[x].id == other);
                            if x < m {
                                assert(self.batches[b].members[x].id < self.batches[b].members[m].id);
                            } else {
                                assert(self.batches[b].members[m].id < self.batches[b].members[x].id);
                            }
                        } else {
                            assert(self.batches[c].members[x].id == other);
                            self.lemma_member_at(c, x);
                        }
                        assert(self.in_flight_with(other, k));
                    }
                    if self.in_flight_with(other, k) && other != id {
                        let (c, x) = self.in_flight_with_at(other, k);
                        if c == b {
                            assert(x != m);
                            assert(marked.members[x] == self.batches[b].members[x]);
                        }
                        assert(next.batches[c].members[x].id == other);
                        assert(next.in_flight_with(other, k));
                    }
                }
            }
        } else {
            assert forall|other: RequestId, k: K| #[trigger]
                next.pends(other, k) <==> self.pends(other, k) && other != id by {
                if self.pends(id, k) {
                    self.lemma_pends_one_key(id, k, k);
                }
            }
        }
    }
}

impl<K, V, E> SchedulerView<K, V, E> {
    /// A request is queued or in flight exactly if it pends with some key.
    pub proof fn lemma_pending_iff(self, id: RequestId)
        requires
            self.wf(),
        ensures
            (self.is_queued(id) || self.is_in_flight(id)) <==> exists|k: K| self.pends(id, k),
    {
        if self.is_queued(id) || self.is_in_flight(id) {
            let k = self.lemma_pending_has_key(id);
            assert(self.pends(id, k));
        }
        if exists|k: K| self.pends(id, k) {
            let k = choose|k: K| self.pends(id, k);
            self.lemma_pends_one_key(id, k, k);
        }
    }

    /// Dispatching owes an answer to the same requests as before.
    pub proof fn lemma_dispatch_live(self)
        requires
            self.wf(),
        ensures
            self.dispatch().completed == self.completed,
            forall|id: RequestId| #[trigger] self.dispatch().is_live(id) <==> self.is_live(id),
    {
        self.lemma_dispatch_wf();
        self.lemma_dispatch_pends();
        assert forall|id: RequestId| #[trigger] self.dispatch().is_live(id) <==> self.is_live(
            id,
        ) by {
            self.lemma_pending_iff(id);
            self.dispatch().lemma_pending_iff(id);
            if exists|k: K| self.pends(id, k) {
                let k = choose|k: K| self.pends(id, k);
                assert(self.dispatch().pends(id, k));
            }
            if exists|k: K| self.dispatch().pends(id, k) {
                let k = choose|k: K| self.dispatch().pends(id, k);
                assert(self.pends(id, k));
            }
        }
    }
}

impl<K, V, E> SchedulerView<K, V, E> {
    /// Taking a request in owes an answer to that request and to those that
    /// were owed one before.
    pub proof fn lemma_load_live(self, key: K)
        requires
            self.wf(),
            self.id_seq < usize::MAX,
        ensures
            forall|id: RequestId|
                #[trigger] self.load(key).is_live(id) <==> self.is_live(id) || id == self.id_seq
                    + 1,
    {
        let next = self.load(key);
        self.lemma_load_wf(key);
        self.lemma_load_pends(key);
        self.lemma_enqueue_wf(key);
        self.enqueue(key).lemma_dispatch_live();
        assert forall|id: RequestId| #[trigger]
            next.is_live(id) <==> self.is_live(id) || id == self.id_seq + 1 by {
            self.lemma_pending_iff(id);
            next.lemma_pending_iff(id);
            if exists|k: K| self.pends(id, k) {
                let k = choose|k: K| self.pends(id, k);
                assert(next.pends(id, k));
            }
            if exists|k: K| next.pends(id, k) {
                let k = choose|k: K| next.pends(id, k);
                assert(self.pends(id, k) || id == self.id_seq + 1);
            }
            if id == self.id_seq + 1 {
                assert(next.pends(id, key));
            }
        }
    }

    /// Advancing a handle owes an answer to the same requests as before,
    /// but for the request that was handed its result.
    pub proof fn lemma_poll_live(self, id: RequestId)
        requires
            self.wf(),
        ensures
            forall|other: RequestId|
                #[trigger] self.poll(id).is_live(other) <==> self.is_live(other) && !(other == id
                    && self.is_completed(id)),
    {
        let next = self.poll(id);
        self.lemma_poll_wf(id);
        self.lemma_poll_pends(id);
        self.lemma_one_place(id);
        if self.is_queued(id) && !self.is_completed(id) {
            let i = self.queued_at(id);
            self.lemma_mark_wf(i);
            self.mark(i).lemma_dispatch_live();
        }
        assert forall|other: RequestId| #[trigger]
            next.is_live(other) <==> self.is_live(other) && !(other == id && self.is_completed(
                id,
            )) by {
            self.lemma_pending_iff(other);
            next.lemma_pending_iff(other);
            self.lemma_one_place(other);
            if exists|k: K| self.pends(other, k) {
                let k = choose|k: K| self.pends(other, k);
                assert(next.pends(other, k));
            }
            if exists|k: K| next.pends(other, k) {
                let k = choose|k: K| next.pends(other, k);
                assert(self.pends(other, k));
            }
        }
    }

    /// Giving a handle up owes an answer to the same requests as before,
    /// but for the request of that handle.
    pub proof fn lemma_cancel_live(self, id: RequestId)
        requires
            self.wf(),
        ensures
            forall|other: RequestId|
                #[trigger] self.cancel(id).is_live(other) <==> self.is_live(other) && other != id,
    {
        let next = self.cancel(id);
        self.lemma_cancel_wf(id);
        self.lemma_cancel_pends(id);
        self.lemma_one_place(id);
        assert forall|other: RequestId| #[trigger]
            next.is_live(other) <==> self.is_live(other) && other != id by {
            self.lemma_pending_iff(other);
            next.lemma_pending_iff(other);
            if exists|k: K| self.pends(other, k) {
                let k = choose|k: K| self.pends(other, k);
                assert(next.pends(other, k) <==> other != id);
            }
            if exists|k: K| next.pends(other, k) {
                let k = choose|k: K| next.pends(other, k);
                assert(self.pends(other, k));
            }
            if self.is_completed(id) {
                assert(next.completed == self.completed.remove(id));
            } else {
                assert(next.completed == self.completed);
            }
        }
    }
}

impl<K, V: Clone, E: Clone> SchedulerView<K, V, E> {
    /// Completing a batch owes `id` an answer exactly if it was owed one
    /// before.
    proof fn lemma_completes_live_of(
        self,
        batch: BatchId,
        outcome: BatchOutcome<K, V, E>,
        next: Self,
        id: RequestId,
    )
        requires
            self.wf(),
            next.wf(),
            self.has_batch(batch),
            self.completes(batch, outcome, next),
        ensures
            next.is_live(id) <==> self.is_live(id),
    {
        let b = self.batch_at(batch);
        let done = self.batches[b];
        let mid = self.retire(batch);
        self.lemma_retire_pends(batch);
        self.lemma_retire_wf(batch);
        next.lemma_same_queue(mid);
        next.lemma_same_batches(mid);
        self.lemma_pending_iff(id);
        next.lemma_pending_iff(id);
        self.lemma_one_place(id);
        assert(next.completed.contains_key(id) <==> self.completed.contains_key(id) || done.waits(
            id,
        ));
        if done.waits(id) {
            let m = done.waiting_at(id);
            self.lemma_member_at(b, m);
            assert(self.is_in_flight(id));
        }
        if exists|k: K| next.pends(id, k) {
            let k = choose|k: K| next.pends(id, k);
            assert(next.queued_with(id, k) == mid.queued_with(id, k));
            assert(next.in_flight_with(id, k) == mid.in_flight_with(id, k));
            assert(mid.pends(id, k));
            assert(self.pends(id, k));
        }
        if exists|k: K| self.pends(id, k) {
            let k = choose|k: K| self.pends(id, k);
            if done.has_member(id) {
                let m = done.member_at(id);
                self.lemma_member_at(b, m);
                self.lemma_pends_one_key(id, k, k);
                assert(!done.members[m].abandoned);
                assert(done.waits(id));
            } else {
                assert(mid.pends(id, k));
                assert(next.queued_with(id, k) == mid.queued_with(id, k));
                assert(next.in_flight_with(id, k) == mid.in_flight_with(id, k));
                assert(next.pends(id, k));
            }
        }
    }

    /// Completing a batch owes an answer to the same requests as before,
    /// and the results that waited still wait.
    pub proof fn lemma_completes_live(
        self,
        batch: BatchId,
        outcome: BatchOutcome<K, V, E>,
        next: Self,
    )
        requires
            self.wf(),
            self.completes(batch, outcome, next),
        ensures
            next.wf(),
            forall|id: RequestId| #[trigger] next.is_live(id) <==> self.is_live(id),
            forall|id: RequestId|
                self.is_completed(id) ==> next.is_completed(id) && #[trigger] next.completed[id]
                    == self.completed[id],
    {
        self.lemma_completes_wf(batch, outcome, next);
        if self.has_batch(batch) {
            assert forall|id: RequestId| #[trigger] next.is_live(id) <==> self.is_live(id) by {
                self.lemma_completes_live_of(batch, outcome, next, id);
            }
        }
    }
}

} // verus!
