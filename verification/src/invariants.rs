//! Every transition of the scheduler keeps its books consistent.
use vstd::prelude::*;
use crate::batch_fn::BatchOutcome;
use crate::model::SchedulerView;
use crate::request::{form_batch, lemma_form_batch, BatchId, RequestId};

verus! {

impl<K, V, E> SchedulerView<K, V, E> {
    /// Dispatching keeps the books consistent, and the batch it forms holds
    /// no more requests than a batch may.
    pub proof fn lemma_dispatch_wf(self)
        requires
            self.wf(),
        ensures
            self.dispatch().wf(),
            self.queued.len() > 0 ==> {
                &&& self.dispatch().batches.len() == self.batches.len() + 1
                &&& 0 < self.dispatch().batches.last().members.len() <= self.max_batch_size
                &&& self.dispatch().batches.last().id == self.queued[0].id
            },
    {
        if self.queued.len() > 0 {
            let n = self.batch_len();
            let taken = self.queued.take(n);
            let rest = self.queued.skip(n);
            let next = self.dispatch();
            let formed = form_batch(taken);
            assert forall|i: int, j: int| 0 <= i < j < taken.len() implies (#[trigger] taken[i]).id
                < (#[trigger] taken[j]).id by {
                assert(taken[i] == self.queued[i]);
                assert(taken[j] == self.queued[j]);
            }
            lemma_form_batch(taken);
            assert(next.batches.last() == formed);
            assert forall|b: int| 0 <= b < next.batches.len() implies (
            #[trigger] next.batches[b]).wf() by {
                if b < self.batches.len() {
                    assert(next.batches[b] == self.batches[b]);
                }
            }
            assert forall|b: int, m: int|
                0 <= b < next.batches.len() && 0 <= m < next.batches[b].members.len() implies {
                &&& (#[trigger] next.batches[b].members[m]).id <= next.id_seq
                &&& !next.completed.contains_key(next.batches[b].members[m].id)
                &&& forall|i: int|
                    0 <= i < rest.len() ==> next.batches[b].members[m].id < (#[trigger] rest[i]).id
            } by {
                if b < self.batches.len() {
                    assert(next.batches[b] == self.batches[b]);
                    assert(self.batches[b].members[m].id <= self.id_seq);
                    assert forall|i: int| 0 <= i < rest.len() implies next.batches[b].members[m].id
                        < (#[trigger] rest[i]).id by {
                        assert(rest[i] == self.queued[i + n]);
                    }
                } else {
                    assert(formed.members[m].id == taken[m].id);
                    assert(taken[m] == self.queued[m]);
                    assert forall|i: int| 0 <= i < rest.len() implies next.batches[b].members[m].id
                        < (#[trigger] rest[i]).id by {
                        assert(rest[i] == self.queued[i + n]);
                    }
                }
            }
            assert forall|b: int, c: int, m: int, k: int|
                0 <= b < c < next.batches.len() && 0 <= m < next.batches[b].members.len() && 0 <= k
                    < next.batches[c].members.len() implies (
            #[trigger] next.batches[b].members[m]).id < (#[trigger] next.batches[c].members[k]).id by {
                assert(next.batches[b] == self.batches[b]);
                if c < self.batches.len() {
                    assert(next.batches[c] == self.batches[c]);
                } else {
                    assert(formed.members[k].id == taken[k].id);
                    assert(taken[k] == self.queued[k]);
                }
            }
            assert forall|i: int, j: int| 0 <= i < j < rest.len() implies (#[trigger] rest[i]).id < (
            #[trigger] rest[j]).id by {
                assert(rest[i] == self.queued[i + n]);
                assert(rest[j] == self.queued[j + n]);
            }
            assert forall|i: int| 0 <= i < rest.len() implies (#[trigger] rest[i]).id <= self.id_seq
                && !self.completed.contains_key(rest[i].id) by {
                assert(rest[i] == self.queued[i + n]);
            }
            assert(next.ids_ordered());
            assert(next.completed_apart());
        }
    }

    /// Putting a request into the queue keeps the books consistent.
    pub proof fn lemma_enqueue_wf(self, key: K)
        requires
            self.wf(),
            self.id_seq < usize::MAX,
        ensures
            self.enqueue(key).wf(),
    {
        let next = self.enqueue(key);
        let last = self.queued.len() as int;
        assert forall|i: int| 0 <= i < next.queued.len() implies {
            &&& (#[trigger] next.queued[i]).id <= next.id_seq
            &&& !next.completed.contains_key(next.queued[i].id)
            &&& i < last ==> next.queued[i] == self.queued[i]
            &&& i == last ==> next.queued[i].id == self.id_seq + 1
        } by {
            if i < last {
                assert(next.queued[i] == self.queued[i]);
            }
        }
        assert(next.ids_ordered());
        assert(next.completed_apart());
    }

    /// Taking a request in keeps the books consistent.
    pub proof fn lemma_load_wf(self, key: K)
        requires
            self.wf(),
            self.id_seq < usize::MAX,
        ensures
            self.load(key).wf(),
    {
        self.lemma_enqueue_wf(key);
        self.enqueue(key).lemma_dispatch_wf();
    }

    /// Counting a poll keeps the books consistent.
    pub proof fn lemma_mark_wf(self, i: int)
        requires
            self.wf(),
            0 <= i < self.queued.len(),
        ensures
            self.mark(i).wf(),
            self.mark(i).queued.len() == self.queued.len(),
            forall|j: int|
                0 <= j < self.queued.len() ==> {
                    &&& (#[trigger] self.mark(i).queued[j]).id == self.queued[j].id
                    &&& self.mark(i).queued[j].key == self.queued[j].key
                },
    {
        let next = self.mark(i);
        assert forall|j: int| 0 <= j < self.queued.len() implies {
            &&& (#[trigger] next.queued[j]).id == self.queued[j].id
            &&& next.queued[j].key == self.queued[j].key
        } by {
            if j != i {
                assert(next.queued[j] == self.queued[j]);
            }
        }
        assert(next.ids_ordered());
        assert(next.completed_apart());
    }

    /// Taking the queued request at `i` away keeps the books consistent.
    pub proof fn lemma_unqueue_wf(self, i: int)
        requires
            self.wf(),
            0 <= i < self.queued.len(),
        ensures
            (SchedulerView { queued: self.queued.remove(i), ..self }).wf(),
    {
        let next = SchedulerView { queued: self.queued.remove(i), ..self };
        assert forall|j: int| 0 <= j < next.queued.len() implies #[trigger] next.queued[j]
            == self.queued[if j < i {
            j
        } else {
            j + 1
        }] by {}
        assert forall|a: int, b: int| 0 <= a < b < next.queued.len() implies (
        #[trigger] next.queued[a]).id < (#[trigger] next.queued[b]).id by {
            let x = if a < i { a } else { a + 1 };
            let y = if b < i { b } else { b + 1 };
            assert(next.queued[a] == self.queued[x]);
            assert(next.queued[b] == self.queued[y]);
        }
        assert forall|j: int| 0 <= j < next.queued.len() implies {
            &&& (#[trigger] next.queued[j]).id <= next.id_seq
            &&& !next.completed.contains_key(next.queued[j].id)
        } by {
            let x = if j < i { j } else { j + 1 };
            assert(next.queued[j] == self.queued[x]);
        }
        assert forall|b: int, m: int, j: int|
            0 <= b < next.batches.len() && 0 <= m < next.batches[b].members.len() && 0 <= j
                < next.queued.len() implies (#[trigger] next.batches[b].members[m]).id < (
        #[trigger] next.queued[j]).id by {
            let x = if j < i { j } else { j + 1 };
            assert(next.queued[j] == self.queued[x]);
        }
        assert(next.ids_ordered());
        assert(next.completed_apart());
    }

    /// Taking the batch at `b` away keeps the books consistent.
    pub proof fn lemma_unbatch_wf(self, b: int)
        requires
            self.wf(),
            0 <= b < self.batches.len(),
        ensures
            (SchedulerView { batches: self.batches.remove(b), ..self }).wf(),
    {
        let next = SchedulerView { batches: self.batches.remove(b), ..self };
        assert forall|c: int| 0 <= c < next.batches.len() implies #[trigger] next.batches[c]
            == self.batches[if c < b {
            c
        } else {
            c + 1
        }] by {}
        assert forall|c: int| 0 <= c < next.batches.len() implies (#[trigger] next.batches[c]).wf() by {
            let x = if c < b { c } else { c + 1 };
            assert(next.batches[c] == self.batches[x]);
        }
        assert forall|c: int, m: int|
            0 <= c < next.batches.len() && 0 <= m < next.batches[c].members.len() implies {
            &&& (#[trigger] next.batches[c].members[m]).id <= next.id_seq
            &&& !next.completed.contains_key(next.batches[c].members[m].id)
            &&& forall|j: int|
                0 <= j < next.queued.len() ==> next.batches[c].members[m].id < (
                #[trigger] next.queued[j]).id
        } by {
            let x = if c < b { c } else { c + 1 };
            assert(next.batches[c] == self.batches[x]);
            assert(self.batches[x].members[m].id <= self.id_seq);
        }
        assert forall|c: int, d: int, m: int, n: int|
            0 <= c < d < next.batches.len() && 0 <= m < next.batches[c].members.len() && 0 <= n
                < next.batches[d].members.len() implies (#[trigger] next.batches[c].members[m]).id
            < (#[trigger] next.batches[d].members[n]).id by {
            let x = if c < b { c } else { c + 1 };
            let y = if d < b { d } else { d + 1 };
            assert(next.batches[c] == self.batches[x]);
            assert(next.batches[d] == self.batches[y]);
            assert(self.batches[x].members[m].id < self.batches[y].members[n].id);
        }
        assert(next.ids_ordered());
        assert(next.completed_apart());
    }

    /// Marking member `m` of the batch at `b` as abandoned keeps the books
    /// consistent, as long as another member of that batch still waits.
    pub proof fn lemma_abandon_wf(self, b: int, m: int)
        requires
            self.wf(),
            0 <= b < self.batches.len(),
            0 <= m < self.batches[b].members.len(),
            !self.batches[b].abandon(m).all_abandoned(),
        ensures
            (SchedulerView {
                batches: self.batches.update(b, self.batches[b].abandon(m)),
                ..self
            }).wf(),
    {
        let marked = self.batches[b].abandon(m);
        let next = SchedulerView { batches: self.batches.update(b, marked), ..self };
        assert forall|n: int| 0 <= n < marked.members.len() implies {
            &&& (#[trigger] marked.members[n]).id == self.batches[b].members[n].id
            &&& marked.members[n].slot == self.batches[b].members[n].slot
        } by {}
        assert(self.batches[b].wf());
        assert(marked.wf()) by {
            assert(marked.members[0].id == self.batches[b].members[0].id);
            assert forall|x: int, y: int| 0 <= x < y < marked.members.len() implies (
            #[trigger] marked.members[x]).id < (#[trigger] marked.members[y]).id by {
                assert(self.batches[b].members[x].id < self.batches[b].members[y].id);
            }
            assert forall|n: int| 0 <= n < marked.members.len() implies ((
            #[trigger] marked.members[n]).slot as int) < marked.keys.len() by {
                assert((self.batches[b].members[n].slot as int) < self.batches[b].keys.len());
            }
        }
        assert forall|c: int, n: int|
            0 <= c < next.batches.len() && 0 <= n < next.batches[c].members.len() implies (
        #[trigger] next.batches[c].members[n]).id == self.batches[c].members[n].id by {
            if c != b {
                assert(next.batches[c] == self.batches[c]);
            }
        }
        assert forall|c: int| 0 <= c < next.batches.len() implies (#[trigger] next.batches[c]).wf() by {
            if c != b {
                assert(next.batches[c] == self.batches[c]);
            }
        }
        assert forall|c: int, n: int|
            0 <= c < next.batches.len() && 0 <= n < next.batches[c].members.len() implies {
            &&& (#[trigger] next.batches[c].members[n]).id <= next.id_seq
            &&& !next.completed.contains_key(next.batches[c].members[n].id)
            &&& forall|j: int|
                0 <= j < next.queued.len() ==> next.batches[c].members[n].id < (
                #[trigger] next.queued[j]).id
        } by {
            assert(self.batches[c].members[n].id <= self.id_seq);
        }
        assert forall|c: int, d: int, x: int, y: int|
            0 <= c < d < next.batches.len() && 0 <= x < next.batches[c].members.len() && 0 <= y
                < next.batches[d].members.len() implies (#[trigger] next.batches[c].members[x]).id
            < (#[trigger] next.batches[d].members[y]).id by {
            assert(self.batches[c].members[x].id < self.batches[d].members[y].id);
        }
        assert(next.ids_ordered());
        assert(next.completed_apart());
    }

    /// Advancing a handle keeps the books consistent.
    pub proof fn lemma_poll_wf(self, id: RequestId)
        requires
            self.wf(),
        ensures
            self.poll(id).wf(),
    {
        if self.is_completed(id) {
            let next = self.poll(id);
            assert(next.ids_ordered());
            assert(next.completed_apart());
        } else if self.is_queued(id) {
            let i = self.queued_at(id);
            self.lemma_mark_wf(i);
            self.mark(i).lemma_dispatch_wf();
        }
    }

    /// Giving a handle up keeps the books consistent.
    pub proof fn lemma_cancel_wf(self, id: RequestId)
        requires
            self.wf(),
        ensures
            self.cancel(id).wf(),
    {
        if self.is_completed(id) {
            let next = self.cancel(id);
            assert(next.ids_ordered());
            assert(next.completed_apart());
        } else if self.is_queued(id) {
            self.lemma_unqueue_wf(self.queued_at(id));
        } else if self.is_in_flight(id) {
            let (b, m) = self.member_at(id);
            if self.batches[b].abandon(m).all_abandoned() {
                self.lemma_unbatch_wf(b);
            } else {
                self.lemma_abandon_wf(b, m);
            }
        }
    }

    /// Taking a batch out of flight keeps the books consistent.
    pub proof fn lemma_retire_wf(self, batch: BatchId)
        requires
            self.wf(),
        ensures
            self.retire(batch).wf(),
    {
        if self.has_batch(batch) {
            self.lemma_unbatch_wf(self.batch_at(batch));
        }
    }
}

impl<K, V, E> SchedulerView<K, V, E> {
    /// Taking requests in one after the other keeps the books consistent
    /// and gives out as many ids as there are keys; nothing but the queue,
    /// the batches and the last id changes.
    pub proof fn lemma_load_many(self, keys: Seq<K>)
        requires
            self.wf(),
            self.id_seq + keys.len() <= usize::MAX,
        ensures
            self.load_many(keys).wf(),
            self.load_many(keys).id_seq == self.id_seq + keys.len(),
            self.load_many(keys).completed == self.completed,
            self.load_many(keys).max_batch_size == self.max_batch_size,
            self.load_many(keys).deferral == self.deferral,
        decreases keys.len(),
    {
        if keys.len() > 0 {
            self.lemma_load_many(keys.drop_last());
            self.load_many(keys.drop_last()).lemma_load_wf(keys.last());
        }
    }
}

impl<K, V: Clone, E: Clone> SchedulerView<K, V, E> {
    /// Completing a batch keeps the books consistent.
    pub proof fn lemma_completes_wf(
        self,
        batch: BatchId,
        outcome: BatchOutcome<K, V, E>,
        next: Self,
    )
        requires
            self.wf(),
            self.completes(batch, outcome, next),
        ensures
            next.wf(),
    {
        if self.has_batch(batch) {
            let b = self.batch_at(batch);
            let done = self.batches[b];
            let mid = SchedulerView { batches: self.batches.remove(b), ..self };
            self.lemma_unbatch_wf(b);
            assert(next.queued == mid.queued);
            assert(next.batches == mid.batches);
            assert(next.ids_ordered());
            assert forall|id: RequestId| #[trigger] next.completed.contains_key(id) implies id
                <= next.id_seq by {
                if !self.completed.contains_key(id) {
                    let m = done.waiting_at(id);
                    assert(self.batches[b].members[m].id <= self.id_seq);
                }
            }
            assert forall|i: int| 0 <= i < next.queued.len() implies !next.completed.contains_key(
                (#[trigger] next.queued[i]).id,
            ) by {
                let id = next.queued[i].id;
                if next.completed.contains_key(id) {
                    assert(!self.completed.contains_key(self.queued[i].id));
                    let m = done.waiting_at(id);
                    assert(self.batches[b].members[m].id < self.queued[i].id);
                }
            }
            assert forall|c: int, n: int|
                0 <= c < next.batches.len() && 0 <= n < next.batches[c].members.len()
                    implies !next.completed.contains_key(
                (#[trigger] next.batches[c].members[n]).id,
            ) by {
                let id = next.batches[c].members[n].id;
                let x = if c < b { c } else { c + 1 };
                assert(next.batches[c] == self.batches[x]);
                if next.completed.contains_key(id) {
                    assert(!self.completed.contains_key(self.batches[x].members[n].id));
                    let m = done.waiting_at(id);
                    if x < b {
                        assert(self.batches[x].members[n].id < self.batches[b].members[m].id);
                    } else {
                        assert(self.batches[b].members[m].id < self.batches[x].members[n].id);
                    }
                }
            }
            assert(next.completed_apart());
        }
    }
}

} // verus!
