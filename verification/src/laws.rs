//! What holds of the engine whatever its callers do, stated over the books
//! that the contracts of its operations speak of.
use vstd::prelude::*;
use crate::batch_fn::BatchOutcome;
use crate::cached::Item;
use crate::overlay::CachedView;
use crate::error::{result_cloned, LoadError};
use crate::model::{owed, SchedulerView};
use crate::request::{form_batch, lemma_form_batch, BatchId, Deferral, Poll, RequestId};

verus! {

/// A load that fills the queue dispatches it whole, and any other load
/// lengthens the queue by one: a queue that was shorter than a batch stays
/// shorter than a batch, and the batch that is formed holds what was queued
/// and the new request, under keys none of which stands twice.
pub proof fn law_load_keeps_queue_short<K, V, E>(books: SchedulerView<K, V, E>, key: K)
    requires
        books.wf(),
        books.id_seq < usize::MAX,
        books.queued.len() < books.max_batch_size,
    ensures
        books.load(key).queued.len() < books.max_batch_size,
        books.queued.len() + 1 < books.max_batch_size ==> {
            &&& books.load_batch(key) is None
            &&& books.load(key).batches == books.batches
            &&& books.load(key).queued == books.enqueue(key).queued
        },
        books.queued.len() + 1 == books.max_batch_size ==> {
            &&& books.load_batch(key) == Some(books.enqueue(key).queued[0].id)
            &&& books.load(key).queued.len() == 0
            &&& books.load(key).batches == books.batches.push(
                form_batch(books.enqueue(key).queued),
            )
            &&& form_batch(books.enqueue(key).queued).members.len() == books.max_batch_size
            &&& form_batch(books.enqueue(key).queued).keys.no_duplicates()
        },
{
    let grown = books.enqueue(key);
    books.lemma_enqueue_wf(key);
    if grown.is_full() {
        assert(grown.queued.take(grown.batch_len()) =~= grown.queued);
        assert(grown.queued.skip(grown.batch_len()) =~= Seq::empty());
        lemma_form_batch(grown.queued);
    }
}

/// Where batches are dispatched by first chances, a queued request that is
/// advanced dispatches the queue exactly if every other queued request has
/// been advanced before; otherwise it is told to wait, its first chance is
/// counted, and nothing is dispatched.
pub proof fn law_first_chances_dispatch<K, V, E>(books: SchedulerView<K, V, E>, id: RequestId)
    requires
        books.wf(),
        books.deferral == Deferral::PollCount,
        books.is_queued(id),
    ensures
        books.poll_answer(id) == if forall|j: int|
            0 <= j < books.queued.len() && j != books.queued_at(id) ==> (
            #[trigger] books.queued[j]).polls > 0 {
            Poll::<V, E>::Dispatch(books.queued[0].id)
        } else {
            Poll::<V, E>::Wait
        },
        books.poll_answer(id) is Dispatch ==> books.poll(id).batches.len() == books.batches.len()
            + 1 && books.poll(id).queued.len() == books.queued.len() - books.batch_len(),
        books.poll_answer(id) is Wait ==> books.poll(id).batches == books.batches && books.poll(
            id,
        ).queued.len() == books.queued.len() && books.poll(id).queued[books.queued_at(id)].polls
            > 0,
{
    books.lemma_one_place(id);
    let at = books.queued_at(id);
    books.lemma_mark_wf(at);
    assert(books.mark(at).queued[at].polls == crate::model::one_more(books.queued[at].polls));
}

/// Where batches are dispatched after a count of waits, a queued request
/// that is advanced dispatches the queue exactly if it has been told to
/// wait that often; otherwise it is told to wait once more.
pub proof fn law_yield_count_dispatches<K, V, E>(
    books: SchedulerView<K, V, E>,
    id: RequestId,
    count: usize,
)
    requires
        books.wf(),
        books.deferral == Deferral::YieldCount(count),
        books.is_queued(id),
    ensures
        books.poll_answer(id) == if books.queued[books.queued_at(id)].polls >= count {
            Poll::<V, E>::Dispatch(books.queued[0].id)
        } else {
            Poll::<V, E>::Wait
        },
        books.poll_answer(id) is Wait ==> books.poll(id).batches == books.batches && books.poll(
            id,
        ).queued.len() == books.queued.len() && books.poll(id).queued[books.queued_at(id)].polls
            == books.queued[books.queued_at(id)].polls + 1,
{
    books.lemma_one_place(id);
    let at = books.queued_at(id);
    books.lemma_mark_wf(at);
    assert(books.mark(at).queued[at].polls == crate::model::one_more(books.queued[at].polls));
}

/// A queued request whose handle is given up is nowhere in the books
/// afterwards, and where no other queued request asks for its key, the
/// batch that is dispatched next does not ask the batch function for that
/// key.
pub proof fn law_cancelled_request_leaves_queue<K, V, E>(books: SchedulerView<K, V, E>, id: RequestId)
    requires
        books.wf(),
        books.is_queued(id),
        forall|j: int|
            0 <= j < books.queued.len() && j != books.queued_at(id) ==> (
            #[trigger] books.queued[j]).key != books.queued[books.queued_at(id)].key,
    ensures
        !books.cancel(id).is_live(id),
        !books.cancel(id).dispatch().is_live(id),
        books.queued.len() > 1 ==> {
            &&& books.cancel(id).next_batch() is Some
            &&& !books.cancel(id).dispatch().batches.last().keys.contains(
                books.queued[books.queued_at(id)].key,
            )
        },
{
    let at = books.queued_at(id);
    let key = books.queued[at].key;
    let left = books.cancel(id);
    books.lemma_one_place(id);
    books.lemma_cancel_wf(id);
    books.lemma_cancel_pends(id);
    left.lemma_dispatch_wf();
    left.lemma_dispatch_pends();
    left.lemma_one_place(id);
    left.dispatch().lemma_one_place(id);
    let sent = left.dispatch();
    assert(!left.is_queued(id) && !left.is_in_flight(id)) by {
        if left.is_queued(id) || left.is_in_flight(id) {
            let k = left.lemma_pending_has_key(id);
            assert(left.pends(id, k));
        }
    }
    assert(!sent.is_queued(id) && !sent.is_in_flight(id)) by {
        if sent.is_queued(id) || sent.is_in_flight(id) {
            let k = sent.lemma_pending_has_key(id);
            assert(sent.pends(id, k));
            assert(left.pends(id, k));
        }
    }
    if books.queued.len() > 1 {
        let n = left.batch_len();
        let taken = left.queued.take(n);
        let formed = form_batch(taken);
        assert(sent.batches.last() == formed);
        assert forall|i: int, j: int| 0 <= i < j < taken.len() implies (#[trigger] taken[i]).id < (
        #[trigger] taken[j]).id by {
            assert(taken[i] == left.queued[i]);
            assert(taken[j] == left.queued[j]);
        }
        lemma_form_batch(taken);
        crate::keys::lemma_unique(crate::request::keys_of(taken));
        if formed.keys.contains(key) {
            assert(crate::request::keys_of(taken).contains(key));
            let i = crate::request::keys_of(taken).index_of(key);
            assert(taken[i].key == key);
            assert(taken[i] == left.queued[i]);
            let x = if i < at { i } else { i + 1 };
            assert(left.queued[i] == books.queued[x]);
            assert(books.queued[x].key == key);
        }
    }
}

/// Once the last waiting member of a batch gives its handle up, the batch
/// is gone, and the outcome that arrives for it later changes nothing.
pub proof fn law_abandoned_batch_leaves_nothing<K, V: Clone, E: Clone>(
    books: SchedulerView<K, V, E>,
    id: RequestId,
    outcome: BatchOutcome<K, V, E>,
    after: SchedulerView<K, V, E>,
)
    requires
        books.wf(),
        books.is_in_flight(id),
        forall|n: int|
            0 <= n < books.batches[books.member_at(id).0].members.len() && n != books.member_at(
                id,
            ).1 ==> (#[trigger] books.batches[books.member_at(id).0].members[n]).abandoned,
        books.cancel(id).completes(books.batches[books.member_at(id).0].id, outcome, after),
    ensures
        books.cancel(id).batches == books.batches.remove(books.member_at(id).0),
        books.cancel(id).queued == books.queued,
        books.cancel(id).completed == books.completed,
        !books.cancel(id).has_batch(books.batches[books.member_at(id).0].id),
        after == books.cancel(id),
{
    let (b, m) = books.member_at(id);
    let name = books.batches[b].id;
    let left = books.cancel(id);
    books.lemma_one_place(id);
    books.lemma_cancel_wf(id);
    let marked = books.batches[b].abandon(m);
    assert forall|n: int| 0 <= n < marked.members.len() implies (
    #[trigger] marked.members[n]).abandoned by {
        if n != m {
            assert(books.batches[b].members[n].abandoned);
        }
    }
    assert(marked.all_abandoned());
    if left.has_batch(name) {
        let c = left.batch_at(name);
        let x = if c < b { c } else { c + 1 };
        assert(left.batches[c] == books.batches[x]);
        assert(books.batches[x].wf());
        assert(books.batches[b].wf());
        if x < b {
            assert(books.batches[x].members[0].id < books.batches[b].members[0].id);
        } else {
            assert(books.batches[b].members[0].id < books.batches[x].members[0].id);
        }
    }
}

/// Once a batch was completed, whatever the batch function gave, each of
/// its members whose handle was not given up is handed a result the next
/// time it is advanced, and the scheduler then knows it no more.
pub proof fn law_completion_answers_members<K, V: Clone, E: Clone>(
    books: SchedulerView<K, V, E>,
    batch: BatchId,
    outcome: BatchOutcome<K, V, E>,
    after: SchedulerView<K, V, E>,
    id: RequestId,
)
    requires
        books.wf(),
        books.has_batch(batch),
        books.batches[books.batch_at(batch)].waits(id),
        books.completes(batch, outcome, after),
    ensures
        after.poll_answer(id) == Poll::Ready(after.completed[id]),
        !after.poll(id).is_live(id),
        !after.has_batch(batch),
{
    let b = books.batch_at(batch);
    let done = books.batches[b];
    let m = done.waiting_at(id);
    books.lemma_completes_wf(batch, outcome, after);
    after.lemma_poll_wf(id);
    after.lemma_poll_pends(id);
    after.lemma_one_place(id);
    let fin = after.poll(id);
    fin.lemma_pending_iff(id);
    after.lemma_pending_iff(id);
    if exists|k: K| fin.pends(id, k) {
        let k = choose|k: K| fin.pends(id, k);
        assert(after.pends(id, k));
    }
    if after.has_batch(batch) {
        let c = after.batch_at(batch);
        let x = if c < b { c } else { c + 1 };
        assert(after.batches[c] == books.batches[x]);
        assert(books.batches[x].wf());
        assert(books.batches[b].wf());
        if x < b {
            assert(books.batches[x].members[0].id < books.batches[b].members[0].id);
        } else {
            assert(books.batches[b].members[0].id < books.batches[x].members[0].id);
        }
    }
}

/// When the batch function fails, every member of the batch whose handle
/// was not given up gets that failure, and the queue and every other batch
/// are as they were.
pub proof fn law_failure_reaches_whole_batch<K, V: Clone, E: Clone>(
    books: SchedulerView<K, V, E>,
    batch: BatchId,
    failure: E,
    after: SchedulerView<K, V, E>,
)
    requires
        books.wf(),
        books.has_batch(batch),
        books.completes(batch, BatchOutcome::Failed(failure), after),
    ensures
        forall|m: int|
            0 <= m < books.batches[books.batch_at(batch)].members.len() && !(
            #[trigger] books.batches[books.batch_at(batch)].members[m]).abandoned ==> {
                &&& after.completed.contains_key(
                    books.batches[books.batch_at(batch)].members[m].id,
                )
                &&& after.completed[books.batches[books.batch_at(
                    batch,
                )].members[m].id] matches Err(LoadError::BatchFunctionFailed(copy))
                &&& cloned(failure, copy)
            },
        after.queued == books.queued,
        after.batches == books.batches.remove(books.batch_at(batch)),
        forall|c: int|
            0 <= c < books.batches.len() && c != books.batch_at(batch) ==> after.has_batch(
                (#[trigger] books.batches[c]).id,
            ) && after.batches[after.batch_at(books.batches[c].id)] == books.batches[c],
{
    let b = books.batch_at(batch);
    let done = books.batches[b];
    books.lemma_completes_wf(batch, BatchOutcome::Failed(failure), after);
    assert forall|m: int| 0 <= m < done.members.len() && !(#[trigger] done.members[m]).abandoned implies {
        &&& after.completed.contains_key(done.members[m].id)
        &&& after.completed[done.members[m].id] matches Err(LoadError::BatchFunctionFailed(copy))
        &&& cloned(failure, copy)
    } by {
        assert(done.waits(done.members[m].id));
    }
    assert forall|c: int| 0 <= c < books.batches.len() && c != b implies after.has_batch(
        (#[trigger] books.batches[c]).id,
    ) && after.batches[after.batch_at(books.batches[c].id)] == books.batches[c] by {
        let y = if c < b { c } else { c - 1 };
        assert(after.batches[y] == books.batches[c]);
        after.lemma_batch_at(y);
    }
}

/// When the batch function answers by position with a list that is not as
/// long as the list of keys, every member of the batch whose handle was not
/// given up gets the report of both lengths.
pub proof fn law_size_mismatch_reaches_whole_batch<K, V: Clone, E: Clone>(
    books: SchedulerView<K, V, E>,
    batch: BatchId,
    values: Vec<V>,
    after: SchedulerView<K, V, E>,
)
    requires
        books.wf(),
        books.has_batch(batch),
        values@.len() != books.batches[books.batch_at(batch)].keys.len(),
        books.completes(batch, BatchOutcome::Positional(values), after),
    ensures
        forall|m: int|
            0 <= m < books.batches[books.batch_at(batch)].members.len() && !(
            #[trigger] books.batches[books.batch_at(batch)].members[m]).abandoned ==> {
                &&& after.completed.contains_key(
                    books.batches[books.batch_at(batch)].members[m].id,
                )
                &&& after.completed[books.batches[books.batch_at(batch)].members[m].id] == Err::<
                    V,
                    LoadError<E>,
                >(
                    LoadError::SizeMismatch {
                        key_count: books.batches[books.batch_at(batch)].keys.len() as usize,
                        value_count: values@.len() as usize,
                    },
                )
            },
{
    let done = books.batches[books.batch_at(batch)];
    assert forall|m: int| 0 <= m < done.members.len() && !(#[trigger] done.members[m]).abandoned implies {
        &&& after.completed.contains_key(done.members[m].id)
        &&& after.completed[done.members[m].id] == Err::<V, LoadError<E>>(
            LoadError::SizeMismatch {
                key_count: done.keys.len() as usize,
                value_count: values@.len() as usize,
            },
        )
    } by {
        assert(done.waits(done.members[m].id));
    }
}

/// Two members of one batch that ask for the same key are handed clones of
/// one and the same result, whatever the batch function gave.
pub proof fn law_same_key_same_result<K, V: Clone, E: Clone>(
    books: SchedulerView<K, V, E>,
    batch: BatchId,
    outcome: BatchOutcome<K, V, E>,
    after: SchedulerView<K, V, E>,
    m: int,
    n: int,
)
    requires
        books.wf(),
        books.has_batch(batch),
        books.completes(batch, outcome, after),
        0 <= m < books.batches[books.batch_at(batch)].members.len(),
        0 <= n < books.batches[books.batch_at(batch)].members.len(),
        !books.batches[books.batch_at(batch)].members[m].abandoned,
        !books.batches[books.batch_at(batch)].members[n].abandoned,
        books.batches[books.batch_at(batch)].keys[books.batches[books.batch_at(
            batch,
        )].members[m].slot as int] == books.batches[books.batch_at(
            batch,
        )].keys[books.batches[books.batch_at(batch)].members[n].slot as int],
    ensures
        books.batches[books.batch_at(batch)].members[m].slot == books.batches[books.batch_at(
            batch,
        )].members[n].slot,
        result_cloned(
            owed(
                outcome,
                books.batches[books.batch_at(batch)].keys,
                books.batches[books.batch_at(batch)].members[m].slot as int,
            ),
            after.completed[books.batches[books.batch_at(batch)].members[m].id],
        ),
        result_cloned(
            owed(
                outcome,
                books.batches[books.batch_at(batch)].keys,
                books.batches[books.batch_at(batch)].members[m].slot as int,
            ),
            after.completed[books.batches[books.batch_at(batch)].members[n].id],
        ),
{
    let done = books.batches[books.batch_at(batch)];
    assert(done.wf());
    let s = done.members[m].slot as int;
    let t = done.members[n].slot as int;
    assert(0 <= s < done.keys.len());
    assert(0 <= t < done.keys.len());
}

/// The overlay runs one request for a key at most.
pub proof fn law_one_request_per_key<K, V, E>(
    overlay: CachedView<K, V, E>,
    key: K,
    id: RequestId,
    other: RequestId,
)
    requires
        overlay.wf(),
        overlay.scheduler.pends(id, key),
        overlay.scheduler.pends(other, key),
    ensures
        id == other,
{
    assert(overlay.items[key] == Item::<V, E>::Loading(id));
    assert(overlay.items[key] == Item::<V, E>::Loading(other));
}

/// A batch is only ever completed into items that were loading: a key that
/// a member still asks for has its request named in the store, so a value
/// that was primed or a result that was stored is never replaced by it.
pub proof fn law_completion_replaces_loading_items<K, V, E>(
    overlay: CachedView<K, V, E>,
    batch: BatchId,
    key: K,
)
    requires
        overlay.wf(),
        overlay.scheduler.has_batch(batch),
        overlay.scheduler.batches[overlay.scheduler.batch_at(batch)].serves(key),
    ensures
        overlay.is_loading(key),
{
    let b = overlay.scheduler.batch_at(batch);
    let done = overlay.scheduler.batches[b];
    let n = done.server_before(done.members.len() as int, key);
    assert(overlay.scheduler.batches[b].members[n].id == done.members[n].id);
    assert(overlay.scheduler.pends(done.members[n].id, key));
}

/// Asking for a key a second time takes no second request in: after the
/// first time the store has something to observe for the key, the second
/// time changes nothing, and where a request is loading the key, the second
/// caller is told to wait for it.
pub proof fn law_second_load_shares<K, V: Clone, E: Clone>(
    overlay: CachedView<K, V, E>,
    key: K,
    answer: Poll<V, E>,
)
    requires
        overlay.wf(),
        overlay.scheduler.id_seq < usize::MAX,
        overlay.load(key).load_answers(key, answer),
    ensures
        overlay.load(key).is_hit(key),
        overlay.load(key).load(key) == overlay.load(key),
        overlay.load(key).items[key] is Loading ==> answer == Poll::<V, E>::Wait,
        !(answer is Dispatch),
{
    if !overlay.is_hit(key) {
        overlay.scheduler.lemma_load_pends(key);
        assert(overlay.scheduler.load(key).pends((overlay.scheduler.id_seq + 1) as usize, key));
    }
}

/// After the item of a key was evicted, asking for the key takes a new
/// request in, under an id that was never given out before.
pub proof fn law_load_after_remove_starts_fresh<K, V, E>(overlay: CachedView<K, V, E>, key: K)
    requires
        overlay.wf(),
        overlay.scheduler.id_seq < usize::MAX,
    ensures
        !overlay.remove(key).is_hit(key),
        overlay.remove(key).load(key).scheduler == overlay.remove(key).scheduler.load(key),
        overlay.remove(key).load(key).scheduler.id_seq == overlay.scheduler.id_seq + 1,
        overlay.remove(key).load(key).scheduler.pends(
            (overlay.scheduler.id_seq + 1) as usize,
            key,
        ),
        overlay.remove(key).load(key).items[key] == Item::<V, E>::Loading(
            (overlay.scheduler.id_seq + 1) as usize,
        ),
{
    let left = overlay.remove(key);
    if overlay.is_hit(key) && overlay.items[key] is Loading {
        overlay.scheduler.lemma_cancel_wf(overlay.items[key]->Loading_0);
    }
    assert(left.scheduler.wf());
    assert(left.scheduler.id_seq == overlay.scheduler.id_seq);
    left.scheduler.lemma_load_pends(key);
    assert(left.scheduler.load(key).pends((left.scheduler.id_seq + 1) as usize, key));
}

/// A value that is primed for a key that the store holds nothing for is
/// what asking for the key gives, and no request is taken in for it.
pub proof fn law_primed_value_is_served<K, V: Clone, E: Clone>(
    overlay: CachedView<K, V, E>,
    key: K,
    val: V,
    answer: Poll<V, E>,
)
    requires
        overlay.wf(),
        !overlay.items.contains_key(key),
        overlay.prime(key, val).load_answers(key, answer),
    ensures
        overlay.prime(key, val).scheduler == overlay.scheduler,
        overlay.prime(key, val).load(key) == overlay.prime(key, val),
        answer matches Poll::Ready(Ok(copy)) && cloned(val, copy),
{
}

/// Priming a key that the store holds an item for changes nothing.
pub proof fn law_prime_never_overwrites<K, V, E>(overlay: CachedView<K, V, E>, key: K, val: V)
    requires
        overlay.items.contains_key(key),
    ensures
        overlay.prime(key, val) == overlay,
{
}

} // verus!
