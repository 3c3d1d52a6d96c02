//! Requests, batches and handles: the pieces that a scheduler keeps books on.
use vstd::prelude::*;
use crate::error::LoadError;
use crate::keys::unique;

verus! {

/// Names one lookup for as long as the scheduler knows of it.
pub type RequestId = usize;

/// Names one batch in flight: the id of its oldest request.
pub type BatchId = usize;

/// A lookup that waits in the queue.
#[derive(Debug)]
pub struct Request<K> {
    pub id: RequestId,
    pub key: K,
    /// How often its handle has been advanced while it waited here.
    pub polls: usize,
}

/// A lookup that was put into a batch.
#[derive(Clone, Copy, Debug, PartialEq, Eq)]
pub struct Member {
    pub id: RequestId,
    /// Where its key stands among the keys of the batch.
    pub slot: usize,
    /// Whether its handle was given up after the batch was formed.
    pub abandoned: bool,
}

/// A batch in flight, as contracts speak of it.
pub struct BatchView<K> {
    pub id: BatchId,
    pub members: Seq<Member>,
    /// The keys handed to the batch function, none of them twice.
    pub keys: Seq<K>,
}

impl<K> BatchView<K> {
    /// Every member has been abandoned.
    pub open spec fn all_abandoned(self) -> bool {
        forall|m: int| 0 <= m < self.members.len() ==> (#[trigger] self.members[m]).abandoned
    }

    /// `id` is a member of the batch, abandoned or not.
    pub open spec fn has_member(self, id: RequestId) -> bool {
        exists|m: int| 0 <= m < self.members.len() && (#[trigger] self.members[m]).id == id
    }

    /// Where the member `id` stands.
    pub open spec fn member_at(self, id: RequestId) -> int {
        choose|m: int| 0 <= m < self.members.len() && (#[trigger] self.members[m]).id == id
    }

    /// `id` is a member of the batch whose handle was not given up.
    pub open spec fn waits(self, id: RequestId) -> bool {
        exists|m: int|
            0 <= m < self.members.len() && (#[trigger] self.members[m]).id == id
                && !self.members[m].abandoned
    }

    /// Where the member `id` stands, whose handle was not given up.
    pub open spec fn waiting_at(self, id: RequestId) -> int {
        choose|m: int|
            0 <= m < self.members.len() && (#[trigger] self.members[m]).id == id
                && !self.members[m].abandoned
    }

    /// The batch with member `m` marked as abandoned.
    pub open spec fn abandon(self, m: int) -> Self {
        BatchView {
            members: self.members.update(
                m,
                Member { id: self.members[m].id, slot: self.members[m].slot, abandoned: true },
            ),
            ..self
        }
    }

    /// The batch is one that a scheduler can hold: it has a member that
    /// still waits, it is named after its first member, its members are in
    /// the order of their ids, each of them points at a key, and no key
    /// stands twice.
    pub open spec fn wf(self) -> bool {
        &&& self.members.len() > 0
        &&& self.id == self.members[0].id
        &&& forall|i: int, j: int|
            0 <= i < j < self.members.len() ==> (#[trigger] self.members[i]).id < (
            #[trigger] self.members[j]).id
        &&& forall|m: int|
            0 <= m < self.members.len() ==> ((#[trigger] self.members[m]).slot as int)
                < self.keys.len()
        &&& self.keys.no_duplicates()
        &&& !self.all_abandoned()
    }
}

/// The keys of the queued requests `taken`, in their order.
pub open spec fn keys_of<K>(taken: Seq<Request<K>>) -> Seq<K> {
    taken.map_values(|r: Request<K>| r.key)
}

/// The batch made of the queued requests `taken`: its keys are theirs
/// without repetition, and each member points at the key it asked for.
pub open spec fn form_batch<K>(taken: Seq<Request<K>>) -> BatchView<K> {
    let keys = unique(keys_of(taken));
    BatchView {
        id: taken[0].id,
        members: taken.map_values(
            |r: Request<K>| Member { id: r.id, slot: keys.index_of(r.key) as usize, abandoned: false },
        ),
        keys,
    }
}

/// When a batch that is not full is dispatched.
#[derive(Clone, Copy, Debug, PartialEq, Eq)]
pub enum Deferral {
    /// Once every queued request has had its handle advanced at least once.
    PollCount,
    /// Once the handle that asks has been told to wait this many times.
    YieldCount(usize),
}

/// The life of a request handle.
#[derive(Clone, Copy, Debug, PartialEq, Eq)]
pub enum Stage {
    /// Made by a load and not advanced yet.
    Created,
    /// Advanced at least once; it waits for its batch.
    Admitted,
    /// Its result was handed over.
    Finished,
}

/// What advancing a request tells its caller.
#[derive(Debug, PartialEq, Eq)]
pub enum Poll<V, E> {
    /// The result of the lookup. The scheduler has forgotten the request.
    Ready(Result<V, LoadError<E>>),
    /// A batch was formed just now. The caller runs the batch function on its
    /// keys, completes the batch, and asks again.
    Dispatch(BatchId),
    /// Nothing to do yet: let others run, and ask again.
    Wait,
    /// The scheduler knows of no such request.
    Gone,
}

/// The caller's end of one lookup.
#[derive(Debug)]
pub struct Handle {
    id: RequestId,
    stage: Stage,
}

impl Handle {
    /// The request that the handle stands for.
    pub closed spec fn spec_id(&self) -> RequestId {
        self.id
    }

    /// How far the handle has come.
    pub closed spec fn spec_stage(&self) -> Stage {
        self.stage
    }

    /// A handle for a request that was admitted just now.
    pub(crate) fn new(id: RequestId) -> (handle: Handle)
        ensures
            handle.spec_id() == id,
            handle.spec_stage() == Stage::Created,
    {
        Handle { id, stage: Stage::Created }
    }

    /// The request that the handle stands for.
    #[verifier::when_used_as_spec(spec_id)]
    pub fn id(&self) -> (id: RequestId)
        ensures
            id == self.spec_id(),
    {
        self.id
    }

    /// How far the handle has come.
    #[verifier::when_used_as_spec(spec_stage)]
    pub fn stage(&self) -> (stage: Stage)
        ensures
            stage == self.spec_stage(),
    {
        self.stage
    }

    /// Moves the handle on after it was advanced with the answer `ready`:
    /// to `Finished` when the result was handed over, and from `Created` to
    /// `Admitted` otherwise.
    pub(crate) fn advance(&mut self, ready: bool)
        ensures
            final(self).spec_id() == old(self).spec_id(),
            final(self).spec_stage() == next_stage(old(self).spec_stage(), ready),
    {
        if ready {
            self.stage = Stage::Finished;
        } else {
            match self.stage {
                Stage::Created => {
                    self.stage = Stage::Admitted;
                },
                _ => {},
            }
        }
    }
}

/// The stage after a handle in stage `stage` was advanced, where `ready`
/// says whether its result was handed over.
pub open spec fn next_stage(stage: Stage, ready: bool) -> Stage {
    if ready {
        Stage::Finished
    } else if stage == Stage::Created {
        Stage::Admitted
    } else {
        stage
    }
}

} // verus!

verus! {

/// The batch formed of `taken` has a member for each request, in the same
/// order and under the same id, none of them abandoned, and each member
/// points at the key that its request asked for.
pub proof fn lemma_form_batch<K>(taken: Seq<Request<K>>)
    requires
        0 < taken.len() <= usize::MAX,
        forall|i: int, j: int|
            0 <= i < j < taken.len() ==> (#[trigger] taken[i]).id < (#[trigger] taken[j]).id,
    ensures
        form_batch(taken).wf(),
        form_batch(taken).id == taken[0].id,
        form_batch(taken).members.len() == taken.len(),
        form_batch(taken).keys == unique(keys_of(taken)),
        form_batch(taken).keys.len() <= taken.len(),
        forall|m: int|
            0 <= m < taken.len() ==> {
                &&& (#[trigger] form_batch(taken).members[m]).id == taken[m].id
                &&& !form_batch(taken).members[m].abandoned
                &&& 0 <= form_batch(taken).members[m].slot < form_batch(taken).keys.len()
                &&& form_batch(taken).keys[form_batch(taken).members[m].slot as int]
                    == taken[m].key
            },
{
    let batch = form_batch(taken);
    let keys = unique(keys_of(taken));
    crate::keys::lemma_unique(keys_of(taken));
    assert forall|m: int| 0 <= m < taken.len() implies {
        &&& (#[trigger] batch.members[m]).id == taken[m].id
        &&& !batch.members[m].abandoned
        &&& 0 <= batch.members[m].slot < batch.keys.len()
        &&& batch.keys[batch.members[m].slot as int] == taken[m].key
    } by {
        assert(keys_of(taken)[m] == taken[m].key);
        assert(keys_of(taken).contains(taken[m].key));
        assert(keys.contains(taken[m].key));
        let s = keys.index_of(taken[m].key);
        assert(0 <= s < keys.len() && keys[s] == taken[m].key);
        assert(s as usize == s);
    }
    assert(!batch.members[0].abandoned);
    assert(!batch.all_abandoned());
}

} // verus!
