//! The bulk-fetch operation that a scheduler dispatches its batches to.
use vstd::prelude::*;
use std::collections::HashMap;

verus! {

/// What a batch function gave back for one batch.
#[derive(Debug)]
pub enum BatchOutcome<K, V, E> {
    /// A value for each key, found by the key.
    Keyed(HashMap<K, V>),
    /// A value for each key, in the order of the keys.
    Positional(Vec<V>),
    /// A failure of the whole batch.
    Failed(E),
}

/// The batch size that a batch function declares if it says nothing else.
pub const DEFAULT_MAX_BATCH_SIZE: usize = 200;

/// A user-supplied operation that fetches the values of many keys at once.
///
/// It is given keys without repetition. Nothing is assumed of what it
/// returns: every outcome is dealt with when the batch is completed, and a
/// declared batch size of zero is refused when a scheduler is built for it.
pub trait BatchFn<K, V> {
    type Error;

    /// Fetches the values of `keys`.
    fn load(&mut self, keys: &[K]) -> BatchOutcome<K, V, Self::Error>;

    /// The largest number of requests in a batch: the default, unless declared.
    fn max_batch_size(&self) -> (size: usize)
        default_ensures
            size == DEFAULT_MAX_BATCH_SIZE,
    {
        DEFAULT_MAX_BATCH_SIZE
    }
}

} // verus!
