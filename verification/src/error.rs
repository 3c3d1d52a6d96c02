//! What a lookup can fail with, and what a scheduler can be refused for.
use vstd::prelude::*;

verus! {

/// The failure of one lookup.
#[derive(Debug, PartialEq, Eq)]
pub enum LoadError<E> {
    /// The batch function reported a failure for the whole batch.
    BatchFunctionFailed(E),
    /// The batch function answered by position with a list whose length
    /// differs from the number of keys it was given.
    SizeMismatch { key_count: usize, value_count: usize },
    /// The batch function answered by key and left this key out.
    KeyNotFoundInResult,
}

/// A configuration that no scheduler can be built with.
#[derive(Debug, PartialEq, Eq)]
pub enum ConfigError {
    /// The maximum batch size was zero.
    ZeroBatchSize,
}

/// `copy` is what cloning `origin` may give: the same variant, the same
/// counts, and an inner error that is a clone of the inner error.
pub open spec fn error_cloned<E: Clone>(origin: LoadError<E>, copy: LoadError<E>) -> bool {
    match origin {
        LoadError::BatchFunctionFailed(e) => copy matches LoadError::BatchFunctionFailed(c)
            && cloned(e, c),
        LoadError::SizeMismatch { key_count, value_count } => copy == origin,
        LoadError::KeyNotFoundInResult => copy == origin,
    }
}

/// `copy` is what cloning the result `origin` may give.
pub open spec fn result_cloned<V: Clone, E: Clone>(
    origin: Result<V, LoadError<E>>,
    copy: Result<V, LoadError<E>>,
) -> bool {
    match origin {
        Ok(v) => copy matches Ok(c) && cloned(v, c),
        Err(e) => copy matches Err(c) && error_cloned(e, c),
    }
}

impl<E: Clone> Clone for LoadError<E> {
    fn clone(&self) -> (copy: Self)
        ensures
            error_cloned(*self, copy),
    {
        match self {
            LoadError::BatchFunctionFailed(e) => LoadError::BatchFunctionFailed(e.clone()),
            LoadError::SizeMismatch { key_count, value_count } => LoadError::SizeMismatch {
                key_count: *key_count,
                value_count: *value_count,
            },
            LoadError::KeyNotFoundInResult => LoadError::KeyNotFoundInResult,
        }
    }
}

/// Clones the result of a lookup.
pub fn clone_result<V: Clone, E: Clone>(origin: &Result<V, LoadError<E>>) -> (copy: Result<
    V,
    LoadError<E>,
>)
    ensures
        result_cloned(*origin, copy),
{
    match origin {
        Ok(v) => Ok(v.clone()),
        Err(e) => Err(e.clone()),
    }
}

/// The value of a lookup that did not fail.
///
/// This is the strict way to read a result: a caller that cannot go on
/// without the value proves that there is one.
pub fn expect_loaded<V, E>(result: Result<V, LoadError<E>>) -> (value: V)
    requires
        result is Ok,
    ensures
        result == Ok::<V, LoadError<E>>(value),
{
    match result {
        Ok(v) => v,
        Err(_) => vstd::pervasive::unreached(),
    }
}

} // verus!
