//! A request-batching and coalescing engine.
//!
//! Point lookups by key are admitted into a queue, grouped into bounded
//! batches, handed to a bulk-fetch operation once per batch, and the per-key
//! results are given back to each caller. The crate holds the bookkeeping of
//! that engine as a state machine whose every transition carries a proved
//! contract; running the bulk fetch and suspending callers is left to the
//! program that drives it.
//!
//! - [`non_cached`] is the coalescing scheduler, and [`cached`] the store of
//!   results in front of it.
//! - [`request`], [`batch_fn`], [`error`] and [`keys`] hold what both work
//!   with: requests, batches and handles; the batch function and what it
//!   gives back; failures; and the laws of keys.
//! - [`model`] and [`overlay`] say what the scheduler and the cache overlay
//!   hold and what each transition makes of it.
//! - [`invariants`], [`pending`] and [`laws`] prove what holds of every
//!   state that the transitions reach.
pub mod batch_fn;
pub mod cached;
pub mod error;
pub mod invariants;
pub mod keys;
pub mod laws;
pub mod model;
pub mod non_cached;
pub mod overlay;
pub mod pending;
pub mod request;

pub use batch_fn::BatchFn;
