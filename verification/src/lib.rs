//! A continuous-batching scheduler for streamed text generation.
//!
//! The crate models the life of a generation request: it waits in a FIFO
//! queue, is selected into a batch under size, weight and prefill budgets,
//! streams its tokens through a per-request channel, and is retired on
//! completion, cancellation or backend failure.

use vstd::prelude::*;

pub mod backend_init;
pub mod bench;
pub mod chat;
pub mod client;
pub mod config;
pub mod cost;
pub mod entry;
pub mod errors;
pub mod fanout;
pub mod infer;
pub mod queue;
pub mod scheduler;
pub mod weights;

verus! {

/// Milliseconds a head-of-queue entry may wait before the minimum-size
/// requirement for extending a running batch is waived.
pub const MAX_WAITING_DURATION_MS: u64 = 1000;

/// Maximum difference in arrival time, in milliseconds, by which a smaller
/// request may jump ahead of a larger one that does not fit the batch.
pub const CUTOFF_DURATION_MS: u64 = 1000;

} // verus!
