//! Static limits under which batches are assembled.

use vstd::prelude::*;

verus! {

/// Limits that batch selection must respect.
#[derive(Debug, Clone)]
pub struct BatchingConfig {
    /// Upper bound on the number of requests in a combined batch.
    pub size_limit: usize,
    /// Maximum projected batch weight at any point of a batch's lifetime.
    pub weight_limit: usize,
    /// Maximum weight of an individual prefill pass; 0 disables the check.
    pub prefill_weight_limit: usize,
}

impl BatchingConfig {
    /// A batch is handed to the backend with its size as a `u32`, so a
    /// size limit beyond `u32::MAX` is meaningless; keeping it within that
    /// range also keeps every weight computation inside `u128`.
    pub open spec fn wf(self) -> bool {
        &&& 1 <= self.size_limit <= u32::MAX
    }

    pub fn new(size_limit: usize, weight_limit: usize, prefill_weight_limit: usize) -> (r: Self)
        requires
            1 <= size_limit <= u32::MAX,
        ensures
            r.wf(),
            r.size_limit == size_limit,
            r.weight_limit == weight_limit,
            r.prefill_weight_limit == prefill_weight_limit,
    {
        BatchingConfig { size_limit, weight_limit, prefill_weight_limit }
    }
}

} // verus!
