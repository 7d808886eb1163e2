//! Construction of synthetic benchmark batches.
//!
//! The benchmark tool measures prefill and decode latency by running the
//! same prompt at several batch sizes; the batch it submits is assembled
//! here, one identical request per slot.

use vstd::prelude::*;

use crate::client::{
    Batch, NextTokenChooserParameters, Request, StoppingCriteriaParameters,
};
use crate::queue::{request_matches, same_stopping};

verus! {

/// Build a synthetic batch of `batch_size` identical requests over
/// `sequence`, each allowed exactly `decode_length` output tokens with no
/// early stop.
pub fn benchmark_batch(
    sequence: &String,
    sequence_length: u32,
    batch_size: u32,
    decode_length: u32,
    parameters: NextTokenChooserParameters,
) -> (b: Batch)
    ensures
        b.id == 0,
        b.size == batch_size,
        b.requests@.len() == batch_size,
        forall|k: int|
            0 <= k < batch_size ==> {
                let r = #[trigger] b.requests@[k];
                &&& r.id == k
                &&& r.inputs@ == sequence@
                &&& r.truncate == sequence_length
                &&& r.parameters == parameters
                &&& r.stopping_parameters.max_new_tokens == decode_length
                &&& r.stopping_parameters.stop_sequences@.len() == 0
                &&& r.stopping_parameters.ignore_eos_token
            },
{
    let mut requests: Vec<Request> = Vec::new();
    let mut k: u32 = 0;
    while k < batch_size
        invariant
            0 <= k <= batch_size,
            requests@.len() == k,
            forall|j: int|
                0 <= j < k ==> {
                    let r = #[trigger] requests@[j];
                    &&& r.id == j
                    &&& r.inputs@ == sequence@
                    &&& r.truncate == sequence_length
                    &&& r.parameters == parameters
                    &&& r.stopping_parameters.max_new_tokens == decode_length
                    &&& r.stopping_parameters.stop_sequences@.len() == 0
                    &&& r.stopping_parameters.ignore_eos_token
                },
        decreases batch_size - k,
    {
        requests.push(
            Request {
                id: k as u64,
                inputs: sequence.clone(),
                truncate: sequence_length,
                parameters,
                stopping_parameters: StoppingCriteriaParameters {
                    max_new_tokens: decode_length,
                    stop_sequences: Vec::new(),
                    ignore_eos_token: true,
                },
            },
        );
        k = k + 1;
    }
    Batch { id: 0, requests, size: batch_size }
}

} // verus!
