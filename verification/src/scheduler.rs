//! Decisions of the batching loop around backend calls.
//!
//! The loop itself lives with the runtime: it awaits the backend and the
//! queue.  What to do with each outcome is decided here, so that cache
//! handles are filtered or cleared exactly according to the entries that are
//! still alive.

use vstd::prelude::*;

use crate::client::{CachedBatch, Generation};
use crate::entry::MsgView;
use crate::fanout::{
    distinct_request_ids, entry_fate, filter_send_generations, generation_wf, send_errors,
    streams_live,
};
use crate::queue::EntryMap;

verus! {

/// What the loop must do with the backend's cached batch.
pub enum CacheAction {
    /// Keep the handle as is: every member is still alive.
    Retain(CachedBatch),
    /// Ask the backend to keep only the named requests.
    Filter { id: u64, kept_ids: Vec<u64> },
    /// Every member is gone: clear the batch from the cache.
    Clear { id: u64 },
    /// The backend returned no handle.
    Gone,
}

/// Decide how to reconcile the backend's cached batch with the entries that
/// are still alive.  A request whose entry was retired — finished or
/// cancelled — never appears among the kept ids.
pub fn filter_batch_plan(next_batch: Option<CachedBatch>, entries: &EntryMap) -> (r: CacheAction)
    requires
        entries.wf(),
    ensures
        match r {
            CacheAction::Gone => next_batch is None,
            CacheAction::Retain(b) => next_batch is Some && b == next_batch->Some_0 && b.size
                == entries.items@.len(),
            CacheAction::Filter { id, kept_ids } => {
                &&& next_batch is Some
                &&& id == next_batch->Some_0.id
                &&& kept_ids@ == next_batch->Some_0.request_ids@.filter(
                    |rid: u64| entries.contains_id(rid),
                )
                &&& kept_ids@.len() >= 1
                &&& forall|k: int|
                    0 <= k < kept_ids@.len() ==> entries.contains_id(#[trigger] kept_ids@[k])
            },
            CacheAction::Clear { id } => {
                &&& next_batch is Some
                &&& id == next_batch->Some_0.id
                &&& next_batch->Some_0.request_ids@.filter(|rid: u64| entries.contains_id(rid)).len()
                    == 0
            },
        },
        next_batch is None ==> r is Gone,
        next_batch is Some && next_batch->Some_0.size == entries.items@.len() ==> r is Retain,
{
    let batch = match next_batch {
        Some(b) => b,
        None => {
            return CacheAction::Gone;
        },
    };
    if batch.size as usize == entries.len() {
        // No member was removed since the backend produced the handle.
        return CacheAction::Retain(batch);
    }
    let ghost pred = |rid: u64| entries.contains_id(rid);
    let n = batch.request_ids.len();
    let mut kept_ids: Vec<u64> = Vec::new();
    let mut k: usize = 0;
    while k < n
        invariant
            0 <= k <= n,
            n == batch.request_ids@.len(),
            entries.wf(),
            pred == (|rid: u64| entries.contains_id(rid)),
            kept_ids@ == batch.request_ids@.take(k as int).filter(pred),
        decreases n - k,
    {
        let rid = batch.request_ids[k];
        let present = entries.contains(rid);
        proof {
            broadcast use vstd::seq_lib::group_filter_ensures;

            let taken = batch.request_ids@.take(k as int + 1);
            assert(taken.drop_last() =~= batch.request_ids@.take(k as int));
            assert(taken.last() == rid);
            reveal_with_fuel(Seq::filter, 2);
            assert(taken.filter(pred) == if pred(rid) {
                taken.drop_last().filter(pred).push(rid)
            } else {
                taken.drop_last().filter(pred)
            });
        }
        if present {
            kept_ids.push(rid);
        }
        k = k + 1;
    }
    proof {
        assert(batch.request_ids@.take(n as int) =~= batch.request_ids@);
    }
    if kept_ids.len() == 0 {
        CacheAction::Clear { id: batch.id }
    } else {
        proof {
            broadcast use vstd::seq_lib::group_filter_ensures;

            assert forall|j: int| 0 <= j < kept_ids@.len() implies entries.contains_id(
                #[trigger] kept_ids@[j],
            ) by {
                batch.request_ids@.lemma_filter_pred(pred, j);
            }
        }
        CacheAction::Filter { id: batch.id, kept_ids }
    }
}

/// What [`filter_batch_plan`] owes for a handle against a set of entries.
pub open spec fn cache_action_spec(
    r: CacheAction,
    next_batch: Option<CachedBatch>,
    entries: EntryMap,
) -> bool {
    match r {
        CacheAction::Gone => next_batch is None,
        CacheAction::Retain(b) => next_batch is Some && b == next_batch->Some_0 && b.size
            == entries.items@.len(),
        CacheAction::Filter { id, kept_ids } => {
            &&& next_batch is Some
            &&& id == next_batch->Some_0.id
            &&& kept_ids@ == next_batch->Some_0.request_ids@.filter(
                |rid: u64| entries.contains_id(rid),
            )
            &&& kept_ids@.len() >= 1
            &&& forall|k: int|
                0 <= k < kept_ids@.len() ==> entries.contains_id(#[trigger] kept_ids@[k])
        },
        CacheAction::Clear { id } => {
            &&& next_batch is Some
            &&& id == next_batch->Some_0.id
            &&& next_batch->Some_0.request_ids@.filter(|rid: u64| entries.contains_id(rid)).len()
                == 0
        },
    }
}

/// Fold a successful backend pass into the running batch: deliver every
/// generation per its entry's owed messages, retire the finished entries,
/// and reconcile the cache handle against the survivors.
pub fn apply_backend_pass(
    generations: Vec<Generation>,
    next_batch: Option<CachedBatch>,
    entries: &mut EntryMap,
) -> (r: (CacheAction, Ghost<Seq<Option<(int, int)>>>))
    requires
        old(entries).wf(),
        streams_live(*old(entries)),
        distinct_request_ids(generations@),
        forall|g: int| 0 <= g < generations@.len() ==> generation_wf(#[trigger] generations@[g]),
        forall|g: int, i: int|
            0 <= g < generations@.len() && 0 <= i < old(entries).items@.len() && (
            #[trigger] generations@[g]).prefill_tokens is Some && (#[trigger] old(
                entries,
            ).items@[i]).0 == generations@[g].request_id ==> old(
                entries,
            ).items@[i].1.response_tx.history@.len() == 0,
    ensures
        final(entries).wf(),
        streams_live(*final(entries)),
        final(entries).items@.len() <= old(entries).items@.len(),
        r.1@.len() == old(entries).items@.len(),
        forall|i: int|
            0 <= i < old(entries).items@.len() ==> entry_fate(
                generations@,
                old(entries).items@,
                final(entries).items@,
                i,
                #[trigger] r.1@[i],
            ),
        forall|i1: int, i2: int|
            0 <= i1 < i2 < old(entries).items@.len() && r.1@[i1] is Some && r.1@[i2] is Some ==> (
            #[trigger] r.1@[i1])->Some_0.0 < (#[trigger] r.1@[i2])->Some_0.0,
        cache_action_spec(r.0, next_batch, *final(entries)),
        next_batch is None ==> r.0 is Gone,
        next_batch is Some && next_batch->Some_0.size == final(entries).items@.len() ==> r.0
            is Retain,
{
    let fate = filter_send_generations(&generations, entries);
    (filter_batch_plan(next_batch, entries), fate)
}

/// Abort the running batch after a backend failure: every stream is offered
/// the backend's message as its terminal error, the batch empties, and the
/// named cache entries must be cleared by the loop.  The log carries each
/// former member's final history.
pub fn apply_backend_failure(message: &String, entries: &mut EntryMap) -> (log: Ghost<
    Seq<(u64, Seq<MsgView>)>,
>)
    requires
        old(entries).wf(),
    ensures
        final(entries).wf(),
        final(entries).items@.len() == 0,
        log@.len() == old(entries).items@.len(),
        forall|i: int|
            0 <= i < log@.len() ==> (#[trigger] log@[i]).0 == old(entries).items@[i].0 && (log@[
                i
            ].1 == old(entries).items@[i].1.response_tx.history@.push(
                MsgView::Failure(crate::errors::ErrorView::Generation(message@)),
            ) || log@[i].1 == old(entries).items@[i].1.response_tx.history@),
{
    send_errors(message, entries)
}

} // verus!
