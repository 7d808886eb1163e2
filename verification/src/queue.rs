//! The request queue and its batch-selection algorithm.
//!
//! Waiting entries sit in arrival order.  `next_batch` walks them, prices
//! each candidate with the configured cost model, and assembles the largest
//! admissible batch, skipping over requests that do not fit in favour of
//! slightly newer ones, within a bounded arrival-time window.

use vstd::prelude::*;

use core::marker::PhantomData;
use std::collections::VecDeque;

use crate::client::{Batch, Request, StoppingCriteriaParameters};
use crate::config::BatchingConfig;
use crate::cost::{lemma_admit_ok, lemma_step_at_multiset, ok_all, step_at, BatchType, ProjTree};
use crate::entry::Entry;
use crate::weights::{
    alive_max, alive_n, alive_sum, is_boundary, lemma_seq_insert_to_multiset,
    lemma_shape_ids_transfer, shapes_wf, Shape,
};
use crate::CUTOFF_DURATION_MS;
use crate::MAX_WAITING_DURATION_MS;

verus! {

/// The entries of a running batch, keyed by their queue-assigned ids.
pub struct EntryMap {
    pub items: Vec<(u64, Entry)>,
}

impl EntryMap {
    /// Ids are unique and every member is a live entry.
    pub open spec fn wf(&self) -> bool {
        &&& forall|i: int, j: int|
            0 <= i < j < self.items@.len() ==> (#[trigger] self.items@[i]).0 != (
            #[trigger] self.items@[j]).0
        &&& forall|i: int| 0 <= i < self.items@.len() ==> (#[trigger] self.items@[i]).1.wf()
    }

    pub open spec fn contains_id(&self, id: u64) -> bool {
        exists|i: int| 0 <= i < self.items@.len() && (#[trigger] self.items@[i]).0 == id
    }

    /// The projected shapes of the members, in storage order.
    pub open spec fn shapes(&self) -> Seq<Shape> {
        Seq::new(self.items@.len(), |i: int| self.items@[i].1.shape(self.items@[i].0))
    }

    pub fn new() -> (r: Self)
        ensures
            r.wf(),
            r.items@.len() == 0,
    {
        EntryMap { items: Vec::new() }
    }

    pub fn len(&self) -> (n: usize)
        ensures
            n == self.items@.len(),
    {
        self.items.len()
    }

    pub fn is_empty(&self) -> (r: bool)
        ensures
            r == (self.items@.len() == 0),
    {
        self.items.len() == 0
    }

    pub fn contains(&self, id: u64) -> (r: bool)
        ensures
            r == self.contains_id(id),
    {
        let n = self.items.len();
        let mut i: usize = 0;
        while i < n
            invariant
                0 <= i <= n,
                n == self.items@.len(),
                forall|k: int| 0 <= k < i ==> (#[trigger] self.items@[k]).0 != id,
            ensures
                0 <= i <= n,
                i < n ==> self.items@[i as int].0 == id,
                i == n ==> forall|k: int| 0 <= k < n ==> (#[trigger] self.items@[k]).0 != id,
            decreases n - i,
        {
            if self.items[i].0 == id {
                break ;
            }
            i = i + 1;
        }
        i < n
    }

    pub fn insert(&mut self, id: u64, e: Entry)
        requires
            old(self).wf(),
            !old(self).contains_id(id),
            e.wf(),
        ensures
            final(self).wf(),
            final(self).items@ == old(self).items@.push((id, e)),
    {
        self.items.push((id, e));
    }
}

/// Fold another batch's entries into this one, skipping ids already
/// present; used when a freshly prefilled extension joins the running batch.
impl EntryMap {
    pub fn merge(&mut self, other: EntryMap)
        requires
            old(self).wf(),
            other.wf(),
        ensures
            final(self).wf(),
            final(self).items@.len() >= old(self).items@.len(),
            forall|i: int|
                0 <= i < old(self).items@.len() ==> final(self).items@[i] == #[trigger] old(
                    self,
                ).items@[i],
            forall|i: int|
                old(self).items@.len() <= i < final(self).items@.len()
                    ==> other.items@.contains(#[trigger] final(self).items@[i]),
            forall|j: int|
                0 <= j < other.items@.len() ==> old(self).contains_id(
                    (#[trigger] other.items@[j]).0,
                ) || final(self).contains_id(other.items@[j].0),
    {
        let ghost base = self.items@;
        let ghost src = other.items@;
        let mut other = other;
        let n = other.items.len();
        let mut j: usize = 0;
        while j < n
            invariant
                0 <= j <= n,
                n == src.len(),
                other.items@ == src.skip(j as int),
                forall|a: int, b: int|
                    0 <= a < b < src.len() ==> (#[trigger] src[a]).0 != (#[trigger] src[b]).0,
                forall|a: int| 0 <= a < src.len() ==> (#[trigger] src[a]).1.wf(),
                self.wf(),
                self.items@.len() >= base.len(),
                forall|i: int| 0 <= i < base.len() ==> self.items@[i] == #[trigger] base[i],
                forall|i: int|
                    base.len() <= i < self.items@.len() ==> src.contains(
                        #[trigger] self.items@[i],
                    ),
                forall|k: int|
                    0 <= k < j ==> contains_pair_id(base, (#[trigger] src[k]).0)
                        || self.contains_id(src[k].0),
            decreases n - j,
        {
            proof {
                assert(other.items@[0] == src[j as int]);
            }
            let pair = other.items.remove(0);
            proof {
                assert(other.items@ =~= src.skip(j as int + 1));
            }
            let (id, e) = pair;
            let ghost pre = self.items@;
            let present = self.contains(id);
            if !present {
                self.insert(id, e);
                proof {
                    assert(self.items@[pre.len() as int] == (id, e));
                    assert(src.contains(self.items@[pre.len() as int])) by {
                        assert(src[j as int] == (id, e));
                    }
                }
            }
            proof {
                // Membership already established survives appends.
                assert forall|k: int| 0 <= k < j + 1 implies contains_pair_id(
                    base,
                    (#[trigger] src[k]).0,
                ) || self.contains_id(src[k].0) by {
                    if k < j {
                        if !contains_pair_id(base, src[k].0) {
                            let w = choose|w: int|
                                0 <= w < pre.len() && (#[trigger] pre[w]).0 == src[k].0;
                            assert(self.items@[w] == pre[w]);
                            assert(self.contains_id(src[k].0));
                        }
                    } else {
                        if present {
                            // The probe itself witnessed the id.
                            assert(self.contains_id(id)) by {
                                let w = choose|w: int|
                                    0 <= w < pre.len() && (#[trigger] pre[w]).0 == id;
                                assert(self.items@[w] == pre[w]);
                            }
                        } else {
                            assert(self.contains_id(id)) by {
                                assert(self.items@[pre.len() as int].0 == id);
                            }
                        }
                    }
                }
            }
            j = j + 1;
        }
        proof {
            assert forall|k: int| 0 <= k < src.len() implies old(self).contains_id(
                (#[trigger] src[k]).0,
            ) || self.contains_id(src[k].0) by {
                if contains_pair_id(base, src[k].0) {
                    let x = choose|x: int|
                        0 <= x < base.len() && (#[trigger] base[x]).0 == src[k].0;
                    assert(old(self).items@[x].0 == src[k].0);
                }
            }
        }
    }
}

/// Some pair in the list carries this id.
pub open spec fn contains_pair_id(items: Seq<(u64, Entry)>, id: u64) -> bool {
    exists|x: int| 0 <= x < items.len() && (#[trigger] items[x]).0 == id
}

/// The member shapes are well-formed whenever the map is.
pub proof fn lemma_entry_map_shapes_wf(m: &EntryMap)
    requires
        m.wf(),
    ensures
        shapes_wf(m.shapes()),
        m.shapes().len() == m.items@.len(),
        forall|i: int|
            0 <= i < m.items@.len() ==> (#[trigger] m.shapes()[i]) == m.items@[i].1.shape(
                m.items@[i].0,
            ),
{
    assert forall|k: int| 0 <= k < m.shapes().len() implies (#[trigger] m.shapes()[k]).wf() by {
        assert(m.items@[k].1.wf());
    }
}

/// A batch assembled by the queue, together with its entries.
pub struct NextBatch {
    pub entries: EntryMap,
    pub batch: Batch,
}

/// Queue state: the waiting entries in arrival order, plus the counters that
/// make ids and batch ids unique and let repeated scans skip work.
pub struct State<B: BatchType> {
    /// Batching configuration.
    config: BatchingConfig,
    batch_type: PhantomData<B>,
    /// Waiting entries, oldest first.
    entries: VecDeque<(u64, Entry)>,
    /// Id for the next appended entry.
    next_id: u64,
    /// Id for the next emitted batch.
    next_batch_id: u64,
    /// Size of the running batch at the previous call, to detect completions.
    last_seen_batch_size: usize,
    /// Queue prefix already found not to fit the running batch.
    checked_request_count: usize,
    /// Whether the last scan found too little work to justify a prefill.
    buffer_contents_insufficient: bool,
    /// The latest clock reading seen, in milliseconds.
    clock: Ghost<u64>,
}

impl<B: BatchType> State<B> {
    /// Waiting entries are well-formed, not yet started, and sit in
    /// insertion order: ids and queue times both increase along the queue.
    pub closed spec fn wf(&self) -> bool {
        &&& self.config.wf()
        &&& forall|i: int, j: int|
            0 <= i < j < self.entries@.len() ==> (#[trigger] self.entries@[i]).0 < (
            #[trigger] self.entries@[j]).0
        &&& forall|i: int| 0 <= i < self.entries@.len() ==> (#[trigger] self.entries@[i]).0
            < self.next_id
        &&& forall|i: int|
            0 <= i < self.entries@.len() ==> (#[trigger] self.entries@[i]).1.wf() && self.entries@[
                i
            ].1.generated_tokens == 0 && self.entries@[i].1.batch_time is None
        &&& forall|i: int, j: int|
            0 <= i <= j < self.entries@.len() ==> (#[trigger] self.entries@[i]).1.queue_time <= (
            #[trigger] self.entries@[j]).1.queue_time
        &&& forall|i: int| 0 <= i < self.entries@.len() ==> (#[trigger] self.entries@[i]).1.queue_time
            <= self.clock@
        &&& self.checked_request_count <= self.entries@.len()
    }

    pub closed spec fn queue(&self) -> Seq<(u64, Entry)> {
        self.entries@
    }

    pub closed spec fn queue_contains_id(&self, id: u64) -> bool {
        exists|i: int| 0 <= i < self.entries@.len() && (#[trigger] self.entries@[i]).0 == id
    }

    pub closed spec fn spec_next_id(&self) -> u64 {
        self.next_id
    }

    pub closed spec fn spec_next_batch_id(&self) -> u64 {
        self.next_batch_id
    }

    pub closed spec fn cursor(&self) -> int {
        self.checked_request_count as int
    }

    pub closed spec fn spec_config(&self) -> BatchingConfig {
        self.config
    }

    pub closed spec fn spec_clock(&self) -> u64 {
        self.clock@
    }

    /// Whether the last scan found too little new work to justify a prefill.
    pub closed spec fn spec_buffer_insufficient(&self) -> bool {
        self.buffer_contents_insufficient
    }

    pub fn new(config: BatchingConfig, _batch_type: B) -> (r: Self)
        requires
            config.wf(),
        ensures
            r.wf(),
            r.queue().len() == 0,
            r.spec_config() == config,
            r.spec_next_id() == 0,
            r.spec_next_batch_id() == 0,
            r.cursor() == 0,
            r.spec_clock() == 0,
    {
        State {
            config,
            batch_type: PhantomData,
            entries: VecDeque::new(),
            next_id: 0,
            next_batch_id: 0,
            last_seen_batch_size: 0,
            checked_request_count: 0,
            buffer_contents_insufficient: false,
            clock: Ghost(0),
        }
    }

    /// Append an entry to the tail of the queue under a fresh id.
    ///
    /// Ids never repeat: the new entry's id is `next_id`, strictly greater
    /// than every id already in the queue, and every id ever handed out
    /// stays below the updated `next_id`.
    pub fn append(&mut self, entry: Entry)
        requires
            old(self).wf(),
            entry.wf(),
            entry.generated_tokens == 0,
            entry.batch_time is None,
            entry.queue_time >= old(self).spec_clock(),
            old(self).spec_next_id() < u64::MAX,
        ensures
            final(self).wf(),
            final(self).queue() == old(self).queue().push((old(self).spec_next_id(), entry)),
            final(self).spec_next_id() == old(self).spec_next_id() + 1,
            final(self).spec_next_batch_id() == old(self).spec_next_batch_id(),
            final(self).spec_config() == old(self).spec_config(),
            final(self).spec_clock() == entry.queue_time,
            !old(self).queue_contains_id(old(self).spec_next_id()),
    {
        proof {
            if old(self).queue_contains_id(old(self).next_id) {
                let i = choose|i: int|
                    0 <= i < old(self).entries@.len() && (#[trigger] old(self).entries@[i]).0
                        == old(self).next_id;
                assert(old(self).entries@[i].0 < old(self).next_id);
            }
        }
        let id = self.next_id;
        self.entries.push_back((id, entry));
        self.next_id = self.next_id + 1;
        proof {
            self.clock@ = entry.queue_time;
        }
    }

    /// True when the entry at the head of the queue has been waiting longer
    /// than the waiting bound.
    fn next_entry_waiting_too_long(&self, now: u64) -> (r: bool)
        requires
            self.wf(),
            now >= self.spec_clock(),
        ensures
            r == (self.queue().len() > 0 && now - self.queue()[0].1.queue_time
                > MAX_WAITING_DURATION_MS),
    {
        if self.entries.len() == 0 {
            return false;
        }
        let head = &self.entries[0];
        now - head.1.queue_time > MAX_WAITING_DURATION_MS
    }
}

/// Ids never repeat: the waiting queue holds every entry under its own id,
/// in assignment order, and every id it ever assigned stays below the next
/// one to be handed out.
pub proof fn lemma_entry_ids_unique<B: BatchType>(s: &State<B>)
    requires
        s.wf(),
    ensures
        forall|i: int, j: int|
            0 <= i < j < s.queue().len() ==> (#[trigger] s.queue()[i]).0 < (
            #[trigger] s.queue()[j]).0,
        forall|i: int| 0 <= i < s.queue().len() ==> (#[trigger] s.queue()[i]).0
            < s.spec_next_id(),
{
}

/// Fold the projected dimensions of a batch's members into cost-model
/// statistics.
pub fn compute_stats<B: BatchType>(entries: &EntryMap) -> (r: (B::Stats, Ghost<Seq<Shape>>))
    requires
        entries.wf(),
        entries.items@.len() <= u32::MAX,
    ensures
        r.1@ == entries.shapes(),
        B::is_stats(r.0, r.1@),
        shapes_wf(r.1@),
{
    proof {
        lemma_entry_map_shapes_wf(entries);
    }
    let ghost all = entries.shapes();
    let mut stats = B::default_stats();
    let ghost done = Seq::<Shape>::empty();
    let n = entries.items.len();
    let mut i: usize = 0;
    while i < n
        invariant
            0 <= i <= n,
            n == entries.items@.len() <= u32::MAX,
            entries.wf(),
            all == entries.shapes(),
            shapes_wf(all),
            done == all.take(i as int),
            B::is_stats(stats, done),
        decreases n - i,
    {
        let item = &entries.items[i];
        let input_length = item.1.request.truncate as u64;
        let output_length = item.1.request.stopping_parameters.max_new_tokens as u64;
        proof {
            assert(all[i as int] == entries.items@[i as int].1.shape(entries.items@[i as int].0));
            assert(shapes_wf(done)) by {
                assert(forall|k: int| 0 <= k < done.len() ==> done[k] == #[trigger] all[k]);
            }
        }
        stats =
        B::update_stats(
            &stats,
            input_length,
            output_length,
            Ghost(done),
            Ghost(all[i as int]),
        );
        proof {
            done = done.push(all[i as int]);
            assert(done =~= all.take(i as int + 1));
        }
        i = i + 1;
    }
    proof {
        assert(all.take(n as int) =~= all);
    }
    (stats, Ghost(all))
}

/// `k` occurs in the index list.
pub open spec fn in_idx(idxs: Seq<usize>, k: int) -> bool {
    exists|x: int| 0 <= x < idxs.len() && idxs[x] == k
}

/// The index list is strictly increasing.
pub open spec fn strict_incr(idxs: Seq<usize>) -> bool {
    forall|x: int, y: int| 0 <= x < y < idxs.len() ==> idxs[x] < idxs[y]
}

/// The shapes of the queue entries selected by an index list, in list order.
pub open spec fn picked_shapes(q: Seq<(u64, Entry)>, idxs: Seq<usize>) -> Seq<Shape> {
    Seq::new(idxs.len(), |k: int| q[idxs[k] as int].1.shape(q[idxs[k] as int].0))
}

/// The entry as it leaves the queue for a batch: its start time stamped.
pub open spec fn stamped(e: Entry, now: u64) -> Entry {
    Entry { batch_time: Some(now), ..e }
}

/// The two stopping criteria agree in every observable respect.
pub open spec fn same_stopping(a: StoppingCriteriaParameters, b: StoppingCriteriaParameters) -> bool {
    &&& a.max_new_tokens == b.max_new_tokens
    &&& a.stop_sequences@ == b.stop_sequences@
    &&& a.ignore_eos_token == b.ignore_eos_token
}

/// How many listed queue indices lie strictly below `k`.
pub open spec fn idx_below(idxs: Seq<usize>, k: int) -> int
    decreases idxs.len(),
{
    if idxs.len() == 0 {
        0
    } else {
        idx_below(idxs.drop_last(), k) + if (idxs.last() as int) < k {
            1int
        } else {
            0int
        }
    }
}

/// How many listed queue positions lie strictly below `k`.
pub open spec fn src_below(idxs: Seq<int>, k: int) -> int
    decreases idxs.len(),
{
    if idxs.len() == 0 {
        0
    } else {
        src_below(idxs.drop_last(), k) + if idxs.last() < k {
            1int
        } else {
            0int
        }
    }
}

/// The shapes of the queue entries at the listed positions, in list order.
pub open spec fn picked_shapes_src(q: Seq<(u64, Entry)>, idxs: Seq<int>) -> Seq<Shape> {
    Seq::new(idxs.len(), |x: int| q[idxs[x]].1.shape(q[idxs[x]].0))
}

/// The count below any threshold is within the list's length.
pub proof fn lemma_idx_below_bounds(idxs: Seq<usize>, k: int)
    ensures
        0 <= idx_below(idxs, k) <= idxs.len(),
    decreases idxs.len(),
{
    if idxs.len() > 0 {
        lemma_idx_below_bounds(idxs.drop_last(), k);
    }
}

/// When every listed index is below `k`, all of them are counted.
pub proof fn lemma_idx_below_all(idxs: Seq<usize>, k: int)
    requires
        forall|x: int| 0 <= x < idxs.len() ==> (#[trigger] idxs[x]) < k,
    ensures
        idx_below(idxs, k) == idxs.len(),
    decreases idxs.len(),
{
    if idxs.len() > 0 {
        assert(forall|x: int| 0 <= x < idxs.len() - 1 ==> idxs.drop_last()[x] == #[trigger] idxs[x]);
        assert(idxs.last() == idxs[idxs.len() - 1]);
        lemma_idx_below_all(idxs.drop_last(), k);
    }
}

/// Counting below a threshold is unchanged by shifting positions and the
/// threshold together.
pub proof fn lemma_shifted_counts(idxs: Seq<usize>, shifted: Seq<int>, d: int, k: int)
    requires
        shifted.len() == idxs.len(),
        forall|x: int| 0 <= x < idxs.len() ==> #[trigger] shifted[x] == d + idxs[x],
    ensures
        src_below(shifted, d + k) == idx_below(idxs, k),
    decreases idxs.len(),
{
    if idxs.len() > 0 {
        assert(forall|x: int| 0 <= x < idxs.len() - 1 ==> idxs.drop_last()[x] == #[trigger] idxs[x]);
        assert(forall|x: int|
            0 <= x < shifted.len() - 1 ==> shifted.drop_last()[x] == #[trigger] shifted[x]);
        assert(shifted.last() == shifted[idxs.len() - 1]);
        assert(idxs.last() == idxs[idxs.len() - 1]);
        lemma_shifted_counts(idxs.drop_last(), shifted.drop_last(), d, k);
    }
}

/// The candidate failed a budget check against the batch assembled so far:
/// either the combined batch would outgrow the weight budget at some future
/// boundary within the candidate's own lifetime, or, with a prefill budget
/// configured, the new sub-batch's prefill pass would exceed it.
pub open spec fn scan_rejected<B: BatchType>(
    config: BatchingConfig,
    existing: Seq<Shape>,
    pick: Seq<Shape>,
    cand: Shape,
) -> bool {
    ||| (B::spec_weight((existing + pick).push(cand)) > config.weight_limit as int && exists|g: int|
        0 <= g <= cand.rem() && is_boundary((existing + pick).push(cand), g) && step_at::<B>(
            (existing + pick).push(cand),
            g,
        ) > config.weight_limit as int)
    ||| (config.prefill_weight_limit > 0 && B::spec_prefill_weight(pick.push(cand))
        > config.prefill_weight_limit as int)
}

/// Rejection evidence recorded against the scanned queue carries over to
/// the original queue coordinates, with the chosen positions shifted along.
pub proof fn lemma_rejections_to_old<B: BatchType>(
    config: BatchingConfig,
    exsh: Seq<Shape>,
    oldq: Seq<(u64, Entry)>,
    q: Seq<(u64, Entry)>,
    d: int,
    i_end: int,
    chosen: Seq<usize>,
    drops: Seq<usize>,
    omap: Seq<int>,
    kept: Seq<int>,
    batched: Seq<int>,
)
    requires
        0 <= d,
        d + q.len() == oldq.len(),
        forall|qi: int| 0 <= qi < q.len() ==> #[trigger] q[qi] == oldq[d + qi],
        kept.len() == omap.len(),
        forall|j: int| 0 <= j < kept.len() ==> #[trigger] kept[j] == d + omap[j],
        batched.len() == chosen.len(),
        forall|x: int| 0 <= x < batched.len() ==> #[trigger] batched[x] == d + chosen[x],
        forall|x: int| 0 <= x < chosen.len() ==> (#[trigger] chosen[x]) < q.len(),
        forall|j: int|
            0 <= j < omap.len() ==> 0 <= #[trigger] omap[j] < q.len() && !in_idx(chosen, omap[j])
                && !in_idx(drops, omap[j]),
        forall|k: int|
            #![trigger q[k].1]
            0 <= k < i_end && !in_idx(chosen, k) && !in_idx(drops, k) ==> scan_rejected::<B>(
                config,
                exsh,
                picked_shapes(q, chosen.take(idx_below(chosen, k))),
                q[k].1.shape(q[k].0),
            ),
    ensures
        forall|j: int|
            #![trigger kept[j]]
            0 <= j < kept.len() && kept[j] < d + i_end ==> scan_rejected::<B>(
                config,
                exsh,
                picked_shapes_src(oldq, batched.take(src_below(batched, kept[j]))),
                oldq[kept[j]].1.shape(oldq[kept[j]].0),
            ),
{
    assert forall|j: int|
        #![trigger kept[j]]
        0 <= j < kept.len() && kept[j] < d + i_end implies scan_rejected::<B>(
        config,
        exsh,
        picked_shapes_src(oldq, batched.take(src_below(batched, kept[j]))),
        oldq[kept[j]].1.shape(oldq[kept[j]].0),
    ) by {
        let qk = omap[j];
        assert(scan_rejected::<B>(
            config,
            exsh,
            picked_shapes(q, chosen.take(idx_below(chosen, qk))),
            q[qk].1.shape(q[qk].0),
        ));
        lemma_shifted_counts(chosen, batched, d, qk);
        assert(src_below(batched, kept[j]) == idx_below(chosen, qk));
        let c = idx_below(chosen, qk);
        lemma_idx_below_bounds(chosen, qk);
        assert(picked_shapes_src(oldq, batched.take(c)) =~= picked_shapes(q, chosen.take(c))) by {
            assert forall|x: int| 0 <= x < c implies picked_shapes_src(oldq, batched.take(c))[x]
                == picked_shapes(q, chosen.take(c))[x] by {
                assert(batched.take(c)[x] == d + chosen[x]);
                assert(chosen.take(c)[x] == chosen[x]);
                assert(oldq[d + chosen[x]] == q[chosen[x] as int]);
            }
        }
        assert(oldq[kept[j]] == q[qk]);
    }
}

/// A one-request batch of this shape respects both budgets.
pub open spec fn singleton_fits<B: BatchType>(config: BatchingConfig, m: Shape) -> bool {
    &&& B::spec_weight(seq![m]) <= config.weight_limit as int
    &&& config.prefill_weight_limit > 0 ==> B::spec_prefill_weight(seq![m])
        <= config.prefill_weight_limit as int
}

/// Copy stopping criteria; `Vec<String>` has no usable derived clone, so the
/// copy is rebuilt element by element.
fn duplicate_stopping(s: &StoppingCriteriaParameters) -> (r: StoppingCriteriaParameters)
    ensures
        same_stopping(r, *s),
{
    let mut stop_sequences: Vec<String> = Vec::new();
    let n = s.stop_sequences.len();
    let mut i: usize = 0;
    while i < n
        invariant
            0 <= i <= n,
            n == s.stop_sequences@.len(),
            stop_sequences@.len() == i,
            forall|k: int| 0 <= k < i ==> stop_sequences@[k] == #[trigger] s.stop_sequences@[k],
        decreases n - i,
    {
        stop_sequences.push(s.stop_sequences[i].clone());
        i = i + 1;
    }
    proof {
        assert(stop_sequences@ =~= s.stop_sequences@);
    }
    StoppingCriteriaParameters {
        max_new_tokens: s.max_new_tokens,
        stop_sequences,
        ignore_eos_token: s.ignore_eos_token,
    }
}

impl<B: BatchType> State<B> {
    /// Pop cancelled entries off the head of the queue, resetting the scan
    /// cursor when any was removed.
    fn prune_front(&mut self) -> (d: Ghost<int>)
        requires
            old(self).wf(),
        ensures
            final(self).wf(),
            0 <= d@ <= old(self).entries@.len(),
            final(self).entries@ == old(self).entries@.skip(d@),
            d@ > 0 ==> final(self).checked_request_count == 0,
            d@ == 0 ==> *final(self) == *old(self),
            final(self).config == old(self).config,
            final(self).next_id == old(self).next_id,
            final(self).next_batch_id == old(self).next_batch_id,
            final(self).clock == old(self).clock,
            final(self).last_seen_batch_size == old(self).last_seen_batch_size,
            final(self).buffer_contents_insufficient == old(self).buffer_contents_insufficient,
            d@ == 0 || final(self).checked_request_count == 0,
    {
        let ghost q0 = self.entries@;
        let n0 = self.entries.len();
        let mut popped: usize = 0;
        loop
            invariant
                self.wf(),
                n0 == q0.len(),
                0 <= popped <= n0,
                self.entries@ == q0.skip(popped as int),
                popped > 0 ==> self.checked_request_count == 0,
                popped == 0 ==> *self == *old(self),
                self.config == old(self).config,
                self.next_id == old(self).next_id,
                self.next_batch_id == old(self).next_batch_id,
                self.clock == old(self).clock,
                self.last_seen_batch_size == old(self).last_seen_batch_size,
                self.buffer_contents_insufficient == old(self).buffer_contents_insufficient,
                q0 == old(self).entries@,
            ensures
                self.wf(),
                0 <= popped <= q0.len(),
                self.entries@ == q0.skip(popped as int),
                popped > 0 ==> self.checked_request_count == 0,
                popped == 0 ==> *self == *old(self),
                self.config == old(self).config,
                self.next_id == old(self).next_id,
                self.next_batch_id == old(self).next_batch_id,
                self.clock == old(self).clock,
                self.last_seen_batch_size == old(self).last_seen_batch_size,
                self.buffer_contents_insufficient == old(self).buffer_contents_insufficient,
            decreases q0.len() - popped,
        {
            if self.entries.len() == 0 {
                break ;
            }
            if !self.entries[0].1.response_tx.is_disconnected() {
                break ;
            }
            let ghost pre = self.entries@;
            proof {
                assert(popped < q0.len());
            }
            self.entries.pop_front();
            self.checked_request_count = 0;
            popped = popped + 1;
            proof {
                assert(self.entries@ =~= pre.skip(1));
                assert(self.entries@ =~= q0.skip(popped as int));
            }
        }
        Ghost(popped as int)
    }

    /// Take the selected entries out of the queue, stamping their start
    /// time, and discard the dropped ones; everything else keeps its order.
    fn rebuild(&mut self, drops: &Vec<usize>, chosen: &Vec<usize>, now: u64, lim: Ghost<int>) -> (r: (
        Vec<(u64, Entry)>,
        Ghost<Seq<int>>,
    ))
        requires
            old(self).wf(),
            strict_incr(drops@),
            strict_incr(chosen@),
            forall|x: int| 0 <= x < drops@.len() ==> drops@[x] < lim@,
            forall|x: int| 0 <= x < chosen@.len() ==> chosen@[x] < lim@,
            0 <= lim@ <= old(self).entries@.len(),
            forall|x: int, y: int|
                0 <= x < drops@.len() && 0 <= y < chosen@.len() ==> drops@[x] != chosen@[y],
        ensures
            final(self).wf(),
            final(self).config == old(self).config,
            final(self).next_id == old(self).next_id,
            final(self).next_batch_id == old(self).next_batch_id,
            final(self).clock == old(self).clock,
            final(self).last_seen_batch_size == old(self).last_seen_batch_size,
            final(self).buffer_contents_insufficient == old(self).buffer_contents_insufficient,
            final(self).checked_request_count == 0,
            r.0@.len() == chosen@.len(),
            forall|x: int|
                0 <= x < chosen@.len() ==> (#[trigger] r.0@[x]).0 == old(self).entries@[chosen@[
                    x
                ] as int].0 && r.0@[x].1 == stamped(old(self).entries@[chosen@[x] as int].1, now),
            final(self).entries@.len() + drops@.len() + chosen@.len() == old(self).entries@.len(),
            r.1@.len() == final(self).entries@.len(),
            forall|j1: int, j2: int| 0 <= j1 < j2 < r.1@.len() ==> #[trigger] r.1@[j1]
                < #[trigger] r.1@[j2],
            forall|j: int|
                0 <= j < final(self).entries@.len() ==> 0 <= #[trigger] r.1@[j] < old(
                    self,
                ).entries@.len() && final(self).entries@[j] == old(self).entries@[r.1@[j]]
                    && !in_idx(drops@, r.1@[j]) && !in_idx(chosen@, r.1@[j]),
            drops@.len() + chosen@.len() <= lim@,
            forall|i: int|
                #![trigger old(self).entries@[i]]
                lim@ <= i < old(self).entries@.len() ==> i - (drops@.len() + chosen@.len()) >= 0
                    && final(self).entries@[i - (drops@.len() + chosen@.len())] == old(
                    self,
                ).entries@[i],
    {
        let ghost q0 = self.entries@;
        let n = self.entries.len();
        let mut new_q: VecDeque<(u64, Entry)> = VecDeque::new();
        let ghost mut omap: Seq<int> = Seq::empty();
        let mut picked: Vec<(u64, Entry)> = Vec::new();
        let mut di: usize = 0;
        let mut ci: usize = 0;
        let mut k: usize = 0;
        proof {
            if lim@ <= 0 {
                assert(drops@.len() == 0) by {
                    if drops@.len() > 0 {
                        assert(drops@[0] < lim@);
                    }
                }
                assert(chosen@.len() == 0) by {
                    if chosen@.len() > 0 {
                        assert(chosen@[0] < lim@);
                    }
                }
            }
        }
        while k < n
            invariant
                0 <= k <= n,
                n == q0.len(),
                q0 == old(self).entries@,
                old(self).wf(),
                self.entries@ == q0.skip(k as int),
                self.config == old(self).config,
                self.next_id == old(self).next_id,
                self.next_batch_id == old(self).next_batch_id,
                self.clock == old(self).clock,
                self.last_seen_batch_size == old(self).last_seen_batch_size,
                self.buffer_contents_insufficient == old(self).buffer_contents_insufficient,
                strict_incr(drops@),
                strict_incr(chosen@),
                forall|x: int| 0 <= x < drops@.len() ==> drops@[x] < lim@,
                forall|x: int| 0 <= x < chosen@.len() ==> chosen@[x] < lim@,
                0 <= lim@ <= n,
                forall|x: int, y: int|
                    0 <= x < drops@.len() && 0 <= y < chosen@.len() ==> drops@[x] != chosen@[y],
                forall|i: int|
                    #![trigger q0[i]]
                    lim@ <= i < k ==> i - (drops@.len() + chosen@.len()) >= 0 && new_q@[i - (
                    drops@.len() + chosen@.len())] == q0[i],
                k >= lim@ ==> di == drops@.len() && ci == chosen@.len(),
                k >= lim@ ==> drops@.len() + chosen@.len() <= lim@,
                0 <= di <= drops@.len(),
                0 <= ci <= chosen@.len(),
                forall|x: int| 0 <= x < di ==> drops@[x] < k,
                di < drops@.len() ==> drops@[di as int] >= k,
                forall|x: int| 0 <= x < ci ==> chosen@[x] < k,
                ci < chosen@.len() ==> chosen@[ci as int] >= k,
                picked@.len() == ci,
                forall|x: int|
                    0 <= x < ci ==> (#[trigger] picked@[x]).0 == q0[chosen@[x] as int].0 && picked@[
                        x
                    ].1 == stamped(q0[chosen@[x] as int].1, now),
                new_q@.len() + di + ci == k,
                omap.len() == new_q@.len(),
                forall|j1: int, j2: int| 0 <= j1 < j2 < omap.len() ==> #[trigger] omap[j1]
                    < #[trigger] omap[j2],
                forall|j: int|
                    0 <= j < new_q@.len() ==> 0 <= #[trigger] omap[j] < k && new_q@[j] == q0[omap[
                        j
                    ]] && !in_idx(drops@, omap[j]) && !in_idx(chosen@, omap[j]),
                forall|j1: int, j2: int|
                    0 <= j1 < j2 < new_q@.len() ==> (#[trigger] new_q@[j1]).0 < (
                    #[trigger] new_q@[j2]).0,
                forall|j1: int, j2: int|
                    0 <= j1 <= j2 < new_q@.len() ==> (#[trigger] new_q@[j1]).1.queue_time <= (
                    #[trigger] new_q@[j2]).1.queue_time,
                forall|j: int|
                    0 <= j < new_q@.len() ==> (#[trigger] new_q@[j]).1.wf() && new_q@[
                        j
                    ].1.generated_tokens == 0 && new_q@[j].1.batch_time is None && new_q@[j].0
                        < self.next_id && new_q@[j].1.queue_time <= self.clock@,
                forall|j: int, oj: int|
                    0 <= j < new_q@.len() && k <= oj < n ==> (#[trigger] new_q@[j]).0 < (
                    #[trigger] q0[oj]).0 && new_q@[j].1.queue_time <= q0[oj].1.queue_time,
            decreases n - k,
        {
            proof {
                assert(self.entries@[0] == q0[k as int]);
            }
            let pair_opt = self.entries.pop_front();
            let pair = pair_opt.unwrap();
            let ghost pre = q0.skip(k as int);
            proof {
                assert(self.entries@ =~= q0.skip(k as int + 1));
            }
            if di < drops.len() && drops[di] == k {
                di = di + 1;
                proof {
                    assert((k as int) < lim@);
                    if di < drops@.len() {
                        assert(drops@[di - 1] == k as usize);
                        assert(drops@[di - 1] < drops@[di as int]);
                    }
                    if ci < chosen@.len() {
                        assert(drops@[di - 1] != chosen@[ci as int]);
                    }
                }
            } else if ci < chosen.len() && chosen[ci] == k {
                let (id, mut e) = pair;
                e.batch_time = Some(now);
                proof {
                    assert(e == stamped(q0[k as int].1, now));
                }
                picked.push((id, e));
                ci = ci + 1;
                proof {
                    assert((k as int) < lim@);
                    if ci < chosen@.len() {
                        assert(chosen@[ci - 1] == k as usize);
                        assert(chosen@[ci - 1] < chosen@[ci as int]);
                    }
                    if di < drops@.len() {
                        assert(drops@[di as int] != chosen@[ci - 1]);
                    }
                }
            } else {
                proof {
                    if k + 1 >= lim@ {
                        assert(di == drops@.len()) by {
                            if di < drops@.len() {
                                assert(drops@[di as int] < lim@);
                            }
                        }
                        assert(ci == chosen@.len()) by {
                            if ci < chosen@.len() {
                                assert(chosen@[ci as int] < lim@);
                            }
                        }
                    }
                    assert(!in_idx(drops@, k as int)) by {
                        if in_idx(drops@, k as int) {
                            let x = choose|x: int|
                                0 <= x < drops@.len() && drops@[x] == k as usize;
                            assert(x >= di);
                            assert(x > di ==> drops@[di as int] < drops@[x]);
                        }
                    }
                    assert(!in_idx(chosen@, k as int)) by {
                        if in_idx(chosen@, k as int) {
                            let x = choose|x: int|
                                0 <= x < chosen@.len() && chosen@[x] == k as usize;
                            assert(x >= ci);
                            assert(x > ci ==> chosen@[ci as int] < chosen@[x]);
                        }
                    }
                }
                let ghost prelen = new_q@.len();
                let ghost prevq = new_q@;
                new_q.push_back(pair);
                proof {
                    omap = omap.push(k as int);
                    assert(new_q@[prelen as int] == q0[k as int]);
                    assert forall|i: int|
                        #![trigger q0[i]]
                        lim@ <= i < k + 1 implies i - (drops@.len() + chosen@.len()) >= 0
                        && new_q@[i - (drops@.len() + chosen@.len())] == q0[i] by {
                        assert(di == drops@.len() && ci == chosen@.len()) by {
                            if di < drops@.len() {
                                assert(drops@[di as int] < lim@);
                            }
                            if ci < chosen@.len() {
                                assert(chosen@[ci as int] < lim@);
                            }
                        }
                        if i < k {
                            assert(i - (drops@.len() + chosen@.len()) >= 0 && prevq[i - (
                            drops@.len() + chosen@.len())] == q0[i]);
                            assert(i - (drops@.len() + chosen@.len()) < prelen);
                            assert(new_q@[i - (drops@.len() + chosen@.len())] == prevq[i - (
                            drops@.len() + chosen@.len())]);
                        } else {
                            assert(new_q@[k as int - (drops@.len() + chosen@.len())] == q0[
                                k as int
                            ]);
                        }
                    }
                }
            }
            k = k + 1;
        }
        self.entries = new_q;
        self.checked_request_count = 0;
        proof {
            assert(q0.skip(n as int) =~= Seq::<(u64, Entry)>::empty());
            assert forall|i: int|
                #![trigger old(self).entries@[i]]
                lim@ <= i < old(self).entries@.len() implies i - (drops@.len() + chosen@.len())
                    >= 0 && self.entries@[i - (drops@.len() + chosen@.len())] == old(
                self,
            ).entries@[i] by {
                assert(q0[i] == old(self).entries@[i]);
                assert(self.entries@[i - (drops@.len() + chosen@.len())] == q0[i]);
            }
        }
        (picked, Ghost(omap))
    }
}

/// The shapes of a possibly-absent running batch.
pub open spec fn opt_shapes(o: Option<EntryMap>) -> Seq<Shape> {
    match o {
        Some(m) => m.shapes(),
        None => Seq::empty(),
    }
}

/// Pushing onto an index list keeps every membership and adds the new one.
pub proof fn lemma_in_idx_push(idxs: Seq<usize>, v: usize)
    ensures
        forall|k: int| in_idx(idxs, k) ==> in_idx(#[trigger] idxs.push(v), k),
        in_idx(idxs.push(v), v as int),
        forall|k: int| in_idx(idxs.push(v), k) ==> in_idx(idxs, k) || k == v,
{
    assert(idxs.push(v)[idxs.len() as int] == v);
    assert forall|k: int| in_idx(idxs, k) implies in_idx(#[trigger] idxs.push(v), k) by {
        let x = choose|x: int| 0 <= x < idxs.len() && idxs[x] == k;
        assert(idxs.push(v)[x] == k);
    }
    assert forall|k: int| in_idx(idxs.push(v), k) implies in_idx(idxs, k) || k == v by {
        let x = choose|x: int| 0 <= x < idxs.push(v).len() && idxs.push(v)[x] == k;
        if x < idxs.len() {
            assert(idxs[x] == k);
        }
    }
}

/// A backend request faithfully copies the entry it was built from.
pub open spec fn request_matches(r: Request, id: u64, e: Entry) -> bool {
    &&& r.id == id
    &&& r.inputs == e.request.inputs
    &&& r.truncate == e.request.truncate
    &&& r.parameters == e.request.parameters
    &&& same_stopping(r.stopping_parameters, e.request.stopping_parameters)
}

impl<B: BatchType> State<B> {
    /// Build the projection records of the running batch and the candidates
    /// committed so far, for the fine-grained weight analysis.
    fn build_tree(
        &self,
        existing: &Option<EntryMap>,
        chosen: &Vec<usize>,
        members: Ghost<Seq<Shape>>,
    ) -> (t: ProjTree)
        requires
            self.wf(),
            match existing {
                Some(m) => m.wf() && forall|id: u64|
                    m.contains_id(id) ==> !self.queue_contains_id(id),
                None => true,
            },
            strict_incr(chosen@),
            forall|x: int| 0 <= x < chosen@.len() ==> chosen@[x] < self.queue().len(),
            members@ == opt_shapes(*existing) + picked_shapes(self.queue(), chosen@),
            members@.len() < u32::MAX,
            shapes_wf(members@),
            forall|k: int, l: int|
                0 <= k < members@.len() && 0 <= l < members@.len() && k != l ==> (
                #[trigger] members@[k]).id != (#[trigger] members@[l]).id,
        ensures
            t.wf(),
            t.shapes@.to_multiset() == members@.to_multiset(),
    {
        let ghost q = self.queue();
        let ghost ms = members@;
        let ghost exs = opt_shapes(*existing);
        let mut t = ProjTree::new();
        proof {
            assert(ms.take(0) =~= Seq::<Shape>::empty());
        }
        match existing {
            Some(m) => {
                let en = m.items.len();
                proof {
                    lemma_entry_map_shapes_wf(m);
                }
                let mut k: usize = 0;
                while k < en
                    invariant
                        0 <= k <= en,
                        en == m.items@.len(),
                        m.wf(),
                        exs == m.shapes(),
                        ms.take(k as int) =~= exs.take(k as int),
                        forall|x: int| 0 <= x < en ==> ms[x] == exs[x],
                        ms == members@,
                        en <= ms.len() < u32::MAX,
                        shapes_wf(ms),
                        forall|a: int, b: int|
                            0 <= a < ms.len() && 0 <= b < ms.len() && a != b ==> (
                            #[trigger] ms[a]).id != (#[trigger] ms[b]).id,
                        t.wf(),
                        t.shapes@.to_multiset() == ms.take(k as int).to_multiset(),
                        t.shapes@.len() == k,
                    decreases en - k,
                {
                    let e = &m.items[k].1;
                    let id = m.items[k].0;
                    let rem = e.request.stopping_parameters.max_new_tokens as u64
                        - e.generated_tokens as u64;
                    let cur = e.request.truncate as u64 + e.generated_tokens as u64;
                    proof {
                        assert(exs[k as int] == m.items@[k as int].1.shape(m.items@[k as int].0));
                        assert(ms[k as int] == exs[k as int]);
                        assert forall|x: int| 0 <= x < k implies (#[trigger] ms.take(k as int)[
                            x
                        ]).id != ms[k as int].id by {
                            assert(ms.take(k as int)[x] == ms[x]);
                        }
                        lemma_shape_ids_transfer(
                            t.shapes@,
                            ms.take(k as int),
                            ms[k as int].id,
                        );
                        assert(t.shapes@.to_multiset().len() == k) by {
                            t.shapes@.to_multiset_ensures();
                        }
                    }
                    let ghost pre = t.shapes@;
                    let at = t.insert(rem, cur, id, Ghost(ms[k as int]));
                    proof {
                        lemma_seq_insert_to_multiset(pre, at@, ms[k as int]);
                        assert(ms.take(k as int + 1) =~= ms.take(k as int).push(ms[k as int]));
                        broadcast use vstd::seq_lib::group_to_multiset_ensures;

                    }
                    k = k + 1;
                }
            },
            None => {},
        }
        let ghost exn = exs.len() as int;
        let cn = chosen.len();
        let mut c: usize = 0;
        proof {
            assert(t.shapes@.to_multiset() == ms.take(exn).to_multiset()) by {
                match existing {
                    Some(m) => {
                        assert(ms.take(exn) =~= exs.take(exn));
                    },
                    None => {
                        assert(ms.take(exn) =~= Seq::<Shape>::empty());
                    },
                }
            }
        }
        while c < cn
            invariant
                0 <= c <= cn,
                cn == chosen@.len(),
                self.wf(),
                q == self.queue(),
                strict_incr(chosen@),
                forall|x: int| 0 <= x < cn ==> chosen@[x] < q.len(),
                ms == members@,
                ms == exs + picked_shapes(q, chosen@),
                0 <= exn,
                exn + cn == ms.len() < u32::MAX,
                shapes_wf(ms),
                forall|a: int, b: int|
                    0 <= a < ms.len() && 0 <= b < ms.len() && a != b ==> (#[trigger] ms[a]).id != (
                    #[trigger] ms[b]).id,
                t.wf(),
                t.shapes@.to_multiset() == ms.take(exn + c).to_multiset(),
                t.shapes@.len() == exn + c,
            decreases cn - c,
        {
            let k = chosen[c];
            let e = &self.entries[k].1;
            let id = self.entries[k].0;
            let rem = e.request.stopping_parameters.max_new_tokens as u64
                - e.generated_tokens as u64;
            let cur = e.request.truncate as u64 + e.generated_tokens as u64;
            proof {
                assert(picked_shapes(q, chosen@)[c as int] == q[chosen@[c as int] as int].1.shape(
                    q[chosen@[c as int] as int].0,
                ));
                assert(ms[exn + c] == picked_shapes(q, chosen@)[c as int]);
                assert forall|x: int| 0 <= x < exn + c implies (#[trigger] ms.take(exn + c)[
                    x
                ]).id != ms[exn + c].id by {
                    assert(ms.take(exn + c)[x] == ms[x]);
                }
                lemma_shape_ids_transfer(t.shapes@, ms.take(exn + c), ms[exn + c].id);
            }
            let ghost pre = t.shapes@;
            let at = t.insert(rem, cur, id, Ghost(ms[exn + c]));
            proof {
                lemma_seq_insert_to_multiset(pre, at@, ms[exn + c]);
                assert(ms.take(exn + c + 1) =~= ms.take(exn + c).push(ms[exn + c]));
                broadcast use vstd::seq_lib::group_to_multiset_ensures;

            }
            c = c + 1;
        }
        proof {
            assert(ms.take(exn + cn) =~= ms);
        }
        t
    }


    /// Price one open queue entry against the batch being assembled: update
    /// the statistics and the projection records, and say whether it joins.
    #[verifier::rlimit(100)]
    fn consider_candidate(
        &self,
        existing: &Option<EntryMap>,
        chosen: &Vec<usize>,
        i: usize,
        batch_stats: &mut B::Stats,
        prefill_stats: &mut B::Stats,
        tree: &mut ProjTree,
        tree_built: &mut bool,
        hit_prefill: &mut bool,
        total_count: usize,
        members: Ghost<Seq<Shape>>,
    ) -> (res: (bool, Ghost<Seq<Shape>>))
        requires
            self.wf(),
            match existing {
                Some(m) => m.wf() && opt_shapes(*existing) == m.shapes() && (forall|id: u64|
                    m.contains_id(id) ==> !self.queue_contains_id(id)),
                None => true,
            },
            strict_incr(chosen@),
            forall|x: int| 0 <= x < chosen@.len() ==> chosen@[x] < i,
            i < self.queue().len(),
            members@ == opt_shapes(*existing) + picked_shapes(self.queue(), chosen@),
            members@.len() == total_count < self.spec_config().size_limit,
            shapes_wf(members@),
            forall|a: int, b: int|
                0 <= a < members@.len() && 0 <= b < members@.len() && a != b ==> (
                #[trigger] members@[a]).id != (#[trigger] members@[b]).id,
            B::is_stats(*old(batch_stats), members@),
            self.spec_config().prefill_weight_limit > 0 ==> B::is_prefill_stats(
                *old(prefill_stats),
                picked_shapes(self.queue(), chosen@),
            ) && B::spec_prefill_weight(picked_shapes(self.queue(), chosen@)) <= self.spec_config().prefill_weight_limit as int,
            B::exact(members@) ==> ok_all::<B>(members@, self.spec_config().weight_limit as int),
            *old(tree_built) ==> old(tree).wf() && old(tree).shapes@.to_multiset()
                == members@.to_multiset(),
        ensures
            ({
                let cand = self.queue()[i as int].1.shape(self.queue()[i as int].0);
                let pick = picked_shapes(self.queue(), chosen@);
                &&& (res.0 ==> {
                    &&& res.1@ == members@.push(cand)
                    &&& B::is_stats(*final(batch_stats), res.1@)
                    &&& (self.spec_config().prefill_weight_limit > 0 ==> B::is_prefill_stats(
                        *final(prefill_stats),
                        pick.push(cand),
                    ) && B::spec_prefill_weight(pick.push(cand)) <= self.spec_config().prefill_weight_limit as int)
                    &&& (B::exact(res.1@) ==> ok_all::<B>(
                        res.1@,
                        self.spec_config().weight_limit as int,
                    ))
                    &&& *final(hit_prefill) == *old(hit_prefill)
                })
                &&& (!res.0 ==> {
                    &&& res.1@ == members@
                    &&& *final(batch_stats) == *old(batch_stats)
                    &&& *final(prefill_stats) == *old(prefill_stats)
                    &&& (*final(hit_prefill) == *old(hit_prefill) || *final(hit_prefill))
                    &&& scan_rejected::<B>(self.spec_config(), opt_shapes(*existing), pick, cand)
                })
                &&& (*final(tree_built) ==> final(tree).wf() && final(tree).shapes@.to_multiset()
                    == res.1@.to_multiset())
                &&& (*old(tree_built) ==> *final(tree_built))
                &&& ((members@.len() == 0 && B::spec_weight(seq![cand])
                    <= self.spec_config().weight_limit as int && (self.spec_config().prefill_weight_limit
                    > 0 ==> B::spec_prefill_weight(seq![cand]) <= self.spec_config().prefill_weight_limit as int))
                    ==> res.0)
            }),
    {
        let ghost q = self.queue();
        let wlimit: u128 = self.config.weight_limit as u128;
        let plimit_raw = self.config.prefill_weight_limit;
        let plimit: u128 = plimit_raw as u128;
        let pair_id = self.entries[i].0;
        let e = &self.entries[i].1;
        let input_len: u64 = e.request.truncate as u64;
        let output_len: u64 = e.request.stopping_parameters.max_new_tokens as u64;
        let ghost cand = q[i as int].1.shape(q[i as int].0);
        proof {
            assert(cand.wf());
            assert(cand.rem() == output_len && cand.cur() == input_len && cand.id == pair_id);
            // The candidate's id is fresh among the members.
            assert forall|a: int| 0 <= a < members@.len() implies (#[trigger] members@[a]).id
                != cand.id by {
                let exn = opt_shapes(*existing).len() as int;
                if a < exn {
                    match existing {
                        Some(m) => {
                            assert(members@[a] == m.items@[a].1.shape(m.items@[a].0));
                            assert(m.contains_id(m.items@[a].0));
                            assert(self.queue_contains_id(q[i as int].0));
                        },
                        None => {},
                    }
                } else {
                    let x = a - exn;
                    assert(members@[a] == picked_shapes(q, chosen@)[x]);
                    assert(chosen@[x] < i);
                    assert(q[chosen@[x] as int].0 < q[i as int].0);
                }
            }
        }
        let next_stats = B::update_stats(
            batch_stats,
            input_len,
            output_len,
            members,
            Ghost(cand),
        );
        let w = B::batch_weight(&next_stats, total_count + 1, Ghost(members@.push(cand)));
        let cheap_ok = w <= wlimit;
        if !cheap_ok {
            if !*tree_built {
                *tree = self.build_tree(existing, chosen, members);
                *tree_built = true;
            }
            proof {
                lemma_shape_ids_transfer(tree.shapes@, members@, cand.id);
                tree.shapes@.to_multiset_ensures();
                members@.to_multiset_ensures();
            }
            let ghost pre_tree = tree.shapes@;
            let at1 = tree.insert(output_len, input_len, pair_id, Ghost(cand));
            proof {
                lemma_seq_insert_to_multiset(pre_tree, at1@, cand);
            }
            let exceeds = B::exceeds_weight(tree, wlimit, output_len);
            if exceeds {
                let ghost mid_tree = tree.shapes@;
                proof {
                    assert((#[trigger] tree.shapes@[at1@]).rem() == output_len && tree.shapes@[
                        at1@
                    ].cur() == input_len && tree.shapes@[at1@].id == pair_id);
                }
                let at2 = tree.remove(output_len, input_len, pair_id);
                proof {
                    // Only the candidate carries this id, so the record
                    // removed is the one just inserted.
                    assert(at2@ == at1@) by {
                        if at2@ < at1@ {
                            assert(mid_tree[at2@] == pre_tree[at2@]);
                        } else if at2@ > at1@ {
                            assert(mid_tree[at2@] == pre_tree[at2@ - 1]);
                        }
                    }
                    assert(tree.shapes@ =~= pre_tree);
                    if members@.len() == 0 {
                        assert(members@.push(cand) =~= seq![cand]);
                    }
                    // The fine-grained analysis named a real over-budget
                    // boundary within the candidate's lifetime.
                    let msp = members@.push(cand);
                    assert((opt_shapes(*existing) + picked_shapes(q, chosen@)).push(cand) =~= msp);
                    let gw = choose|g: int|
                        0 <= g <= output_len && is_boundary(mid_tree, g) && B::step_weight(
                            alive_n(mid_tree, g),
                            alive_sum(mid_tree, g),
                            alive_max(mid_tree, g),
                            g,
                        ) > wlimit;
                    mid_tree.to_multiset_ensures();
                    msp.to_multiset_ensures();
                    lemma_step_at_multiset::<B>(mid_tree, msp, gw);
                    assert(is_boundary(msp, gw) && step_at::<B>(msp, gw)
                        > self.spec_config().weight_limit as int);
                    assert(scan_rejected::<B>(
                        self.spec_config(),
                        opt_shapes(*existing),
                        picked_shapes(q, chosen@),
                        cand,
                    ));
                }
                return (false, members);
            }
        } else {
            if *tree_built {
                proof {
                    lemma_shape_ids_transfer(tree.shapes@, members@, cand.id);
                    tree.shapes@.to_multiset_ensures();
                    members@.to_multiset_ensures();
                }
                let ghost pre_tree = tree.shapes@;
                let at1 = tree.insert(output_len, input_len, pair_id, Ghost(cand));
                proof {
                    lemma_seq_insert_to_multiset(pre_tree, at1@, cand);
                }
            }
        }
        // The combined weight fits; check the prefill cost of the new
        // sub-batch.
        if plimit_raw > 0 {
            let ghost pick = picked_shapes(q, chosen@);
            proof {
                assert(shapes_wf(pick)) by {
                    assert(forall|x: int|
                        0 <= x < pick.len() ==> #[trigger] pick[x] == members@[opt_shapes(
                            *existing,
                        ).len() + x]);
                }
            }
            let next_prefill = B::update_prefill_stats(
                prefill_stats,
                input_len,
                Ghost(pick),
                Ghost(cand),
            );
            let pw = B::prefill_weight(&next_prefill, chosen.len() + 1, Ghost(pick.push(cand)));
            if pw > plimit {
                if *tree_built {
                    let ghost pre2 = tree.shapes@;
                    proof {
                        members@.push(cand).to_multiset_ensures();
                        tree.shapes@.to_multiset_ensures();
                        assert(exists|k: int|
                            0 <= k < tree.shapes@.len() && (#[trigger] tree.shapes@[k]).rem()
                                == output_len && tree.shapes@[k].cur() == input_len
                                && tree.shapes@[k].id == pair_id) by {
                            assert(tree.shapes@.to_multiset().count(cand) > 0) by {
                                assert(members@.push(cand)[members@.len() as int] == cand);
                                assert(members@.push(cand).contains(cand));
                            }
                            assert(tree.shapes@.contains(cand));
                            let k = choose|k: int|
                                0 <= k < tree.shapes@.len() && tree.shapes@[k] == cand;
                            assert((#[trigger] tree.shapes@[k]).rem() == output_len);
                        }
                    }
                    let at3 = tree.remove(output_len, input_len, pair_id);
                    proof {
                        // Ids are unique in the tree, so exactly the
                        // candidate's record left.
                        broadcast use vstd::seq_lib::group_to_multiset_ensures;

                        assert(pre2[at3@] == cand) by {
                            assert(pre2.contains(pre2[at3@]));
                            assert(members@.push(cand).to_multiset().count(pre2[at3@]) > 0);
                            assert(members@.push(cand).contains(pre2[at3@]));
                            let y = choose|y: int|
                                0 <= y < members@.push(cand).len() && members@.push(cand)[y]
                                    == pre2[at3@];
                            if y < members@.len() {
                                assert(members@[y].id == cand.id);
                            }
                        }
                        assert(tree.shapes@.to_multiset() =~= members@.to_multiset()) by {
                            assert(pre2.remove(at3@).to_multiset() == pre2.to_multiset().remove(
                                cand,
                            ));
                            assert(members@.push(cand).to_multiset()
                                == members@.to_multiset().insert(cand));
                        }
                    }
                }
                *hit_prefill = true;
                proof {
                    if members@.len() == 0 {
                        assert(pick.len() == 0);
                        assert(pick.push(cand) =~= seq![cand]);
                        assert(members@.push(cand) =~= seq![cand]);
                    }
                    assert(scan_rejected::<B>(
                        self.spec_config(),
                        opt_shapes(*existing),
                        picked_shapes(q, chosen@),
                        cand,
                    ));
                }
                return (false, members);
            }
            *prefill_stats = next_prefill;
        }
        *batch_stats = next_stats;
        proof {
            assert(B::exact(members@.push(cand)) ==> B::exact(members@)) by {
                if B::exact(members@.push(cand)) {
                    assert(members@.push(cand).remove(members@.len() as int) =~= members@);
                    B::lemma_exact_remove(members@.push(cand), members@.len() as int);
                }
            }
            lemma_admit_ok::<B>(
                members@,
                cand,
                tree.shapes@,
                self.spec_config().weight_limit as int,
                cheap_ok,
            );
        }
        (true, Ghost(members@.push(cand)))
    }


    /// Pull the selected entries out of the queue as a fresh batch, stamping
    /// their start time, and discard the dropped ones.
    #[verifier::rlimit(100)]
    fn emit_batch(
        &mut self,
        existing: &Option<EntryMap>,
        drops: &Vec<usize>,
        chosen: &Vec<usize>,
        now: u64,
        members: Ghost<Seq<Shape>>,
        i_end: Ghost<int>,
        scan_from: Ghost<int>,
    ) -> (res: (NextBatch, Ghost<Seq<int>>))
        requires
            old(self).wf(),
            old(self).spec_next_batch_id() < u64::MAX,
            strict_incr(drops@),
            strict_incr(chosen@),
            forall|x: int, y: int|
                0 <= x < drops@.len() && 0 <= y < chosen@.len() ==> (#[trigger] drops@[x]) != (
                #[trigger] chosen@[y]),
            forall|x: int| 0 <= x < drops@.len() ==> scan_from@ <= #[trigger] drops@[x] < i_end@,
            forall|x: int| 0 <= x < chosen@.len() ==> scan_from@ <= #[trigger] chosen@[x] < i_end@,
            0 <= scan_from@ <= i_end@,
            i_end@ <= old(self).queue().len(),
            1 <= chosen@.len() <= u32::MAX,
            match existing {
                Some(m) => m.wf() && opt_shapes(*existing) == m.shapes() && (forall|id: u64|
                    m.contains_id(id) ==> !old(self).queue_contains_id(id)),
                None => true,
            },
            forall|x: int, k: int|
                0 <= x < chosen@.len() && scan_from@ <= k < i_end@ && !in_idx(chosen@, k)
                    && !in_idx(drops@, k) ==> old(self).queue()[#[trigger] chosen@[x] as int].1.queue_time
                    <= (#[trigger] old(self).queue()[k]).1.queue_time + CUTOFF_DURATION_MS,
        ensures
            final(self).wf(),
            final(self).spec_config() == old(self).spec_config(),
            final(self).spec_next_id() == old(self).spec_next_id(),
            final(self).spec_clock() == old(self).spec_clock(),
            final(self).spec_next_batch_id() == old(self).spec_next_batch_id() + 1,
            res.0.batch.id == old(self).spec_next_batch_id(),
            res.0.entries.wf(),
            res.0.entries.items@.len() == chosen@.len(),
            res.0.batch.size == chosen@.len(),
            res.0.batch.requests@.len() == chosen@.len(),
            forall|x: int|
                0 <= x < chosen@.len() ==> request_matches(
                    #[trigger] res.0.batch.requests@[x],
                    res.0.entries.items@[x].0,
                    res.0.entries.items@[x].1,
                ),
            forall|x: int|
                0 <= x < chosen@.len() ==> (#[trigger] res.0.entries.items@[x]).0 == old(
                    self,
                ).queue()[chosen@[x] as int].0 && res.0.entries.items@[x].1 == stamped(
                    old(self).queue()[chosen@[x] as int].1,
                    now,
                ),
            res.0.entries.shapes() == picked_shapes(old(self).queue(), chosen@),
            forall|x: int, y: int|
                0 <= x < y < chosen@.len() ==> (#[trigger] res.0.entries.items@[x]).0 < (
                #[trigger] res.0.entries.items@[y]).0,
            final(self).queue().len() + drops@.len() + chosen@.len() == old(self).queue().len(),
            res.1@.len() == final(self).queue().len(),
            forall|j1: int, j2: int| 0 <= j1 < j2 < res.1@.len() ==> #[trigger] res.1@[j1]
                < #[trigger] res.1@[j2],
            forall|j: int|
                0 <= j < final(self).queue().len() ==> 0 <= #[trigger] res.1@[j] < old(
                    self,
                ).queue().len() && final(self).queue()[j] == old(self).queue()[res.1@[j]]
                    && !in_idx(drops@, res.1@[j]) && !in_idx(chosen@, res.1@[j]),
            forall|x: int|
                0 <= x < chosen@.len() ==> !final(self).queue_contains_id(
                    (#[trigger] res.0.entries.items@[x]).0,
                ) && match existing {
                    Some(m) => !m.contains_id(res.0.entries.items@[x].0),
                    None => true,
                },
            scan_from@ == 0 ==> forall|x: int, j: int|
                0 <= x < chosen@.len() && 0 <= j < final(self).queue().len() && (
                #[trigger] final(self).queue()[j]).0 < (#[trigger] res.0.entries.items@[x]).0
                    ==> res.0.entries.items@[x].1.queue_time <= final(self).queue()[j].1.queue_time
                    + CUTOFF_DURATION_MS,
            drops@.len() + chosen@.len() <= i_end@,
            !final(self).buffer_contents_insufficient,
            forall|i: int|
                #![trigger old(self).queue()[i]]
                i_end@ <= i < old(self).queue().len() ==> i - (drops@.len() + chosen@.len()) >= 0
                    && final(self).queue()[i - (drops@.len() + chosen@.len())] == old(
                    self,
                ).queue()[i],
    {
        let ghost q = self.queue();
        let ghost final_chosen = chosen@;
        let ghost final_drops = drops@;
        let (picked, omap) = self.rebuild(drops, chosen, now, i_end);
        self.buffer_contents_insufficient = false;
        self.checked_request_count = 0;
        let batch_id = self.next_batch_id;
        self.next_batch_id = self.next_batch_id + 1;

        let mut requests: Vec<Request> = Vec::new();
        let m = picked.len();
        let mut x: usize = 0;
        while x < m
            invariant
                0 <= x <= m,
                m == picked@.len(),
                requests@.len() == x,
                forall|y: int|
                    0 <= y < x ==> request_matches(
                        #[trigger] requests@[y],
                        picked@[y].0,
                        picked@[y].1,
                    ),
            decreases m - x,
        {
            let p = &picked[x];
            let req = Request {
                id: p.0,
                inputs: p.1.request.inputs.clone(),
                truncate: p.1.request.truncate,
                parameters: p.1.request.parameters,
                stopping_parameters: duplicate_stopping(&p.1.request.stopping_parameters),
            };
            requests.push(req);
            x = x + 1;
        }

        let size = picked.len() as u32;
        proof {
            // The picked entries keep their distinct queue ids and stay
            // well-formed under the start-time stamp.
            assert forall|a: int| 0 <= a < picked@.len() implies (#[trigger] picked@[a]).1.wf()
                && picked@[a].1.batch_time == Some(now) by {
                assert(picked@[a].1 == stamped(q[final_chosen[a] as int].1, now));
            }
            assert forall|a: int, b: int| 0 <= a < b < picked@.len() implies (
            #[trigger] picked@[a]).0 < (#[trigger] picked@[b]).0 by {
                assert(picked@[a].0 == q[final_chosen[a] as int].0);
                assert(picked@[b].0 == q[final_chosen[b] as int].0);
                assert(final_chosen[a] < final_chosen[b]);
            }
        }
        let batch_entries = EntryMap { items: picked };
        let nb = NextBatch {
            entries: batch_entries,
            batch: Batch { id: batch_id, requests, size },
        };
        proof {
            let nsh = nb.entries.shapes();
            let psh = picked_shapes(q, final_chosen);
            assert(nsh =~= psh) by {
                assert forall|a: int| 0 <= a < nsh.len() implies nsh[a] == psh[a] by {
                    assert(nb.entries.items@[a].1 == stamped(q[final_chosen[a] as int].1, now));
                    assert(nb.entries.items@[a].0 == q[final_chosen[a] as int].0);
                }
            }
            // Every selected entry left the queue and was never in the
            // running batch.
            assert forall|a: int| 0 <= a < nb.entries.items@.len() implies !self.queue_contains_id(
                (#[trigger] nb.entries.items@[a]).0,
            ) && match existing {
                Some(m) => !m.contains_id(nb.entries.items@[a].0),
                None => true,
            } by {
                let ida = nb.entries.items@[a].0;
                assert(ida == q[final_chosen[a] as int].0);
                if self.queue_contains_id(ida) {
                    let jj = choose|jj: int|
                        0 <= jj < self.entries@.len() && (#[trigger] self.entries@[jj]).0 == ida;
                    let oj = omap@[jj];
                    assert(q[oj].0 == ida);
                    assert(oj != final_chosen[a]);
                    assert(q[oj].0 != q[final_chosen[a] as int].0);
                }
                match existing {
                    Some(m) => {
                        if m.contains_id(ida) {
                            assert(old(self).queue()[final_chosen[a] as int].0 == ida);
                            assert(old(self).queue_contains_id(ida));
                        }
                    },
                    None => {},
                }
            }
            // The cutoff rule: an admitted entry overtakes only entries that
            // arrived at most the cutoff window before it.
            if scan_from@ == 0 {
                assert forall|a: int, j: int|
                    0 <= a < nb.entries.items@.len() && 0 <= j < self.entries@.len() && (
                #[trigger] self.entries@[j]).0 < (#[trigger] nb.entries.items@[a]).0 implies
                nb.entries.items@[a].1.queue_time <= self.entries@[j].1.queue_time
                    + CUTOFF_DURATION_MS by {
                    let oj = omap@[j];
                    let jc = final_chosen[a] as int;
                    assert(q[oj].0 < q[jc].0);
                    assert(oj < jc) by {
                        if oj > jc {
                            assert(q[jc].0 < q[oj].0);
                        }
                    }
                    assert(jc < i_end@);
                    assert(!in_idx(final_chosen, oj) && !in_idx(final_drops, oj));
                    assert(q[jc].1.queue_time <= q[oj].1.queue_time + CUTOFF_DURATION_MS);
                    assert(nb.entries.items@[a].1.queue_time == q[jc].1.queue_time);
                }
            }
        }
        (nb, omap)
    }

    /// Assemble the next batch from the waiting queue.
    ///
    /// The running batch, if any, is handed back untouched.  A new batch is
    /// selected under the configured size, weight and prefill budgets:
    /// members are taken in arrival order, a candidate that would let the
    /// combined batch outgrow the weight budget at *some* future decode step
    /// is skipped, and only requests that arrived within the cutoff window
    /// of a skipped one may overtake it.  Cancelled entries are discarded
    /// along the way.
    #[verifier::rlimit(100)]
    pub fn next_batch(&mut self, existing_entries_opt: Option<EntryMap>, now: u64) -> (r: (
        Option<EntryMap>,
        Option<NextBatch>,
        Ghost<(Seq<int>, Seq<int>, int)>,
    ))
        requires
            old(self).wf(),
            now >= old(self).spec_clock(),
            now + CUTOFF_DURATION_MS <= u64::MAX,
            old(self).spec_next_batch_id() < u64::MAX,
            match existing_entries_opt {
                Some(m) => m.wf() && (forall|id: u64|
                    m.contains_id(id) ==> !old(self).queue_contains_id(id)) && (B::exact(m.shapes())
                    ==> ok_all::<B>(m.shapes(), old(self).spec_config().weight_limit as int)),
                None => true,
            },
        ensures
            final(self).wf(),
            final(self).spec_config() == old(self).spec_config(),
            final(self).spec_next_id() == old(self).spec_next_id(),
            final(self).spec_clock() == now,
            r.0 == existing_entries_opt,
            r.2@.0.len() == final(self).queue().len(),
            forall|j1: int, j2: int| 0 <= j1 < j2 < r.2@.0.len() ==> #[trigger] r.2@.0[j1]
                < #[trigger] r.2@.0[j2],
            forall|j: int|
                0 <= j < final(self).queue().len() ==> 0 <= #[trigger] r.2@.0[j] < old(
                    self,
                ).queue().len() && final(self).queue()[j] == old(self).queue()[r.2@.0[j]],
            r.2@.1.len() == match r.1 {
                Some(nb) => nb.entries.items@.len() as int,
                None => 0int,
            },
            forall|x1: int, x2: int| 0 <= x1 < x2 < r.2@.1.len() ==> #[trigger] r.2@.1[x1]
                < #[trigger] r.2@.1[x2],
            match r.1 {
                Some(nb) => forall|x: int|
                    0 <= x < nb.entries.items@.len() ==> 0 <= #[trigger] r.2@.1[x] < old(
                        self,
                    ).queue().len() && nb.entries.items@[x].0 == old(self).queue()[r.2@.1[x]].0
                        && nb.entries.items@[x].1 == stamped(
                        old(self).queue()[r.2@.1[x]].1,
                        now,
                    ),
                None => true,
            },
            forall|a: int, b: int|
                0 <= a < r.2@.0.len() && 0 <= b < r.2@.1.len() ==> (#[trigger] r.2@.0[a]) != (
                #[trigger] r.2@.1[b]),
            r.1 is None ==> final(self).spec_next_batch_id() == old(self).spec_next_batch_id(),
            match existing_entries_opt {
                Some(m) => m.items@.len() >= old(self).spec_config().size_limit
                    ==> (final(self).queue() == old(self).queue() && r.1 is None),
                None => true,
            },
            0 <= r.2@.2 <= old(self).queue().len(),
            old(self).queue().len() - final(self).queue().len() <= r.2@.2,
            forall|i: int|
                #![trigger old(self).queue()[i]]
                r.2@.2 <= i < old(self).queue().len() ==> final(self).queue()[i - (old(
                    self,
                ).queue().len() - final(self).queue().len())] == old(self).queue()[i],
            r.1 is Some ==> !final(self).spec_buffer_insufficient(),
            final(self).spec_buffer_insufficient() && !old(self).spec_buffer_insufficient()
                ==> r.1 is None && existing_entries_opt is Some,
            match existing_entries_opt {
                Some(m) => (0 < m.items@.len() < old(self).spec_config().size_limit && old(
                    self,
                ).spec_buffer_insufficient() && (old(self).queue().len() == 0 || now - old(
                    self,
                ).queue()[0].1.queue_time <= MAX_WAITING_DURATION_MS)) ==> (r.1 is None
                    && final(self).spec_buffer_insufficient()),
                None => true,
            },
            (old(self).cursor() == 0 && (r.1 is Some || !final(self).spec_buffer_insufficient()))
                ==> forall|j: int|
                #![trigger r.2@.0[j]]
                0 <= j < r.2@.0.len() && r.2@.0[j] < r.2@.2 ==> scan_rejected::<B>(
                    old(self).spec_config(),
                    opt_shapes(existing_entries_opt),
                    picked_shapes_src(
                        old(self).queue(),
                        r.2@.1.take(src_below(r.2@.1, r.2@.0[j])),
                    ),
                    old(self).queue()[r.2@.0[j]].1.shape(old(self).queue()[r.2@.0[j]].0),
                ),
            match r.1 {
                None => true,
                Some(nb) => {
                    &&& nb.batch.id == old(self).spec_next_batch_id()
                    &&& final(self).spec_next_batch_id() == old(self).spec_next_batch_id() + 1
                    &&& nb.entries.wf()
                    &&& 1 <= nb.entries.items@.len()
                    &&& nb.entries.items@.len() + opt_shapes(existing_entries_opt).len() <= old(
                        self,
                    ).spec_config().size_limit
                    &&& nb.batch.size == nb.entries.items@.len()
                    &&& nb.batch.requests@.len() == nb.entries.items@.len()
                    &&& forall|x: int|
                        0 <= x < nb.entries.items@.len() ==> request_matches(
                            #[trigger] nb.batch.requests@[x],
                            nb.entries.items@[x].0,
                            nb.entries.items@[x].1,
                        )
                    &&& forall|x: int|
                        0 <= x < nb.entries.items@.len() ==> (#[trigger] nb.entries.items@[
                            x
                        ]).1.batch_time == Some(now)
                    &&& forall|x: int|
                        0 <= x < nb.entries.items@.len() ==> !final(self).queue_contains_id(
                            (#[trigger] nb.entries.items@[x]).0,
                        ) && match existing_entries_opt {
                            Some(m) => !m.contains_id(nb.entries.items@[x].0),
                            None => true,
                        }
                    &&& (old(self).spec_config().prefill_weight_limit > 0
                        ==> B::spec_prefill_weight(nb.entries.shapes()) <= old(
                        self,
                    ).spec_config().prefill_weight_limit as int)
                    &&& (B::exact(opt_shapes(existing_entries_opt) + nb.entries.shapes())
                        ==> ok_all::<B>(
                        opt_shapes(existing_entries_opt) + nb.entries.shapes(),
                        old(self).spec_config().weight_limit as int,
                    ))
                    &&& (old(self).cursor() == 0 ==> forall|x: int, j: int|
                        0 <= x < nb.entries.items@.len() && 0 <= j < final(self).queue().len()
                            && (#[trigger] final(self).queue()[j]).0 < (
                        #[trigger] nb.entries.items@[x]).0 ==> nb.entries.items@[x].1.queue_time
                            <= final(self).queue()[j].1.queue_time + CUTOFF_DURATION_MS)
                },
            },
            (old(self).cursor() == 0 && existing_entries_opt is None && old(self).queue().len() > 0
                && singleton_fits::<B>(
                old(self).spec_config(),
                old(self).queue()[0].1.shape(old(self).queue()[0].0),
            )) ==> (r.1 is Some || final(self).queue().len() < old(self).queue().len()),
    {
        proof {
            self.clock@ = now;
        }
        let size_limit = self.config.size_limit;
        let wlimit: u128 = self.config.weight_limit as u128;
        let plimit_raw = self.config.prefill_weight_limit;
        let plimit: u128 = plimit_raw as u128;
        let ghost exsh = opt_shapes(existing_entries_opt);

        let total0 = match &existing_entries_opt {
            Some(m) => m.len(),
            None => 0,
        };
        if total0 >= size_limit {
            // Already at the size cap: nothing can be added.
            let ghost kept = Seq::new(self.queue().len(), |j: int| j);
            proof {
                assert(self.queue() == old(self).queue());
                assert forall|j: int| 0 <= j < kept.len() implies 0 <= #[trigger] kept[j] < old(
                    self,
                ).queue().len() && self.queue()[j] == old(self).queue()[kept[j]] by {
                    assert(kept[j] == j);
                    assert(self.queue()[j] == old(self).queue()[j]);
                }
                assert forall|i: int|
                    #![trigger old(self).queue()[i]]
                    0 <= i < old(self).queue().len() implies self.queue()[i - (old(
                        self,
                    ).queue().len() - self.queue().len())] == old(self).queue()[i] by {
                    assert(self.queue()[i] == old(self).queue()[i]);
                }
            }
            return (existing_entries_opt, None, Ghost((kept, Seq::empty(), 0int)));
        }
        if total0 != self.last_seen_batch_size {
            // Members completed since the last call: rescan from the head.
            self.checked_request_count = 0;
            self.last_seen_batch_size = total0;
        }
        let ghost pre_prune = *self;
        let d = self.prune_front();
        let ghost q = self.entries@;
        let n = self.entries.len();
        proof {
            assert forall|ii: int| 0 <= ii < self.queue().len() implies old(
                self,
            ).queue().contains(#[trigger] self.queue()[ii]) by {
                assert(old(self).queue()[d@ + ii] == self.queue()[ii]);
            }
        }

        let ghost short_circuit = match &existing_entries_opt {
            Some(m) => 0 < m.items@.len() < old(self).spec_config().size_limit && old(
                self,
            ).spec_buffer_insufficient() && (old(self).queue().len() == 0 || now - old(
                self,
            ).queue()[0].1.queue_time <= MAX_WAITING_DURATION_MS),
            None => false,
        };
        let cursor0 = self.checked_request_count;
        if total0 > 0 {
            if n <= cursor0 || (self.buffer_contents_insufficient && !self.next_entry_waiting_too_long(now)) {
                // Nothing new to look at, or the backlog was already found
                // too small and its head is still fresh.
                let ghost kept = Seq::new(self.queue().len(), |j: int| d@ + j);
                proof {
                    assert forall|j: int| 0 <= j < kept.len() implies 0 <= #[trigger] kept[j]
                        < old(self).queue().len() && self.queue()[j] == old(self).queue()[
                    kept[j]] by {
                        assert(kept[j] == d@ + j);
                        assert(self.queue()[j] == old(self).queue()[d@ + j]);
                    }
                    assert forall|i: int|
                        #![trigger old(self).queue()[i]]
                        d@ <= i < old(self).queue().len() implies self.queue()[i - (old(
                            self,
                        ).queue().len() - self.queue().len())] == old(self).queue()[i] by {
                        assert(self.queue()[i - d@] == old(self).queue()[i]);
                    }
                }
                return (existing_entries_opt, None, Ghost((kept, Seq::empty(), d@)));
            }
            proof {
                // Past the short-circuit: a flagged state with a fresh head
                // cannot reach here.
                if short_circuit {
                    assert(old(self).queue().len() > 0);
                    assert(n > 0);
                    assert(self.queue()[0] == old(self).queue()[d@]);
                    assert(old(self).queue()[0].1.queue_time <= old(
                        self,
                    ).queue()[d@].1.queue_time);
                    assert(false);
                }
            }
        }

        let (mut batch_stats, ghost_ex) = match &existing_entries_opt {
            Some(m) => compute_stats::<B>(m),
            None => (B::default_stats(), Ghost(Seq::empty())),
        };
        proof {
            assert(ghost_ex@ == exsh);
        }
        let mut prefill_stats = B::default_stats();
        let ghost exn = exsh.len() as int;

        let mut chosen: Vec<usize> = Vec::new();
        let mut drops: Vec<usize> = Vec::new();
        let mut tree: ProjTree = ProjTree::new();
        let mut tree_built = false;
        let ghost mut pre_g: Seq<Shape> = Seq::empty();
        let ghost mut at_g: int = 0;
        let mut time_cutoff: Option<u64> = None;
        let ghost mut cut_src: int = 0;
        let mut hit_prefill_weight_limit = false;
        let mut total_count = total0;
        let ghost mut members: Seq<Shape> = exsh;
        let mut checked_up_to = cursor0;
        let mut i = cursor0;
        let mut done = false;

        let ghost s0 = *self;
        let ghost p6 = d@ == 0 && pre_prune.checked_request_count == 0 && total0 == 0 && q.len()
            > 0 && singleton_fits::<B>(self.config, q[0].1.shape(q[0].0));

        proof {
            assert(members =~= exsh + picked_shapes(q, chosen@));
            assert(picked_shapes(q, chosen@) =~= Seq::<Shape>::empty());
            B::lemma_prefill_empty();
            if existing_entries_opt is Some {
                let m = existing_entries_opt->Some_0;
                lemma_entry_map_shapes_wf(&m);
                assert forall|a: int, b: int|
                    0 <= a < members.len() && 0 <= b < members.len() && a != b implies (
                #[trigger] members[a]).id != (#[trigger] members[b]).id by {
                    assert(members[a] == m.items@[a].1.shape(m.items@[a].0));
                    assert(members[b] == m.items@[b].1.shape(m.items@[b].0));
                }
                assert(B::exact(members) ==> ok_all::<B>(members, wlimit as int));
            } else {
                assert(members =~= Seq::<Shape>::empty());
                assert(B::exact(members) ==> ok_all::<B>(members, wlimit as int)) by {
                    assert forall|g: int| 0 <= g implies step_at::<B>(members, g)
                        <= wlimit as int by {
                        B::lemma_step_mono(0, 0, 0, g, g);
                    }
                }
            }
        }

        while i < n && !done
            invariant
                cursor0 <= i <= n,
                n == q.len(),
                *self == s0,
                q == self.entries@,
                self.wf(),
                self.config == s0.config,
                self.config.wf(),
                size_limit == self.config.size_limit,
                wlimit == self.config.weight_limit as u128,
                plimit_raw == self.config.prefill_weight_limit,
                plimit == plimit_raw as u128,
                now >= self.clock@,
                now + CUTOFF_DURATION_MS <= u64::MAX,
                cursor0 == self.checked_request_count,
                match existing_entries_opt {
                    Some(m) => m.wf() && exsh == m.shapes() && total0 == m.items@.len() && (forall|
                        id: u64,
                    |
                        m.contains_id(id) ==> !self.queue_contains_id(id)),
                    None => total0 == 0 && exsh == Seq::<Shape>::empty(),
                },
                exn == exsh.len(),
                strict_incr(chosen@),
                strict_incr(drops@),
                forall|x: int| 0 <= x < chosen@.len() ==> cursor0 <= #[trigger] chosen@[x] < i,
                forall|x: int| 0 <= x < drops@.len() ==> cursor0 <= #[trigger] drops@[x] < i,
                forall|x: int, y: int|
                    0 <= x < drops@.len() && 0 <= y < chosen@.len() ==> (#[trigger] drops@[x]) != (
                    #[trigger] chosen@[y]),
                total_count == total0 + chosen@.len(),
                !done ==> total_count < size_limit,
                total_count <= size_limit,
                members == exsh + picked_shapes(q, chosen@),
                members.len() == total_count,
                shapes_wf(members),
                forall|a: int, b: int|
                    0 <= a < members.len() && 0 <= b < members.len() && a != b ==> (
                    #[trigger] members[a]).id != (#[trigger] members[b]).id,
                B::is_stats(batch_stats, members),
                plimit_raw > 0 ==> B::is_prefill_stats(prefill_stats, picked_shapes(q, chosen@)),
                B::exact(members) ==> ok_all::<B>(members, wlimit as int),
                plimit_raw > 0 ==> B::spec_prefill_weight(picked_shapes(q, chosen@))
                    <= plimit as int,
                tree_built ==> tree.wf() && tree.shapes@.to_multiset() == members.to_multiset(),
                checked_up_to + drops@.len() == i,
                match time_cutoff {
                    None => forall|k: int|
                        cursor0 <= k < i ==> in_idx(chosen@, k) || in_idx(drops@, k),
                    Some(t) => {
                        &&& cursor0 <= cut_src < i
                        &&& t == q[cut_src].1.queue_time + CUTOFF_DURATION_MS
                        &&& forall|k: int|
                            cursor0 <= k < i && !in_idx(chosen@, k) && !in_idx(drops@, k) ==> t
                                <= (#[trigger] q[k]).1.queue_time + CUTOFF_DURATION_MS
                    },
                },
                forall|x: int, k: int|
                    0 <= x < chosen@.len() && cursor0 <= k < i && !in_idx(chosen@, k) && !in_idx(
                        drops@,
                        k,
                    ) ==> q[#[trigger] chosen@[x]as int].1.queue_time <= (
                    #[trigger] q[k]).1.queue_time + CUTOFF_DURATION_MS,
                forall|k: int|
                    #![trigger q[k].1]
                    cursor0 <= k < i && !in_idx(chosen@, k) && !in_idx(drops@, k)
                        ==> scan_rejected::<B>(
                        self.spec_config(),
                        exsh,
                        picked_shapes(q, chosen@.take(idx_below(chosen@, k))),
                        q[k].1.shape(q[k].0),
                    ),
                p6 ==> (i == cursor0 || in_idx(drops@, 0) || in_idx(chosen@, 0)),
                done ==> i > cursor0,
                p6 ==> cursor0 == 0 && total0 == 0 && q.len() > 0 && singleton_fits::<B>(
                    self.config,
                    q[0].1.shape(q[0].0),
                ),
            decreases n - i + (if done {
                0int
            } else {
                1int
            }),
        {
            let qt_i = self.entries[i].1.queue_time;
            let cut = match time_cutoff {
                Some(t) => qt_i > t,
                None => false,
            };
            if cut {
                done = true;
            } else {
                let pair_id = self.entries[i].0;
                if self.entries[i].1.response_tx.is_disconnected() {
                    let ghost old_drops = drops@;
                    drops.push(i);
                    proof {
                        lemma_in_idx_push(old_drops, i);
                        assert(in_idx(drops@, i as int));
                    }
                    i = i + 1;
                } else {
                    let ghost cand = q[i as int].1.shape(q[i as int].0);
                    let (acc, new_members) = self.consider_candidate(
                        &existing_entries_opt,
                        &chosen,
                        i,
                        &mut batch_stats,
                        &mut prefill_stats,
                        &mut tree,
                        &mut tree_built,
                        &mut hit_prefill_weight_limit,
                        total_count,
                        Ghost(members),
                    );
                    if acc {
                        let ghost old_chosen = chosen@;
                        let ghost old_members = members;
                        chosen.push(i);
                        proof {
                            lemma_in_idx_push(old_chosen, i);
                            assert(in_idx(chosen@, i as int));
                            members = new_members@;
                            assert(picked_shapes(q, chosen@) =~= picked_shapes(
                                q,
                                old_chosen,
                            ).push(cand));
                            assert(members =~= exsh + picked_shapes(q, chosen@));
                            assert(cand.wf());
                            assert forall|a: int| 0 <= a < old_members.len() implies (
                            #[trigger] old_members[a]).id != cand.id by {
                                if a < exn {
                                    match existing_entries_opt {
                                        Some(m) => {
                                            assert(old_members[a] == m.items@[a].1.shape(
                                                m.items@[a].0,
                                            ));
                                            assert(m.contains_id(m.items@[a].0));
                                            assert(self.queue_contains_id(q[i as int].0));
                                        },
                                        None => {},
                                    }
                                } else {
                                    let x = a - exn;
                                    assert(old_members[a] == picked_shapes(q, old_chosen)[x]);
                                    assert(old_chosen[x] < i);
                                    assert(q[old_chosen[x] as int].0 < q[i as int].0);
                                }
                            }
                            assert(shapes_wf(members)) by {
                                assert(forall|k: int|
                                    0 <= k < old_members.len() ==> members[k]
                                        == #[trigger] old_members[k]);
                                assert(members[old_members.len() as int] == cand);
                            }
                            assert forall|a: int, b: int|
                                0 <= a < members.len() && 0 <= b < members.len() && a
                                    != b implies (#[trigger] members[a]).id != (
                            #[trigger] members[b]).id by {
                                if a < old_members.len() && b < old_members.len() {
                                    assert(members[a] == old_members[a]);
                                    assert(members[b] == old_members[b]);
                                } else if a < old_members.len() {
                                    assert(members[b] == cand && members[a] == old_members[a]);
                                } else {
                                    assert(members[a] == cand && members[b] == old_members[b]);
                                }
                            }
                        }
                        total_count = total_count + 1;
                        if total_count >= size_limit {
                            done = true;
                        }
                        checked_up_to = checked_up_to + 1;
                        i = i + 1;
                        proof {
                            if time_cutoff is Some {
                                assert(q[i - 1].1.queue_time <= time_cutoff->Some_0);
                            }
                            // Earlier rejections were judged against a prefix
                            // of the chosen list, which appending preserves.
                            assert forall|k: int|
                                #![trigger q[k].1]
                                cursor0 <= k < i && !in_idx(chosen@, k) && !in_idx(drops@, k)
                                    implies scan_rejected::<B>(
                                self.spec_config(),
                                exsh,
                                picked_shapes(q, chosen@.take(idx_below(chosen@, k))),
                                q[k].1.shape(q[k].0),
                            ) by {
                                assert(k < i - 1) by {
                                    assert(in_idx(chosen@, i - 1));
                                }
                                assert(!in_idx(old_chosen, k)) by {
                                    if in_idx(old_chosen, k) {
                                        let x = choose|x: int|
                                            0 <= x < old_chosen.len() && old_chosen[x]
                                                == k as usize;
                                        assert(chosen@[x] == k as usize);
                                    }
                                }
                                assert(chosen@.drop_last() =~= old_chosen);
                                assert(idx_below(chosen@, k) == idx_below(old_chosen, k));
                                lemma_idx_below_bounds(old_chosen, k);
                                assert(chosen@.take(idx_below(chosen@, k)) =~= old_chosen.take(
                                    idx_below(old_chosen, k),
                                ));
                            }
                        }
                    } else {
                        proof {
                            if p6 && i == 0 {
                                assert(chosen@.len() == 0) by {
                                    if chosen@.len() > 0 {
                                        assert(cursor0 <= chosen@[0] < i);
                                    }
                                }
                                assert(members.len() == 0);
                                assert(false);
                            }
                        }
                        if time_cutoff.is_none() {
                            time_cutoff = Some(qt_i + CUTOFF_DURATION_MS);
                            proof {
                                cut_src = i as int;
                            }
                        }
                        checked_up_to = checked_up_to + 1;
                        i = i + 1;
                        proof {
                            assert(q[cut_src].1.queue_time <= q[i - 1].1.queue_time);
                            // The rejection evidence covers the candidate
                            // against everything chosen so far.
                            assert(opt_shapes(existing_entries_opt) == exsh);
                            lemma_idx_below_all(chosen@, i - 1);
                            assert(chosen@.take(idx_below(chosen@, i - 1)) =~= chosen@);
                            assert(scan_rejected::<B>(
                                self.spec_config(),
                                exsh,
                                picked_shapes(q, chosen@.take(idx_below(chosen@, i - 1))),
                                q[i - 1].1.shape(q[i - 1].0),
                            ));
                        }
                    }
                }
            }
        }

        if chosen.len() == 0 {
            let no_chosen: Vec<usize> = Vec::new();
            let (_picked, omap) = self.rebuild(&drops, &no_chosen, now, Ghost(i as int));
            self.checked_request_count = checked_up_to;
            let ghost kept = Seq::new(omap@.len(), |j: int| d@ + omap@[j]);
            proof {
                assert forall|j: int| 0 <= j < kept.len() implies 0 <= #[trigger] kept[j] < old(
                    self,
                ).queue().len() && self.queue()[j] == old(self).queue()[kept[j]] by {
                    assert(kept[j] == d@ + omap@[j]);
                    assert(self.queue()[j] == q[omap@[j]]);
                    assert(old(self).queue()[d@ + omap@[j]] == q[omap@[j]]);
                }
                if old(self).cursor() == 0 {
                    assert(cursor0 == 0);
                    assert(opt_shapes(existing_entries_opt) == exsh);
                    lemma_rejections_to_old::<B>(
                        old(self).spec_config(),
                        exsh,
                        old(self).queue(),
                        q,
                        d@,
                        i as int,
                        chosen@,
                        drops@,
                        omap@,
                        kept,
                        Seq::empty(),
                    );
                }
                if p6 {
                    assert(i > cursor0);
                    assert(!in_idx(chosen@, 0)) by {
                        if in_idx(chosen@, 0) {
                            let x = choose|x: int| 0 <= x < chosen@.len() && chosen@[x] == 0usize;
                        }
                    }
                    assert(in_idx(drops@, 0));
                    assert(drops@.len() > 0) by {
                        let x = choose|x: int| 0 <= x < drops@.len() && drops@[x] == 0usize;
                    }
                    assert(self.entries@.len() < old(self).queue().len());
                }
                assert forall|ii: int|
                    #![trigger old(self).queue()[ii]]
                    d@ + i <= ii < old(self).queue().len() implies self.queue()[ii - (old(
                        self,
                    ).queue().len() - self.queue().len())] == old(self).queue()[ii] by {
                    let qi = ii - d@;
                    assert(q[qi] == old(self).queue()[ii]);
                    assert(self.queue()[qi - (drops@.len() + no_chosen@.len())] == q[qi]);
                }
            }
            return (existing_entries_opt, None, Ghost((kept, Seq::empty(), d@ + i as int)));
        }

        if !hit_prefill_weight_limit && total0 > 0 {
            // An extension of a running batch must carry its weight unless
            // the head of the queue has waited long enough.
            let mut f: usize = 0;
            let mut dj: usize = 0;
            while dj < drops.len() && f < n
                invariant
                    0 <= dj <= drops@.len(),
                    0 <= f <= n,
                    strict_incr(drops@),
                    forall|x: int| 0 <= x < drops@.len() ==> cursor0 <= #[trigger] drops@[x] < n,
                    forall|x: int| 0 <= x < dj ==> #[trigger] drops@[x] < f,
                    forall|k: int| 0 <= k < f ==> in_idx(drops@, k),
                decreases n - f,
            {
                if drops[dj] == f {
                    dj = dj + 1;
                    f = f + 1;
                } else {
                    break ;
                }
            }
            let front_waiting = if f < n {
                let qt = self.entries[f].1.queue_time;
                now - qt > MAX_WAITING_DURATION_MS
            } else {
                false
            };
            if !front_waiting {
                let w2 = B::batch_weight(&batch_stats, total_count, Ghost(members));
                if w2 < (self.config.weight_limit / 2) as u128 {
                    let no_chosen: Vec<usize> = Vec::new();
                    let (_picked, omap) = self.rebuild(&drops, &no_chosen, now, Ghost(i as int));
                    self.checked_request_count = checked_up_to;
                    self.buffer_contents_insufficient = true;
                    let ghost kept = Seq::new(omap@.len(), |j: int| d@ + omap@[j]);
                    proof {
                        assert forall|j: int| 0 <= j < kept.len() implies 0 <= #[trigger] kept[j]
                            < old(self).queue().len() && self.queue()[j] == old(self).queue()[
                        kept[j]] by {
                            assert(kept[j] == d@ + omap@[j]);
                            assert(self.queue()[j] == q[omap@[j]]);
                            assert(old(self).queue()[d@ + omap@[j]] == q[omap@[j]]);
                        }
                assert forall|ii: int|
                    #![trigger old(self).queue()[ii]]
                    d@ + i <= ii < old(self).queue().len() implies self.queue()[ii - (old(
                        self,
                    ).queue().len() - self.queue().len())] == old(self).queue()[ii] by {
                    let qi = ii - d@;
                    assert(q[qi] == old(self).queue()[ii]);
                    assert(self.queue()[qi - (drops@.len() + no_chosen@.len())] == q[qi]);
                }
                    }
                    return (existing_entries_opt, None, Ghost((kept, Seq::empty(), d@ + i as int)));
                }
            }
        }

        // Emit the batch: move the selected entries out of the queue.
        let (nb, omap) = self.emit_batch(
            &existing_entries_opt,
            &drops,
            &chosen,
            now,
            Ghost(members),
            Ghost(i as int),
            Ghost(cursor0 as int),
        );
        let ghost kept = Seq::new(omap@.len(), |j: int| d@ + omap@[j]);
        let ghost batched = Seq::new(chosen@.len(), |x: int| d@ + chosen@[x]);
        proof {
            let nsh = nb.entries.shapes();
            assert(exsh + nsh =~= members);
            assert forall|j: int| 0 <= j < kept.len() implies 0 <= #[trigger] kept[j] < old(
                self,
            ).queue().len() && self.queue()[j] == old(self).queue()[kept[j]] by {
                assert(kept[j] == d@ + omap@[j]);
                assert(self.queue()[j] == q[omap@[j]]);
                assert(old(self).queue()[d@ + omap@[j]] == q[omap@[j]]);
            }
            assert forall|x: int| 0 <= x < batched.len() implies 0 <= #[trigger] batched[x] < old(
                self,
            ).queue().len() && nb.entries.items@[x].0 == old(self).queue()[batched[x]].0
                && nb.entries.items@[x].1 == stamped(old(self).queue()[batched[x]].1, now) by {
                assert(batched[x] == d@ + chosen@[x]);
                assert(q[chosen@[x] as int] == old(self).queue()[d@ + chosen@[x]]);
                assert(nb.entries.items@[x].0 == old(self).queue()[d@ + chosen@[x]].0);
                assert(nb.entries.items@[x].1 == stamped(
                    old(self).queue()[d@ + chosen@[x]].1,
                    now,
                ));
            }
            // Survivors and batch members come from disjoint queue positions.
            assert forall|a: int, b: int|
                0 <= a < kept.len() && 0 <= b < batched.len() implies (#[trigger] kept[a]) != (
                #[trigger] batched[b]) by {
                if omap@[a] == chosen@[b] {
                    assert(in_idx(chosen@, omap@[a]));
                }
            }
            if old(self).cursor() == 0 {
                assert(cursor0 == 0);
                assert(opt_shapes(existing_entries_opt) == exsh);
                lemma_rejections_to_old::<B>(
                    old(self).spec_config(),
                    exsh,
                    old(self).queue(),
                    q,
                    d@,
                    i as int,
                    chosen@,
                    drops@,
                    omap@,
                    kept,
                    batched,
                );
            }
            assert forall|ii: int|
                #![trigger old(self).queue()[ii]]
                d@ + i <= ii < old(self).queue().len() implies self.queue()[ii - (old(
                    self,
                ).queue().len() - self.queue().len())] == old(self).queue()[ii] by {
                let qi = ii - d@;
                assert(q[qi] == old(self).queue()[ii]);
                assert(self.queue()[qi - (drops@.len() + chosen@.len())] == q[qi]);
            }
        }
        (existing_entries_opt, Some(nb), Ghost((kept, batched, d@ + i as int)))
    }

}

} // verus!
