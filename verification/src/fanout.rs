//! Fan-out of backend results to per-request response streams.
//!
//! Each generation is routed to its entry's channel: at most one prefill
//! message, one message per produced token, and a final message carrying the
//! finished text.  The messages owed for a generation are fixed by
//! [`intended`]; what actually reaches a stream is always a prefix of them,
//! cut short only where the channel refused a delivery.  Entries whose
//! stream terminated — or whose receiver is gone — are removed from the
//! running batch.

use vstd::prelude::*;

use crate::client::{column_token_views, generated_text_view, token_view, token_views, tokens_view};
use crate::client::{GeneratedText, Generation, Token, TokenView, Tokens};
use crate::entry::{is_terminal, msg_view, stream_done, valid_stream, Entry, InferStreamResponse};
use crate::entry::MsgView;
use crate::errors::{ErrorView, InferError};
use crate::queue::EntryMap;

verus! {

/// The delivery order every receiver observes: a prefill only as the very
/// first message, and a terminal message only as the last.
pub proof fn lemma_stream_ordering(h: Seq<MsgView>)
    requires
        valid_stream(h),
    ensures
        forall|i: int| 0 <= i < h.len() && (#[trigger] h[i]) is Prefill ==> i == 0,
        forall|i: int| 0 <= i < h.len() && is_terminal(#[trigger] h[i]) ==> i == h.len() - 1,
        stream_done(h) ==> forall|i: int| 0 <= i < h.len() - 1 ==> !is_terminal(#[trigger] h[i]),
{
}

/// Every stream in the running batch is well-ordered and still open.
pub open spec fn streams_live(m: EntryMap) -> bool {
    forall|i: int|
        0 <= i < m.items@.len() ==> valid_stream(
            (#[trigger] m.items@[i]).1.response_tx.history@,
        ) && !stream_done(m.items@[i].1.response_tx.history@) && m.items@[i].1.batch_time is Some
}

/// The alternative tokens shown for position `i` of a generation.
pub open spec fn top_tokens_at(g: Generation, i: int) -> Seq<TokenView> {
    if i < g.top_tokens@.len() {
        column_token_views(g.top_tokens@[i])
    } else {
        Seq::empty()
    }
}

/// The messages owed to an entry for one generation: the prompt tokens when
/// the pass carried them, then one message per produced token — the last of
/// which, when the request finished, is the final message carrying the text
/// and the entry's queueing and start instants.
pub open spec fn intended(g: Generation, e: Entry) -> Seq<MsgView> {
    let t = g.tokens->Some_0;
    let n = t.ids@.len() as int;
    let body = Seq::new(
        n as nat,
        |i: int|
            if i == n - 1 && g.generated_text is Some {
                MsgView::End {
                    token: column_token_views(t)[i],
                    top_tokens: top_tokens_at(g, i),
                    generated_text: generated_text_view(g.generated_text->Some_0),
                    queued: e.queue_time,
                    start: e.batch_time->Some_0,
                }
            } else {
                MsgView::Intermediate {
                    token: column_token_views(t)[i],
                    top_tokens: top_tokens_at(g, i),
                }
            },
    );
    if g.prefill_tokens is Some {
        seq![MsgView::Prefill(tokens_view(g.prefill_tokens->Some_0))] + body
    } else {
        body
    }
}

/// A generation carries everything the fan-out needs.
pub open spec fn generation_wf(g: Generation) -> bool {
    &&& g.tokens is Some
    &&& g.tokens->Some_0.wf()
    &&& g.tokens->Some_0.ids@.len() >= 1
    &&& forall|k: int| 0 <= k < g.top_tokens@.len() ==> (#[trigger] g.top_tokens@[k]).wf()
}

/// Turn one column group into the owned tokens a consumer sees.
fn collect_tokens(t: &Tokens) -> (r: Vec<Token>)
    requires
        t.wf(),
    ensures
        token_views(r@) == column_token_views(*t),
{
    let n = t.ids.len();
    let mut r: Vec<Token> = Vec::new();
    let mut i: usize = 0;
    while i < n
        invariant
            0 <= i <= n,
            n == t.ids@.len(),
            t.wf(),
            r@.len() == i,
            forall|j: int| 0 <= j < i ==> token_view(#[trigger] r@[j]) == column_token_views(*t)[j],
        decreases n - i,
    {
        r.push(
            Token {
                id: t.ids[i],
                text: t.texts[i].clone(),
                logprob_bits: t.logprob_bits[i],
                special: t.is_special[i],
            },
        );
        i = i + 1;
    }
    proof {
        assert(token_views(r@) =~= column_token_views(*t));
    }
    r
}

/// Copy a token group, column by column.
fn clone_tokens(t: &Tokens) -> (r: Tokens)
    ensures
        tokens_view(r) == tokens_view(*t),
        r.wf() == t.wf(),
{
    let mut ids: Vec<u32> = Vec::new();
    let mut logprob_bits: Vec<u32> = Vec::new();
    let mut texts: Vec<String> = Vec::new();
    let mut is_special: Vec<bool> = Vec::new();
    let mut i: usize = 0;
    let n = t.ids.len();
    while i < n
        invariant
            0 <= i <= n,
            n == t.ids@.len(),
            ids@ == t.ids@.take(i as int),
        decreases n - i,
    {
        ids.push(t.ids[i]);
        proof {
            assert(ids@ =~= t.ids@.take(i as int + 1));
        }
        i = i + 1;
    }
    let mut i: usize = 0;
    let n = t.logprob_bits.len();
    while i < n
        invariant
            0 <= i <= n,
            n == t.logprob_bits@.len(),
            logprob_bits@ == t.logprob_bits@.take(i as int),
        decreases n - i,
    {
        logprob_bits.push(t.logprob_bits[i]);
        proof {
            assert(logprob_bits@ =~= t.logprob_bits@.take(i as int + 1));
        }
        i = i + 1;
    }
    let mut i: usize = 0;
    let n = t.texts.len();
    while i < n
        invariant
            0 <= i <= n,
            n == t.texts@.len(),
            texts@ == t.texts@.take(i as int),
        decreases n - i,
    {
        texts.push(t.texts[i].clone());
        proof {
            assert(texts@ =~= t.texts@.take(i as int + 1));
        }
        i = i + 1;
    }
    let mut i: usize = 0;
    let n = t.is_special.len();
    while i < n
        invariant
            0 <= i <= n,
            n == t.is_special@.len(),
            is_special@ == t.is_special@.take(i as int),
        decreases n - i,
    {
        is_special.push(t.is_special[i]);
        proof {
            assert(is_special@ =~= t.is_special@.take(i as int + 1));
        }
        i = i + 1;
    }
    let r = Tokens { ids, logprob_bits, texts, is_special };
    proof {
        assert(r.ids@ =~= t.ids@);
        assert(r.logprob_bits@ =~= t.logprob_bits@);
        assert(r.texts@ =~= t.texts@);
        assert(r.is_special@ =~= t.is_special@);
        assert(tokens_view(r) =~= tokens_view(*t)) by {
            assert(Seq::new(r.texts@.len(), |i: int| r.texts@[i]@) =~= Seq::new(
                t.texts@.len(),
                |i: int| t.texts@[i]@,
            ));
        }
    }
    r
}

/// Copy a finished text.
fn duplicate_generated_text(t: &GeneratedText) -> (r: GeneratedText)
    ensures
        r == *t,
{
    GeneratedText {
        text: t.text.clone(),
        generated_tokens: t.generated_tokens,
        finish_reason: t.finish_reason,
        seed: t.seed,
    }
}

/// Deliver one generation to its entry's stream.
///
/// The stream receives exactly a prefix of the messages owed for this
/// generation — all of them unless a delivery was refused — and the
/// delivered count is returned as ghost data.  The boolean says the entry is
/// finished with: its receiver disappeared, a delivery was refused, or its
/// final message went out.
pub fn send_responses(generation: &Generation, entry: &mut Entry) -> (r: (bool, Ghost<int>))
    requires
        old(entry).batch_time is Some,
        generation_wf(*generation),
        valid_stream(old(entry).response_tx.history@),
        !stream_done(old(entry).response_tx.history@),
        generation.prefill_tokens is Some ==> old(entry).response_tx.history@.len() == 0,
    ensures
        final(entry).request == old(entry).request,
        final(entry).generated_tokens == old(entry).generated_tokens,
        final(entry).queue_time == old(entry).queue_time,
        final(entry).batch_time == old(entry).batch_time,
        0 <= r.1@ <= intended(*generation, *old(entry)).len(),
        final(entry).response_tx.history@ == old(entry).response_tx.history@ + intended(
            *generation,
            *old(entry),
        ).take(r.1@),
        valid_stream(final(entry).response_tx.history@),
        r.1@ < intended(*generation, *old(entry)).len() ==> r.0,
        r.1@ == intended(*generation, *old(entry)).len() ==> r.0 == (generation.generated_text
            is Some),
        !r.0 ==> !stream_done(final(entry).response_tx.history@),
        stream_done(final(entry).response_tx.history@) ==> r.0,
{
    let ghost h0 = entry.response_tx.history@;
    let ghost ims = intended(*generation, *old(entry));
    if entry.response_tx.is_disconnected() {
        // The client went away: deliver nothing further.
        proof {
            assert(h0 + ims.take(0) =~= h0);
        }
        return (true, Ghost(0));
    }
    let mut off: usize = 0;
    match &generation.prefill_tokens {
        Some(pt) => {
            let copy = clone_tokens(pt);
            let ok = entry.response_tx.send(Ok(InferStreamResponse::Prefill(copy)));
            if !ok {
                proof {
                    assert(h0 + ims.take(0) =~= h0);
                }
                return (true, Ghost(0));
            }
            proof {
                assert(ims[0] == MsgView::Prefill(tokens_view(generation.prefill_tokens->Some_0)));
                assert(h0 + ims.take(1) =~= entry.response_tx.history@);
            }
            off = 1;
        },
        None => {},
    }
    let tokens = match &generation.tokens {
        Some(t) => t,
        None => {
            proof {
                assert(false);
            }
            return (true, Ghost(0));
        },
    };
    let n = tokens.ids.len();
    let has_text = match &generation.generated_text {
        Some(_) => true,
        None => false,
    };
    let mut i: usize = 0;
    while i < n
        invariant
            0 <= i <= n,
            off == if generation.prefill_tokens is Some {
                1int
            } else {
                0int
            },
            ims == intended(*generation, *old(entry)),
            ims.len() == off + n,
            h0 == old(entry).response_tx.history@,
            generation_wf(*generation),
            *tokens == generation.tokens->Some_0,
            n == tokens.ids@.len(),
            has_text == (generation.generated_text is Some),
            entry.batch_time is Some,
            entry.request == old(entry).request,
            entry.generated_tokens == old(entry).generated_tokens,
            entry.queue_time == old(entry).queue_time,
            entry.batch_time == old(entry).batch_time,
            valid_stream(h0),
            !stream_done(h0),
            entry.response_tx.history@ == h0 + ims.take(off + i),
            valid_stream(entry.response_tx.history@),
            !stream_done(entry.response_tx.history@),
            forall|k: int| 0 <= k < off + i ==> !is_terminal(#[trigger] ims[k]),
        decreases n - i,
    {
        let token = Token {
            id: tokens.ids[i],
            text: tokens.texts[i].clone(),
            logprob_bits: tokens.logprob_bits[i],
            special: tokens.is_special[i],
        };
        let top_tokens: Vec<Token> = if i < generation.top_tokens.len() {
            collect_tokens(&generation.top_tokens[i])
        } else {
            Vec::new()
        };
        proof {
            assert(token_view(token) == column_token_views(generation.tokens->Some_0)[i as int]);
            assert(token_views(top_tokens@) == top_tokens_at(*generation, i as int)) by {
                if i >= generation.top_tokens@.len() {
                    assert(token_views(top_tokens@) =~= Seq::<TokenView>::empty());
                }
            }
        }
        let is_last = i + 1 == n;
        if is_last && has_text {
            let generated_text = match &generation.generated_text {
                Some(t) => duplicate_generated_text(t),
                None => {
                    proof {
                        assert(false);
                    }
                    return (true, Ghost(0));
                },
            };
            let start = match entry.batch_time {
                Some(t) => t,
                None => {
                    proof {
                        assert(false);
                    }
                    return (true, Ghost(0));
                },
            };
            let ghost hpre = entry.response_tx.history@;
            let msg = InferStreamResponse::End {
                token,
                top_tokens,
                generated_text,
                queued: entry.queue_time,
                start,
            };
            let ok = entry.response_tx.send(Ok(msg));
            if !ok {
                return (true, Ghost(off as int + i as int));
            }
            proof {
                assert(msg_view(
                    Ok::<InferStreamResponse, InferError>(
                        InferStreamResponse::End {
                            token,
                            top_tokens,
                            generated_text,
                            queued: entry.queue_time,
                            start,
                        },
                    ),
                ) == ims[off + i]);
                assert(entry.response_tx.history@ =~= h0 + ims.take(off + i + 1));
                assert forall|k: int|
                    0 <= k < entry.response_tx.history@.len() && is_terminal(
                        #[trigger] entry.response_tx.history@[k],
                    ) implies k == entry.response_tx.history@.len() - 1 by {
                    if k < hpre.len() {
                        assert(hpre[k] == entry.response_tx.history@[k]);
                    }
                }
                assert(off as int + i as int + 1 == ims.len());
            }
            return (true, Ghost(off as int + i as int + 1));
        } else {
            let ghost hpre = entry.response_tx.history@;
            let msg = InferStreamResponse::Intermediate { token, top_tokens };
            let ok = entry.response_tx.send(Ok(msg));
            if !ok {
                return (true, Ghost(off as int + i as int));
            }
            proof {
                assert(msg_view(
                    Ok::<InferStreamResponse, InferError>(
                        InferStreamResponse::Intermediate { token, top_tokens },
                    ),
                ) == ims[off + i]);
                assert(entry.response_tx.history@ =~= h0 + ims.take(off + i + 1));
                assert forall|k: int|
                    0 <= k < entry.response_tx.history@.len() && is_terminal(
                        #[trigger] entry.response_tx.history@[k],
                    ) implies k == entry.response_tx.history@.len() - 1 by {
                    if k < hpre.len() {
                        assert(hpre[k] == entry.response_tx.history@[k]);
                    }
                }
                assert(!is_terminal(entry.response_tx.history@.last()));
            }
        }
        i = i + 1;
    }
    proof {
        assert(!has_text);
        assert(ims.take(off + n as int) =~= ims);
    }
    (false, Ghost(off as int + n as int))
}

/// Some generation in the batch addresses this entry id.
pub open spec fn addressed(gs: Seq<Generation>, id: u64) -> bool {
    exists|x: int| 0 <= x < gs.len() && (#[trigger] gs[x]).request_id == id
}

/// The generation addressing this entry id; meaningful when request ids are
/// distinct and the id is addressed.
pub open spec fn gen_for(gs: Seq<Generation>, id: u64) -> Generation {
    gs[choose|x: int| 0 <= x < gs.len() && (#[trigger] gs[x]).request_id == id]
}

/// Request ids occur at most once in a batch of generations.
pub open spec fn distinct_request_ids(gs: Seq<Generation>) -> bool {
    forall|g1: int, g2: int|
        0 <= g1 < g2 < gs.len() ==> (#[trigger] gs[g1]).request_id != (
        #[trigger] gs[g2]).request_id
}

/// The fate of one running-batch entry after a pass: kept at a final
/// position having received some number of its owed messages, or retired.
pub open spec fn entry_fate(
    gs: Seq<Generation>,
    pre: Seq<(u64, Entry)>,
    post: Seq<(u64, Entry)>,
    i: int,
    f: Option<(int, int)>,
) -> bool {
    match f {
        Some(p) => {
            &&& 0 <= p.0 < post.len()
            &&& post[p.0].0 == pre[i].0
            &&& post[p.0].1.request == pre[i].1.request
            &&& post[p.0].1.generated_tokens == pre[i].1.generated_tokens
            &&& post[p.0].1.queue_time == pre[i].1.queue_time
            &&& post[p.0].1.batch_time == pre[i].1.batch_time
            &&& if addressed(gs, pre[i].0) {
                // A kept, addressed entry was fully served and did not
                // finish: its whole owed sequence went out, and the
                // generation carried no final text.
                &&& p.1 == intended(gen_for(gs, pre[i].0), pre[i].1).len()
                &&& gen_for(gs, pre[i].0).generated_text is None
                &&& post[p.0].1.response_tx.history@ == pre[i].1.response_tx.history@ + intended(
                    gen_for(gs, pre[i].0),
                    pre[i].1,
                ).take(p.1)
            } else {
                post[p.0] == pre[i] && p.1 == 0
            }
        },
        None => addressed(gs, pre[i].0),
    }
}

/// Route a batch of generations to their entries and remove the finished
/// ones from the running batch.
///
/// Each entry addressed by a generation takes one [`send_responses`] step
/// with exactly that generation; entries nobody addressed are untouched, and
/// only addressed entries can leave.  The returned fate map says, for every
/// former member, where it sits now and how many of its owed messages were
/// delivered.
pub fn filter_send_generations(generations: &Vec<Generation>, entries: &mut EntryMap) -> (fate:
    Ghost<Seq<Option<(int, int)>>>)
    requires
        old(entries).wf(),
        streams_live(*old(entries)),
        distinct_request_ids(generations@),
        forall|g: int| 0 <= g < generations@.len() ==> generation_wf(#[trigger] generations@[g]),
        forall|g: int, i: int|
            0 <= g < generations@.len() && 0 <= i < old(entries).items@.len() && (
            #[trigger] generations@[g]).prefill_tokens is Some && (#[trigger] old(
                entries,
            ).items@[i]).0 == generations@[g].request_id ==> old(
                entries,
            ).items@[i].1.response_tx.history@.len() == 0,
    ensures
        final(entries).wf(),
        streams_live(*final(entries)),
        final(entries).items@.len() <= old(entries).items@.len(),
        fate@.len() == old(entries).items@.len(),
        forall|i: int|
            0 <= i < old(entries).items@.len() ==> entry_fate(
                generations@,
                old(entries).items@,
                final(entries).items@,
                i,
                #[trigger] fate@[i],
            ),
        forall|i1: int, i2: int|
            0 <= i1 < i2 < old(entries).items@.len() && fate@[i1] is Some && fate@[i2] is Some
                ==> (#[trigger] fate@[i1])->Some_0.0 < (#[trigger] fate@[i2])->Some_0.0,
{
    let ghost pre = entries.items@;
    let ghost gs = generations@;
    let gn = generations.len();
    let n = entries.items.len();
    let mut new_items: Vec<(u64, Entry)> = Vec::new();
    let ghost mut fate: Seq<Option<(int, int)>> = Seq::empty();
    let mut idx: usize = 0;
    while idx < n
        invariant
            0 <= idx <= n,
            n == pre.len(),
            gn == gs.len(),
            gs == generations@,
            entries.items@ == pre.skip(idx as int),
            pre == old(entries).items@,
            old(entries).wf(),
            streams_live(*old(entries)),
            distinct_request_ids(gs),
            forall|g: int| 0 <= g < gs.len() ==> generation_wf(#[trigger] gs[g]),
            forall|g: int, i: int|
                0 <= g < gs.len() && 0 <= i < pre.len() && (#[trigger] gs[g]).prefill_tokens
                    is Some && (#[trigger] pre[i]).0 == gs[g].request_id ==> pre[
                    i
                ].1.response_tx.history@.len() == 0,
            fate.len() == idx,
            new_items@.len() <= idx,
            forall|i: int| 0 <= i < idx ==> entry_fate(gs, pre, new_items@, i, #[trigger] fate[i]),
            forall|i1: int, i2: int|
                0 <= i1 < i2 < idx && fate[i1] is Some && fate[i2] is Some ==> (
                #[trigger] fate[i1])->Some_0.0 < (#[trigger] fate[i2])->Some_0.0,
            forall|i: int|
                0 <= i < idx && fate[i] is Some ==> (#[trigger] fate[i])->Some_0.0
                    < new_items@.len(),
            forall|j1: int, j2: int|
                0 <= j1 < j2 < new_items@.len() ==> (#[trigger] new_items@[j1]).0 != (
                #[trigger] new_items@[j2]).0,
            forall|j: int|
                0 <= j < new_items@.len() ==> (#[trigger] new_items@[j]).1.wf() && valid_stream(
                    new_items@[j].1.response_tx.history@,
                ) && !stream_done(new_items@[j].1.response_tx.history@) && new_items@[
                    j
                ].1.batch_time is Some,
            forall|j: int| 0 <= j < new_items@.len() ==> exists|i: int|
                0 <= i < idx && (#[trigger] new_items@[j]).0 == pre[i].0,
        decreases n - idx,
    {
        proof {
            assert(entries.items@[0] == pre[idx as int]);
        }
        let pair = entries.items.remove(0);
        proof {
            assert(entries.items@ =~= pre.skip(idx as int + 1));
        }
        let (eid, mut e) = pair;
        // Look for the generation addressing this entry.
        let mut gi: usize = 0;
        let mut found = false;
        while gi < gn && !found
            invariant
                0 <= gi <= gn,
                gn == gs.len(),
                gs == generations@,
                found ==> gi < gn && gs[gi as int].request_id == eid,
                !found ==> forall|x: int| 0 <= x < gi ==> (#[trigger] gs[x]).request_id != eid,
            decreases gn - gi + (if found {
                0int
            } else {
                1int
            }),
        {
            if generations[gi].request_id == eid {
                found = true;
            } else {
                gi = gi + 1;
            }
        }
        let ghost pos = new_items@.len() as int;
        let ghost prev_items = new_items@;
        if found {
            proof {
                assert(addressed(gs, eid));
                assert(gs[gi as int] == gen_for(gs, eid)) by {
                    let w = choose|x: int| 0 <= x < gs.len() && (#[trigger] gs[x]).request_id
                        == eid;
                    assert(gs[w].request_id == eid);
                    if w != gi {
                        assert(gs[w].request_id != gs[gi as int].request_id);
                    }
                }
            }
            let (stopped, delivered) = send_responses(&generations[gi], &mut e);
            if !stopped {
                new_items.push((eid, e));
                proof {
                    fate = fate.push(Some((pos, delivered@)));
                }
            } else {
                proof {
                    fate = fate.push(None);
                }
            }
        } else {
            proof {
                assert(!addressed(gs, eid)) by {
                    if addressed(gs, eid) {
                        let x = choose|x: int|
                            0 <= x < gs.len() && (#[trigger] gs[x]).request_id == eid;
                    }
                }
            }
            new_items.push((eid, e));
            proof {
                fate = fate.push(Some((pos, 0int)));
                assert(pre[idx as int].1.response_tx.history@ + intended(
                    gen_for(gs, eid),
                    pre[idx as int].1,
                ).take(0) =~= pre[idx as int].1.response_tx.history@);
            }
        }
        proof {
            assert forall|i: int| 0 <= i < idx + 1 implies entry_fate(
                gs,
                pre,
                new_items@,
                i,
                #[trigger] fate[i],
            ) by {
                if i < idx {
                    match fate[i] {
                        Some(p) => {
                            assert(new_items@[p.0] == prev_items[p.0]);
                        },
                        None => {},
                    }
                }
            }
        }
        idx = idx + 1;
    }
    proof {
        assert(pre.skip(n as int) =~= Seq::<(u64, Entry)>::empty());
    }
    entries.items = new_items;
    Ghost(fate)
}

/// Abort every entry of a failed batch: each stream is offered the backend's
/// message as a terminal error, and the batch empties.  The returned log
/// carries, per former member, its id and its final history: the old one
/// with exactly one failure message appended, or unchanged where the
/// receiver was already gone.
pub fn send_errors(error: &String, entries: &mut EntryMap) -> (log: Ghost<Seq<(u64, Seq<MsgView>)>>)
    requires
        old(entries).wf(),
    ensures
        final(entries).wf(),
        final(entries).items@.len() == 0,
        log@.len() == old(entries).items@.len(),
        forall|i: int|
            0 <= i < log@.len() ==> (#[trigger] log@[i]).0 == old(entries).items@[i].0 && (log@[
                i
            ].1 == old(entries).items@[i].1.response_tx.history@.push(
                MsgView::Failure(ErrorView::Generation(error@)),
            ) || log@[i].1 == old(entries).items@[i].1.response_tx.history@),
{
    let ghost pre = entries.items@;
    let n = entries.items.len();
    let ghost mut log: Seq<(u64, Seq<MsgView>)> = Seq::empty();
    let mut idx: usize = 0;
    while idx < n
        invariant
            0 <= idx <= n,
            n == pre.len(),
            pre == old(entries).items@,
            entries.items@ == pre.skip(idx as int),
            log.len() == idx,
            forall|i: int|
                0 <= i < idx ==> (#[trigger] log[i]).0 == pre[i].0 && (log[i].1 == pre[
                    i
                ].1.response_tx.history@.push(MsgView::Failure(ErrorView::Generation(error@)))
                    || log[i].1 == pre[i].1.response_tx.history@),
        decreases n - idx,
    {
        proof {
            assert(entries.items@[0] == pre[idx as int]);
        }
        let pair = entries.items.remove(0);
        proof {
            assert(entries.items@ =~= pre.skip(idx as int + 1));
        }
        let (eid, mut e) = pair;
        let msg = InferError::GenerationError(error.clone());
        proof {
            assert(msg_view(Err::<InferStreamResponse, InferError>(msg)) == MsgView::Failure(
                ErrorView::Generation(error@),
            ));
        }
        let _delivered = e.response_tx.send(Err(msg));
        proof {
            log = log.push((eid, e.response_tx.history@));
        }
        idx = idx + 1;
    }
    proof {
        assert(pre.skip(n as int) =~= Seq::<(u64, Entry)>::empty());
    }
    Ghost(log)
}

} // verus!
