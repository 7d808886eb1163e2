//! Admission control and aggregation of response streams.

use vstd::prelude::*;

use crate::client::{GeneratedText, PrefillToken, Token, Tokens};
use crate::entry::InferStreamResponse;
use crate::errors::InferError;

use vstd::math::min;

verus! {

/// The counting part of the concurrency limit: how many requests hold a
/// permit, against the configured maximum.  Admission fails fast when every
/// permit is taken.
pub struct ConcurrencyLimiter {
    permits_in_use: usize,
    max_concurrent_requests: usize,
}

impl ConcurrencyLimiter {
    pub closed spec fn in_use(&self) -> usize {
        self.permits_in_use
    }

    pub closed spec fn limit(&self) -> usize {
        self.max_concurrent_requests
    }

    pub open spec fn wf(&self) -> bool {
        self.in_use() <= self.limit()
    }

    pub fn new(max_concurrent_requests: usize) -> (r: Self)
        ensures
            r.wf(),
            r.in_use() == 0,
            r.limit() == max_concurrent_requests,
    {
        ConcurrencyLimiter { permits_in_use: 0, max_concurrent_requests }
    }

    /// Take a permit, or fail fast with `Overloaded` exactly when none is
    /// free.
    pub fn try_acquire(&mut self) -> (r: Result<(), InferError>)
        requires
            old(self).wf(),
        ensures
            final(self).wf(),
            final(self).limit() == old(self).limit(),
            r is Ok <==> old(self).in_use() < old(self).limit(),
            r is Ok ==> final(self).in_use() == old(self).in_use() + 1,
            r is Err ==> final(self).in_use() == old(self).in_use() && r->Err_0 is Overloaded,
    {
        if self.permits_in_use < self.max_concurrent_requests {
            self.permits_in_use = self.permits_in_use + 1;
            Ok(())
        } else {
            Err(InferError::Overloaded)
        }
    }

    /// Hand a permit back when its request's stream closes.
    pub fn release(&mut self)
        requires
            old(self).wf(),
        ensures
            final(self).wf(),
            final(self).limit() == old(self).limit(),
            final(self).in_use() == if old(self).in_use() > 0 {
                (old(self).in_use() - 1) as usize
            } else {
                0usize
            },
    {
        if self.permits_in_use > 0 {
            self.permits_in_use = self.permits_in_use - 1;
        }
    }
}

/// A fully aggregated generation, as returned to non-streaming callers.
pub struct InferResponse {
    /// Tokenized input length as measured by validation.
    pub input_length: u32,
    pub prefill: Vec<PrefillToken>,
    pub tokens: Vec<Token>,
    pub generated_text: GeneratedText,
    /// When the request entered the queue, in clock milliseconds.
    pub queued: u64,
    /// When the request first joined a batch, in clock milliseconds.
    pub start: u64,
    pub top_tokens: Vec<Vec<Token>>,
}

/// Folds a response stream into a single response.
pub struct ResponseAggregator {
    pub prefill: Vec<PrefillToken>,
    pub tokens: Vec<Token>,
    pub top_tokens: Vec<Vec<Token>>,
    pub ended: Option<(GeneratedText, u64, u64)>,
}

impl ResponseAggregator {
    /// Whether a final message has been absorbed.
    pub open spec fn saw_end(&self) -> bool {
        self.ended is Some
    }

    pub fn new() -> (r: Self)
        ensures
            !r.saw_end(),
            r.tokens@.len() == 0,
            r.prefill@.len() == 0,
    {
        ResponseAggregator { prefill: Vec::new(), tokens: Vec::new(), top_tokens: Vec::new(), ended: None }
    }

    /// Fold one stream message into the aggregate: a prefill message sets
    /// the prompt tokens, a token message appends its token and alternatives,
    /// and the final message additionally records the text and the two
    /// instants.
    pub fn absorb(&mut self, response: InferStreamResponse)
        ensures
            match response {
                InferStreamResponse::Prefill(t) => {
                    &&& prefill_pairs(final(self).prefill@, t)
                    &&& final(self).tokens@ == old(self).tokens@
                    &&& final(self).top_tokens@ == old(self).top_tokens@
                    &&& final(self).ended == old(self).ended
                },
                InferStreamResponse::Intermediate { token, top_tokens } => {
                    &&& final(self).prefill@ == old(self).prefill@
                    &&& final(self).tokens@ == old(self).tokens@.push(token)
                    &&& final(self).top_tokens@ == old(self).top_tokens@.push(top_tokens)
                    &&& final(self).ended == old(self).ended
                },
                InferStreamResponse::End { token, top_tokens, generated_text, queued, start } => {
                    &&& final(self).prefill@ == old(self).prefill@
                    &&& final(self).tokens@ == old(self).tokens@.push(token)
                    &&& final(self).top_tokens@ == old(self).top_tokens@.push(top_tokens)
                    &&& final(self).ended == Some((generated_text, queued, start))
                },
            },
            final(self).saw_end() == (old(self).saw_end() || response is End),
    {
        match response {
            InferStreamResponse::Prefill(tokens) => {
                self.prefill = prefill_tokens_of(tokens);
            },
            InferStreamResponse::Intermediate { token, top_tokens } => {
                self.tokens.push(token);
                self.top_tokens.push(top_tokens);
            },
            InferStreamResponse::End { token, top_tokens, generated_text, queued, start } => {
                self.tokens.push(token);
                self.top_tokens.push(top_tokens);
                self.ended = Some((generated_text, queued, start));
            },
        }
    }

    /// Close the stream: a response is owed exactly when a final message was
    /// seen — carrying the final text and the two instants that message
    /// brought, the prompt tokens, and all produced tokens — otherwise the
    /// generation is incomplete.
    pub fn finish(self, input_length: u32, use_top_tokens: bool) -> (r: Result<
        InferResponse,
        InferError,
    >)
        ensures
            r is Ok <==> self.saw_end(),
            r is Err ==> r->Err_0 is IncompleteGeneration,
            r is Ok ==> {
                &&& r->Ok_0.tokens@ == self.tokens@
                &&& r->Ok_0.input_length == input_length
                &&& r->Ok_0.prefill@ == self.prefill@
                &&& r->Ok_0.generated_text == self.ended->Some_0.0
                &&& r->Ok_0.queued == self.ended->Some_0.1
                &&& r->Ok_0.start == self.ended->Some_0.2
            },
            r is Ok && use_top_tokens ==> r->Ok_0.top_tokens@ == self.top_tokens@,
            r is Ok && !use_top_tokens ==> r->Ok_0.top_tokens@.len() == 0,
    {
        match self.ended {
            Some((generated_text, queued, start)) => Ok(
                InferResponse {
                    input_length,
                    prefill: self.prefill,
                    tokens: self.tokens,
                    generated_text,
                    queued,
                    start,
                    top_tokens: if use_top_tokens {
                        self.top_tokens
                    } else {
                        Vec::new()
                    },
                },
            ),
            None => Err(InferError::IncompleteGeneration),
        }
    }
}

/// The aggregated prompt tokens pair the columns of a prefill token group,
/// one entry per position up to the shortest column.
pub open spec fn prefill_pairs(r: Seq<PrefillToken>, t: Tokens) -> bool {
    &&& r.len() == min(min(t.ids@.len() as int, t.texts@.len() as int), t.logprob_bits@.len() as int)
    &&& forall|j: int|
        0 <= j < r.len() ==> (#[trigger] r[j]).id == t.ids@[j] && r[j].text@ == t.texts@[j]@ && r[
            j
        ].logprob_bits == t.logprob_bits@[j]
}

/// Pair the columns of a prefill token group.
fn prefill_tokens_of(tokens: Tokens) -> (r: Vec<PrefillToken>)
    ensures
        prefill_pairs(r@, tokens),
{
    let mut r: Vec<PrefillToken> = Vec::new();
    let n = if tokens.ids.len() <= tokens.texts.len() {
        if tokens.ids.len() <= tokens.logprob_bits.len() {
            tokens.ids.len()
        } else {
            tokens.logprob_bits.len()
        }
    } else {
        if tokens.texts.len() <= tokens.logprob_bits.len() {
            tokens.texts.len()
        } else {
            tokens.logprob_bits.len()
        }
    };
    let mut i: usize = 0;
    while i < n
        invariant
            0 <= i <= n,
            n == min(
                min(tokens.ids@.len() as int, tokens.texts@.len() as int),
                tokens.logprob_bits@.len() as int,
            ),
            r@.len() == i,
            forall|j: int|
                0 <= j < i ==> (#[trigger] r@[j]).id == tokens.ids@[j] && r@[j].text@
                    == tokens.texts@[j]@ && r@[j].logprob_bits == tokens.logprob_bits@[j],
        decreases n - i,
    {
        r.push(
            PrefillToken {
                id: tokens.ids[i],
                text: tokens.texts[i].clone(),
                logprob_bits: tokens.logprob_bits[i],
            },
        );
        i = i + 1;
    }
    r
}

} // verus!
