//! Queue entries and their per-request response streams.
//!
//! Each entry owns the send side of an unbounded channel.  The receiver's
//! disappearance is the sole cancellation signal, and the sequence of message
//! kinds pushed down the channel is tracked as ghost history so that the
//! delivery order promised to clients can be stated and proved.

use vstd::prelude::*;

use crate::client::{
    generated_text_view, token_view, token_views, tokens_view, GeneratedText, GeneratedTextView,
    NextTokenChooserParameters, StoppingCriteriaParameters, Token, TokenView, Tokens, TokensView,
};
use crate::errors::{error_view, ErrorView, InferError};
use crate::weights::Shape;

verus! {

#[verifier::external_type_specification]
#[verifier::external_body]
#[verifier::reject_recursive_types(T)]
pub struct ExSender<T>(flume::Sender<T>);

/// A request that passed validation.
pub struct ValidGenerateRequest {
    pub inputs: String,
    /// Tokenized length of `inputs` as measured by validation.
    pub input_length: u32,
    /// Prompt tokens the backend will actually ingest.
    pub truncate: u32,
    pub parameters: NextTokenChooserParameters,
    pub stopping_parameters: StoppingCriteriaParameters,
}

impl ValidGenerateRequest {
    /// Validation never lets a request through without an output budget.
    pub open spec fn wf(&self) -> bool {
        self.stopping_parameters.max_new_tokens >= 1
    }
}

/// One message on a per-request response stream.
pub enum InferStreamResponse {
    /// The tokenized prompt; sent at most once, before any token.
    Prefill(Tokens),
    /// One produced token with its most-likely alternatives.
    Intermediate { token: Token, top_tokens: Vec<Token> },
    /// The final token together with the finished text.
    End {
        token: Token,
        top_tokens: Vec<Token>,
        generated_text: GeneratedText,
        /// When the request entered the queue, in clock milliseconds.
        queued: u64,
        /// When the request first joined a batch, in clock milliseconds.
        start: u64,
    },
}

/// The mathematical content of one stream message.
pub enum MsgView {
    Prefill(TokensView),
    Intermediate { token: TokenView, top_tokens: Seq<TokenView> },
    End {
        token: TokenView,
        top_tokens: Seq<TokenView>,
        generated_text: GeneratedTextView,
        queued: u64,
        start: u64,
    },
    Failure(ErrorView),
}

pub open spec fn msg_view(m: Result<InferStreamResponse, InferError>) -> MsgView {
    match m {
        Ok(InferStreamResponse::Prefill(t)) => MsgView::Prefill(tokens_view(t)),
        Ok(
            InferStreamResponse::Intermediate { token, top_tokens },
        ) => MsgView::Intermediate { token: token_view(token), top_tokens: token_views(top_tokens@) },
        Ok(
            InferStreamResponse::End { token, top_tokens, generated_text, queued, start },
        ) => MsgView::End {
            token: token_view(token),
            top_tokens: token_views(top_tokens@),
            generated_text: generated_text_view(generated_text),
            queued,
            start,
        },
        Err(e) => MsgView::Failure(error_view(e)),
    }
}

/// The message is terminal: nothing may follow it on a stream.
pub open spec fn is_terminal(m: MsgView) -> bool {
    m is End || m is Failure
}

/// A well-formed stream history: a prefill only at the start, and a terminal
/// message only at the end.
pub open spec fn valid_stream(h: Seq<MsgView>) -> bool {
    &&& forall|i: int| 0 < i < h.len() ==> !((#[trigger] h[i]) is Prefill)
    &&& forall|i: int| 0 <= i < h.len() && is_terminal(#[trigger] h[i]) ==> i == h.len() - 1
}

/// The stream has received its terminal message.
pub open spec fn stream_done(h: Seq<MsgView>) -> bool {
    h.len() > 0 && is_terminal(h.last())
}

/// The send side of a response stream, remembering as ghost state the kinds
/// of the messages delivered so far.
pub struct ResponseSender {
    /// The channel's send side.
    pub tx: flume::Sender<Result<InferStreamResponse, InferError>>,
    /// The content of the messages accepted by the channel, in order.
    pub history: Ghost<Seq<MsgView>>,
}

impl ResponseSender {
    pub fn new(tx: flume::Sender<Result<InferStreamResponse, InferError>>) -> (r: Self)
        ensures
            r.history@ == Seq::<MsgView>::empty(),
    {
        ResponseSender { tx, history: Ghost(Seq::empty()) }
    }

    /// Relies on `flume::Sender::send`: on an unbounded channel it never
    /// blocks, and it errs exactly when every receiver has been dropped.
    #[verifier::external_body]
    fn send_raw(&self, msg: Result<InferStreamResponse, InferError>) -> (ok: bool) {
        self.tx.send(msg).is_ok()
    }

    /// Relies on `flume::Sender::is_disconnected`: true when every receiver
    /// has been dropped.  The answer can change at any moment, so nothing is
    /// promised of it.
    #[verifier::external_body]
    pub(crate) fn is_disconnected(&self) -> bool {
        self.tx.is_disconnected()
    }

    /// Push one message down the stream; the history records it only when
    /// the channel accepted it.
    pub fn send(&mut self, msg: Result<InferStreamResponse, InferError>) -> (ok: bool)
        ensures
            ok ==> final(self).history@ == old(self).history@.push(msg_view(msg)),
            !ok ==> final(self).history@ == old(self).history@,
    {
        let ghost k = msg_view(msg);
        let ok = self.send_raw(msg);
        if ok {
            proof {
                self.history@ = self.history@.push(k);
            }
        }
        ok
    }
}

/// One waiting or in-flight request.
pub struct Entry {
    /// The validated request.
    pub request: ValidGenerateRequest,
    /// Output tokens produced so far; zero while waiting.
    pub generated_tokens: usize,
    /// Send side of the per-request response stream.
    pub response_tx: ResponseSender,
    /// When the request entered the queue, in clock milliseconds.
    pub queue_time: u64,
    /// When the request first joined a batch; unset while waiting.
    pub batch_time: Option<u64>,
}

impl Entry {
    /// A live entry still owes at least one output token.
    pub open spec fn wf(&self) -> bool {
        &&& self.request.wf()
        &&& self.generated_tokens < self.request.stopping_parameters.max_new_tokens
    }

    /// The projected shape this entry contributes to a batch, under `id`.
    pub open spec fn shape(&self, id: u64) -> Shape {
        Shape {
            in_len: self.request.truncate as int,
            out_len: self.request.stopping_parameters.max_new_tokens as int,
            generated: self.generated_tokens as int,
            id: id as int,
        }
    }

    pub fn new(request: ValidGenerateRequest, response_tx: ResponseSender, queue_time: u64) -> (r:
        Self)
        requires
            request.wf(),
        ensures
            r.wf(),
            r.request == request,
            r.generated_tokens == 0,
            r.response_tx == response_tx,
            r.queue_time == queue_time,
            r.batch_time is None,
    {
        Entry { request, generated_tokens: 0, response_tx, queue_time, batch_time: None }
    }
}

} // verus!
