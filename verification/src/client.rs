//! Types exchanged with the model backend.
//!
//! The backend consumes [`Batch`]es, returns [`Generation`]s and keeps KV
//! state behind [`CachedBatch`] handles.  Log-probabilities travel through
//! the scheduler untouched, so they are carried as raw bit patterns.

use vstd::prelude::*;

verus! {

/// Sampling settings for one request.  The scheduler never interprets them;
/// fractional settings are carried as the raw bits of their encoding.
#[derive(Clone, Copy)]
pub struct NextTokenChooserParameters {
    pub temperature_bits: u32,
    pub top_k: u32,
    pub top_p_bits: u32,
    pub typical_p_bits: u32,
    pub do_sample: bool,
    pub seed: u64,
    pub repetition_penalty_bits: u32,
    pub watermark: bool,
}

/// Stopping rules for one request.
#[derive(Clone)]
pub struct StoppingCriteriaParameters {
    /// Maximum number of output tokens; always at least one.
    pub max_new_tokens: u32,
    pub stop_sequences: Vec<String>,
    pub ignore_eos_token: bool,
}

/// One request inside a [`Batch`] handed to the backend.
pub struct Request {
    pub id: u64,
    pub inputs: String,
    pub truncate: u32,
    pub parameters: NextTokenChooserParameters,
    pub stopping_parameters: StoppingCriteriaParameters,
}

/// A batch of requests for one prefill pass.
pub struct Batch {
    pub id: u64,
    pub requests: Vec<Request>,
    pub size: u32,
}

/// Backend-side handle for the KV cache of a running batch.
pub struct CachedBatch {
    pub id: u64,
    pub request_ids: Vec<u64>,
    pub size: u32,
    pub max_tokens: u32,
}

/// Why a generation stopped.
#[derive(Clone, Copy, PartialEq, Eq, Structural)]
pub enum FinishReason {
    Length,
    EndOfSequenceToken,
    StopSequence,
}

/// The final text of a finished generation.
#[derive(Clone)]
pub struct GeneratedText {
    pub text: String,
    pub generated_tokens: u32,
    pub finish_reason: FinishReason,
    pub seed: Option<u64>,
}

/// One produced token.
#[derive(Clone)]
pub struct Token {
    pub id: u32,
    pub text: String,
    /// Log-probability, carried as the raw bits of its encoding.
    pub logprob_bits: u32,
    pub special: bool,
}

/// One token of the prompt, as reported by the prefill pass.
#[derive(Clone)]
pub struct PrefillToken {
    pub id: u32,
    pub text: String,
    /// Log-probability, carried as the raw bits of its encoding.
    pub logprob_bits: u32,
}

/// A group of tokens, column-wise: all vectors run in step.
#[derive(Clone)]
pub struct Tokens {
    pub ids: Vec<u32>,
    pub logprob_bits: Vec<u32>,
    pub texts: Vec<String>,
    pub is_special: Vec<bool>,
}

impl Tokens {
    /// The four columns describe the same tokens.
    pub open spec fn wf(&self) -> bool {
        &&& self.ids@.len() == self.logprob_bits@.len()
        &&& self.ids@.len() == self.texts@.len()
        &&& self.ids@.len() == self.is_special@.len()
    }
}

/// The mathematical content of one token.
pub struct TokenView {
    pub id: u32,
    pub text: Seq<char>,
    pub logprob_bits: u32,
    pub special: bool,
}

pub open spec fn token_view(t: Token) -> TokenView {
    TokenView { id: t.id, text: t.text@, logprob_bits: t.logprob_bits, special: t.special }
}

pub open spec fn token_views(v: Seq<Token>) -> Seq<TokenView> {
    Seq::new(v.len(), |i: int| token_view(v[i]))
}

/// The mathematical content of a token group, column-wise.
pub struct TokensView {
    pub ids: Seq<u32>,
    pub logprob_bits: Seq<u32>,
    pub texts: Seq<Seq<char>>,
    pub is_special: Seq<bool>,
}

pub open spec fn tokens_view(t: Tokens) -> TokensView {
    TokensView {
        ids: t.ids@,
        logprob_bits: t.logprob_bits@,
        texts: Seq::new(t.texts@.len(), |i: int| t.texts@[i]@),
        is_special: t.is_special@,
    }
}

/// The tokens of one column group, row-wise: the token a consumer sees at
/// each position.
pub open spec fn column_token_views(t: Tokens) -> Seq<TokenView> {
    Seq::new(
        t.ids@.len(),
        |i: int|
            TokenView {
                id: t.ids@[i],
                text: t.texts@[i]@,
                logprob_bits: t.logprob_bits@[i],
                special: t.is_special@[i],
            },
    )
}

/// The mathematical content of a finished text.
pub struct GeneratedTextView {
    pub text: Seq<char>,
    pub generated_tokens: u32,
    pub finish_reason: FinishReason,
    pub seed: Option<u64>,
}

pub open spec fn generated_text_view(t: GeneratedText) -> GeneratedTextView {
    GeneratedTextView {
        text: t.text@,
        generated_tokens: t.generated_tokens,
        finish_reason: t.finish_reason,
        seed: t.seed,
    }
}

/// What the backend produced for one request in one forward pass.
pub struct Generation {
    pub request_id: u64,
    /// Tokens of the prompt, when the caller asked for them; sent at most
    /// once, by the prefill pass.
    pub prefill_tokens: Option<Tokens>,
    /// The tokens produced by this pass.
    pub tokens: Option<Tokens>,
    /// Most-likely alternatives per produced token.
    pub top_tokens: Vec<Tokens>,
    /// Present exactly when the request finished with this pass.
    pub generated_text: Option<GeneratedText>,
}

} // verus!
