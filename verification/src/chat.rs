//! Chat-template rendering.
//!
//! A server-configured template is applied to a list of messages together
//! with the model's special tokens.  Rendering is delegated to the template
//! engine; the library pins down only that the outcome is a function of the
//! template and its inputs, and how failures are surfaced.

use vstd::prelude::*;

use minijinja::value::Value;
use minijinja::Environment;

use crate::errors::{InferError, TemplateFailure};

verus! {

/// One chat message.
#[derive(Clone)]
pub struct Message {
    pub role: String,
    pub content: String,
}

/// The mathematical content of one chat message.
pub struct MessageView {
    pub role: Seq<char>,
    pub content: Seq<char>,
}

/// The mathematical content of a failed rendering.
pub struct TemplateFailureView {
    pub message: Seq<char>,
    pub detail: Option<Seq<char>>,
}

pub open spec fn message_views(ms: Seq<Message>) -> Seq<MessageView> {
    Seq::new(ms.len(), |i: int| MessageView { role: ms[i].role@, content: ms[i].content@ })
}

pub open spec fn opt_view(s: Option<String>) -> Option<Seq<char>> {
    match s {
        Some(s) => Some(s@),
        None => None,
    }
}

pub open spec fn failure_view(f: TemplateFailure) -> TemplateFailureView {
    TemplateFailureView { message: f.message@, detail: opt_view(f.detail) }
}

pub open spec fn render_result_view(r: Result<String, TemplateFailure>) -> Result<
    Seq<char>,
    TemplateFailureView,
> {
    match r {
        Ok(s) => Ok(s@),
        Err(f) => Err(failure_view(f)),
    }
}

/// What the template engine renders for a template and its inputs: a
/// function of these values alone.
pub uninterp spec fn rendered_chat(
    template: Seq<char>,
    messages: Seq<MessageView>,
    bos_token: Option<Seq<char>>,
    eos_token: Option<Seq<char>>,
    add_generation_prompt: bool,
) -> Result<Seq<char>, TemplateFailureView>;

#[verifier::external_type_specification]
#[verifier::external_body]
pub struct ExValue(Value);

/// Relies on `minijinja::value::Value`'s `FromIterator` and
/// `from_serialize` impls: builds the render context from the messages, the
/// special tokens and the generation prompt flag, deterministically in these
/// arguments.
#[verifier::external_body]
fn build_context(
    messages: &Vec<Message>,
    bos_token: &Option<String>,
    eos_token: &Option<String>,
    add_generation_prompt: bool,
) -> Value {
    let msgs = Value::from_iter(messages.iter().map(
        |m| Value::from_iter([("role", m.role.clone()), ("content", m.content.clone())]),
    ));
    Value::from_iter([
        ("messages", msgs),
        ("bos_token", Value::from_serialize(bos_token)),
        ("eos_token", Value::from_serialize(eos_token)),
        ("add_generation_prompt", Value::from(add_generation_prompt)),
    ])
}

/// Relies on `minijinja::Environment::template_from_str` and
/// `minijinja::Template::render`: both are deterministic in the template
/// source and the context — which `build_context` derives from the remaining
/// arguments alone — so the outcome is a function of the arguments.  The
/// environment exposes a `raise_exception` callable whose message becomes
/// the error's detail.
#[verifier::external_body]
fn render_raw(
    template: &str,
    messages: &Vec<Message>,
    bos_token: &Option<String>,
    eos_token: &Option<String>,
    add_generation_prompt: bool,
) -> (r: Result<String, TemplateFailure>)
    ensures
        render_result_view(r) == rendered_chat(
            template@,
            message_views(messages@),
            opt_view(*bos_token),
            opt_view(*eos_token),
            add_generation_prompt,
        ),
{
    let mut env = Environment::new();
    env.add_function("raise_exception", |text: String| -> Result<String, minijinja::Error> {
        Err(minijinja::Error::new(minijinja::ErrorKind::SyntaxError, text))
    });
    let ctx = build_context(messages, bos_token, eos_token, add_generation_prompt);
    env.template_from_str(template).and_then(|t| t.render(ctx)).map_err(
        |e| TemplateFailure { message: e.to_string(), detail: e.detail().map(|d| d.to_string()) },
    )
}

/// Render a chat template over a list of messages.
pub fn render_chat_template(
    template: &String,
    messages: &Vec<Message>,
    bos_token: &Option<String>,
    eos_token: &Option<String>,
    add_generation_prompt: bool,
) -> (r: Result<String, TemplateFailure>)
    ensures
        render_result_view(r) == rendered_chat(
            template@,
            message_views(messages@),
            opt_view(*bos_token),
            opt_view(*eos_token),
            add_generation_prompt,
        ),
{
    render_raw(template.as_str(), messages, bos_token, eos_token, add_generation_prompt)
}

/// A server-configured chat template with its special tokens.
///
/// The template is kept as source and compiled on every application:
/// construction therefore never fails, and a template that cannot be parsed
/// surfaces as a template error from `apply` rather than as a panic when the
/// scheduler is built.
#[derive(Clone)]
pub struct ChatTemplate {
    pub template: String,
    pub bos_token: Option<String>,
    pub eos_token: Option<String>,
}

impl ChatTemplate {
    pub fn new(template: String, bos_token: Option<String>, eos_token: Option<String>) -> (r: Self)
        ensures
            r.template == template,
            r.bos_token == bos_token,
            r.eos_token == eos_token,
    {
        ChatTemplate { template, bos_token, eos_token }
    }

    /// Apply the template to a conversation, always asking for a generation
    /// prompt — the facade renders for an assistant turn — and surface
    /// failures as template errors.  Callers that need the prompt flag off
    /// use [`render_chat_template`] directly.
    pub fn apply(&self, messages: Vec<Message>) -> (r: Result<String, InferError>)
        ensures
            match rendered_chat(
                self.template@,
                message_views(messages@),
                opt_view(self.bos_token),
                opt_view(self.eos_token),
                true,
            ) {
                Ok(s) => r is Ok && r->Ok_0@ == s,
                Err(f) => r is Err && match r->Err_0 {
                    InferError::TemplateError(g) => failure_view(g) == f,
                    _ => false,
                },
            },
    {
        match render_chat_template(
            &self.template,
            &messages,
            &self.bos_token,
            &self.eos_token,
            true,
        ) {
            Ok(s) => Ok(s),
            Err(f) => Err(InferError::TemplateError(f)),
        }
    }
}

} // verus!
