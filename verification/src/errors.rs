//! The closed set of failures the scheduler can report.

use vstd::prelude::*;

verus! {

/// A failed template rendering: the renderer's message, and the detail
/// string when the template itself raised one.
#[derive(Clone, Debug)]
pub struct TemplateFailure {
    pub message: String,
    pub detail: Option<String>,
}

/// Every error a caller of the scheduler can observe.
#[derive(Debug)]
pub enum InferError {
    /// The backend failed while the request was being generated; the payload
    /// is the backend's message.
    GenerationError(String),
    /// All concurrency permits are taken; the caller may retry.
    Overloaded,
    /// The request was rejected before it was enqueued.
    ValidationError(String),
    /// The response stream closed before a final message was seen.
    IncompleteGeneration,
    /// Rendering a chat template failed.
    TemplateError(TemplateFailure),
}

/// The mathematical content of an error, as a stream consumer sees it.
pub enum ErrorView {
    Generation(Seq<char>),
    Overloaded,
    Validation(Seq<char>),
    Incomplete,
    Template(Seq<char>, Option<Seq<char>>),
}

pub open spec fn error_view(e: InferError) -> ErrorView {
    match e {
        InferError::GenerationError(m) => ErrorView::Generation(m@),
        InferError::Overloaded => ErrorView::Overloaded,
        InferError::ValidationError(m) => ErrorView::Validation(m@),
        InferError::IncompleteGeneration => ErrorView::Incomplete,
        InferError::TemplateError(f) => ErrorView::Template(
            f.message@,
            match f.detail {
                Some(d) => Some(d@),
                None => None,
            },
        ),
    }
}

impl InferError {
    /// A stable, machine-readable label for each error kind.
    pub fn error_type(&self) -> (r: &str)
        ensures
            match self {
                InferError::GenerationError(_) => r@ == "generation"@,
                InferError::Overloaded => r@ == "overloaded"@,
                InferError::ValidationError(_) => r@ == "validation"@,
                InferError::IncompleteGeneration => r@ == "incomplete_generation"@,
                InferError::TemplateError(_) => r@ == "template_error"@,
            },
    {
        match self {
            InferError::GenerationError(_) => "generation",
            InferError::Overloaded => "overloaded",
            InferError::ValidationError(_) => "validation",
            InferError::IncompleteGeneration => "incomplete_generation",
            InferError::TemplateError(_) => "template_error",
        }
    }
}

} // verus!
