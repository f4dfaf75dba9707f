//! Frontend diagnostics: a message grounded in a source span, tagged with the
//! pipeline stage that produced it.

use vstd::prelude::*;

use crate::ir::Span;

verus! {


/// The pipeline stage a diagnostic comes from.
#[derive(Clone, Copy, Debug, PartialEq, Eq, Structural)]
pub enum Stage {
    Preprocess,
    Lex,
    Parse,
    Resolve,
    Check,
}

/// A frontend diagnostic: the stage, the source span (absent for a
/// source-less failure), and the rendered message.
#[derive(Clone, Debug)]
pub struct Diag {
    pub stage: Stage,
    pub span: Option<Span>,
    pub message: String,
}

/// The mathematical content of a [`Diag`].
pub struct DiagView {
    pub stage: Stage,
    pub span: Option<Span>,
    pub message: Seq<char>,
}

impl View for Diag {
    type V = DiagView;

    open spec fn view(&self) -> DiagView {
        DiagView { stage: self.stage, span: self.span, message: self.message@ }
    }
}

impl Diag {
    /// A diagnostic at `span`.
    pub fn new(stage: Stage, span: Span, message: String) -> (d: Diag)
        ensures
            d.stage == stage,
            d.span == Some(span),
            d.message@ == message@,
    {
        Diag { stage, span: Some(span), message }
    }
}


/// What kind of check a checker-issued unification implements — drives the
/// wording and the expected/found direction.
#[derive(Clone, Copy, PartialEq, Eq, Debug, Structural)]
pub enum DiagKind {
    /// `inner : T` — expected = the annotation's type value.
    Annotation,
    /// Type-position kinding `ty[e] : Type` — expected = `Type`.
    Kinding,
    /// Applying a concretely non-function type — expected = a function.
    Guard,
}

} // verus!
