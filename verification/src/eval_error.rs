//! Evaluation errors that carry a code telling what kind of error they are.

use vstd::prelude::*;
use crate::span::Span;
use crate::text::push_str;

verus! {

/// The kind of an evaluation error.
#[derive(Clone, Copy, Debug, PartialEq, Eq, Structural)]
pub enum EvalErrorCode {
    UndefinedSymbol,
    /// Neither a function nor a macro.
    NotCallable,
    ArityMismatch,
    TypeMismatch,
    InvalidForm,
    Undefined,
}

/// An evaluation error: its kind, a message and, when it is known, the region of the
/// source that it is about.
#[derive(Debug)]
pub struct EvalError {
    pub code: EvalErrorCode,
    pub message: String,
    pub span: Option<Span>,
}

impl EvalError {
    /// The text of the error as shown to the user: `span: message` when the region
    /// is known, the message alone otherwise. The code is not shown.
    pub open spec fn text(&self) -> Seq<char> {
        match self.span {
            Some(s) => s.text() + ": "@ + self.message@,
            None => self.message@,
        }
    }

    /// Renders the error as text (see [`EvalError::text`]).
    pub fn to_string(&self) -> (s: String)
        requires
            self.span matches Some(sp) ==> sp.displayable(),
        ensures
            s@ == self.text(),
    {
        match &self.span {
            Some(span) => {
                let mut s = span.to_string();
                push_str(&mut s, ": ");
                push_str(&mut s, self.message.as_str());
                s
            },
            None => self.message.clone(),
        }
    }
}

impl PartialEq for EvalError {
    fn eq(&self, other: &EvalError) -> (b: bool) {
        self.code == other.code && self.message == other.message && self.span == other.span
    }
}

impl vstd::std_specs::cmp::PartialEqSpecImpl for EvalError {
    open spec fn obeys_eq_spec() -> bool {
        true
    }

    open spec fn eq_spec(&self, other: &EvalError) -> bool {
        self.code == other.code && self.message@ == other.message@ && self.span == other.span
    }
}

} // verus!
