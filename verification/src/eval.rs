//! Errors of evaluation.

use vstd::prelude::*;
use crate::span::Span;
use crate::expr::{items_span, text, Expr, List};
use crate::text::push_str;

verus! {

/// An error of expression evaluation: a message and, when it is known, the region
/// of the source that the error is about.
#[derive(Debug)]
pub struct EvalError {
    pub message: String,
    pub span: Option<Span>,
}

impl EvalError {
    /// An error with `message` and no region.
    pub fn from_message(message: String) -> (e: EvalError)
        ensures
            e.message@ == message@,
            e.span == None::<Span>,
    {
        EvalError { message, span: None }
    }

    /// The text of the error as shown to the user: `span: message` when the region
    /// is known, the message alone otherwise.
    pub open spec fn text(&self) -> Seq<char> {
        match self.span {
            Some(s) => s.text() + ": "@ + self.message@,
            None => self.message@,
        }
    }

    /// Renders the error as text (see [`EvalError::text`]).
    pub fn to_string(&self) -> (s: String)
        requires
            self.span matches Some(sp) ==> sp.displayable(),
        ensures
            s@ == self.text(),
    {
        match &self.span {
            Some(span) => {
                let mut s = span.to_string();
                push_str(&mut s, ": ");
                push_str(&mut s, self.message.as_str());
                s
            },
            None => self.message.clone(),
        }
    }
}

impl PartialEq for EvalError {
    fn eq(&self, other: &EvalError) -> (b: bool) {
        self.message == other.message && self.span == other.span
    }
}

impl vstd::std_specs::cmp::PartialEqSpecImpl for EvalError {
    open spec fn obeys_eq_spec() -> bool {
        true
    }

    open spec fn eq_spec(&self, other: &EvalError) -> bool {
        self.message@ == other.message@ && self.span == other.span
    }
}

} // verus!

verus! {

/// The error about a symbol that no environment binds: "Undefined symbol: `name`",
/// at the symbol's region.
pub fn undefined_symbol(name: &str, span: Option<Span>) -> (e: EvalError)
    ensures
        e.message@ == "Undefined symbol: `"@ + name@ + "`"@,
        e.span == span,
{
    let mut message = String::new();
    push_str(&mut message, "Undefined symbol: `");
    push_str(&mut message, name);
    push_str(&mut message, "`");
    assert(Seq::<char>::empty() + "Undefined symbol: `"@ + name@ + "`"@ == "Undefined symbol: `"@ + name@
        + "`"@);
    EvalError { message, span }
}

/// The error about the head of a form that is not a procedure: "`e` does not
/// evaluate to a callable.", at the head's region.
pub fn not_callable(head: &Expr) -> (e: EvalError)
    ensures
        e.message@ == "`"@ + text(head@) + "` does not evaluate to a callable."@,
        e.span == head@.span(),
{
    let mut message = String::new();
    push_str(&mut message, "`");
    head.write_text(&mut message);
    push_str(&mut message, "` does not evaluate to a callable.");
    assert(Seq::<char>::empty() + "`"@ + text(head@) + "` does not evaluate to a callable."@ == "`"@
        + text(head@) + "` does not evaluate to a callable."@);
    EvalError { message, span: head.span() }
}

/// Gives a region to an error that the evaluation of the form `(head args...)`
/// produced without one: the region of the arguments when they have one, otherwise
/// the region of the form. An error that has a region keeps it.
pub fn locate_error(e: EvalError, args: &List, form: &Expr) -> (r: EvalError)
    ensures
        r.message@ == e.message@,
        r.span == match e.span {
            Some(s) => Some(s),
            None => match items_span(args@) {
                Some(s) => Some(s),
                None => form@.span(),
            },
        },
{
    match e.span {
        Some(_) => e,
        None => {
            let span = match args.span() {
                Some(s) => Some(s),
                None => form.span(),
            };
            EvalError { message: e.message, span }
        },
    }
}

} // verus!
