//! Lexical units of the language.

use vstd::prelude::*;
use vstd::std_specs::cmp::PartialEqSpecImpl;
use crate::number::{num_eq, Number};
use crate::span::{Loc, Span};
use crate::text::{push_char, push_str};

verus! {

/// A lexical unit of the source code.
#[derive(Debug)]
pub enum Token {
    /// Open parenthesis `(`.
    OpenParen(Loc),
    /// Close parenthesis `)`.
    CloseParen(Loc),
    /// Quote `'`.
    Quote(Loc),
    /// Quasiquote `` ` ``.
    Quasiquote(Loc),
    /// Unquote `,`.
    Unquote(Loc),
    /// Unquote-splicing `,@`.
    UnquoteSplicing(Loc),
    /// A number literal.
    Num(Number, Span),
    /// A string literal, with its escapes resolved.
    Str(String, Span),
    /// A symbol.
    Sym(String, Span),
}

/// The mathematical value of a [`Token`].
pub enum TokenView {
    OpenParen(Loc),
    CloseParen(Loc),
    Quote(Loc),
    Quasiquote(Loc),
    Unquote(Loc),
    UnquoteSplicing(Loc),
    Num(Seq<char>, Span),
    Str(Seq<char>, Span),
    Sym(Seq<char>, Span),
}

impl View for Token {
    type V = TokenView;

    open spec fn view(&self) -> TokenView {
        match self {
            Token::OpenParen(l) => TokenView::OpenParen(*l),
            Token::CloseParen(l) => TokenView::CloseParen(*l),
            Token::Quote(l) => TokenView::Quote(*l),
            Token::Quasiquote(l) => TokenView::Quasiquote(*l),
            Token::Unquote(l) => TokenView::Unquote(*l),
            Token::UnquoteSplicing(l) => TokenView::UnquoteSplicing(*l),
            Token::Num(n, s) => TokenView::Num(n@, *s),
            Token::Str(t, s) => TokenView::Str(t@, *s),
            Token::Sym(t, s) => TokenView::Sym(t@, *s),
        }
    }
}

/// The span of `width` columns that begins at `loc`.
pub open spec fn fixed_span(loc: Loc, width: nat) -> Span {
    Span { begin: loc, end: Loc { line: loc.line, column: (loc.column + width) as usize } }
}

impl TokenView {
    /// The number of columns of a punctuation token, 0 for the others.
    pub open spec fn width(self) -> nat {
        match self {
            TokenView::UnquoteSplicing(_) => 2,
            TokenView::Num(..) | TokenView::Str(..) | TokenView::Sym(..) => 0,
            _ => 1,
        }
    }

    /// The location of a punctuation token.
    pub open spec fn loc(self) -> Loc {
        match self {
            TokenView::OpenParen(l) => l,
            TokenView::CloseParen(l) => l,
            TokenView::Quote(l) => l,
            TokenView::Quasiquote(l) => l,
            TokenView::Unquote(l) => l,
            TokenView::UnquoteSplicing(l) => l,
            TokenView::Num(_, s) => s.begin,
            TokenView::Str(_, s) => s.begin,
            TokenView::Sym(_, s) => s.begin,
        }
    }

    /// The span of a punctuation token fits in a machine word (a number, string or
    /// symbol token carries its span).
    pub open spec fn has_span(self) -> bool {
        match self {
            TokenView::Num(..) | TokenView::Str(..) | TokenView::Sym(..) => true,
            _ => self.loc().column + self.width() <= usize::MAX,
        }
    }

    /// The region of the source that the token covers.
    pub open spec fn span(self) -> Span {
        match self {
            TokenView::Num(_, s) => s,
            TokenView::Str(_, s) => s,
            TokenView::Sym(_, s) => s,
            _ => fixed_span(self.loc(), self.width()),
        }
    }

    /// Two tokens are the same when they are of the same kind with the same value;
    /// locations do not count.
    pub open spec fn same(self, other: TokenView) -> bool {
        match (self, other) {
            (TokenView::OpenParen(_), TokenView::OpenParen(_)) => true,
            (TokenView::CloseParen(_), TokenView::CloseParen(_)) => true,
            (TokenView::Quote(_), TokenView::Quote(_)) => true,
            (TokenView::Quasiquote(_), TokenView::Quasiquote(_)) => true,
            (TokenView::Unquote(_), TokenView::Unquote(_)) => true,
            (TokenView::UnquoteSplicing(_), TokenView::UnquoteSplicing(_)) => true,
            (TokenView::Num(a, _), TokenView::Num(b, _)) => num_eq(a, b),
            (TokenView::Str(a, _), TokenView::Str(b, _)) => a == b,
            (TokenView::Sym(a, _), TokenView::Sym(b, _)) => a == b,
            _ => false,
        }
    }

    /// The text of a token as printed: its punctuation, the text of a number,
    /// a string between double quotes (escapes are not restored), a symbol's name.
    pub open spec fn text(self) -> Seq<char> {
        match self {
            TokenView::OpenParen(_) => seq!['('],
            TokenView::CloseParen(_) => seq![')'],
            TokenView::Quote(_) => seq!['\''],
            TokenView::Quasiquote(_) => seq!['`'],
            TokenView::Unquote(_) => seq![','],
            TokenView::UnquoteSplicing(_) => seq![',', '@'],
            TokenView::Num(t, _) => t,
            TokenView::Str(t, _) => seq!['"'] + t + seq!['"'],
            TokenView::Sym(t, _) => t,
        }
    }
}

impl Clone for Token {
    fn clone(&self) -> (t: Token)
        ensures
            t@ == self@,
    {
        match self {
            Token::OpenParen(l) => Token::OpenParen(*l),
            Token::CloseParen(l) => Token::CloseParen(*l),
            Token::Quote(l) => Token::Quote(*l),
            Token::Quasiquote(l) => Token::Quasiquote(*l),
            Token::Unquote(l) => Token::Unquote(*l),
            Token::UnquoteSplicing(l) => Token::UnquoteSplicing(*l),
            Token::Num(n, s) => Token::Num(n.clone(), *s),
            Token::Str(t, s) => Token::Str(t.clone(), *s),
            Token::Sym(t, s) => Token::Sym(t.clone(), *s),
        }
    }
}

impl Token {
    /// The region of the source that the token covers.
    pub fn span(&self) -> (span: Span)
        requires
            self@.has_span(),
        ensures
            span == self@.span(),
    {
        match self {
            Token::OpenParen(loc) | Token::CloseParen(loc) | Token::Quote(loc) | Token::Quasiquote(
                loc,
            )
            | Token::Unquote(loc) => Span::new(*loc, loc.with_column_offset(1)),
            Token::UnquoteSplicing(loc) => Span::new(*loc, loc.with_column_offset(2)),
            Token::Num(_, span) | Token::Str(_, span) | Token::Sym(_, span) => *span,
        }
    }

    /// The text of the token as printed (see [`TokenView::text`]).
    pub fn to_string(&self) -> (s: String)
        ensures
            s@ == self@.text(),
    {
        let mut s = String::new();
        match self {
            Token::OpenParen(_) => push_char(&mut s, '('),
            Token::CloseParen(_) => push_char(&mut s, ')'),
            Token::Quote(_) => push_char(&mut s, '\''),
            Token::Quasiquote(_) => push_char(&mut s, '`'),
            Token::Unquote(_) => push_char(&mut s, ','),
            Token::UnquoteSplicing(_) => {
                push_char(&mut s, ',');
                push_char(&mut s, '@');
            },
            Token::Num(n, _) => push_str(&mut s, n.text()),
            Token::Str(t, _) => {
                push_char(&mut s, '"');
                push_str(&mut s, t.as_str());
                push_char(&mut s, '"');
            },
            Token::Sym(t, _) => push_str(&mut s, t.as_str()),
        }
        s
    }

    /// Tests whether two tokens are the same (see [`TokenView::same`]).
    pub fn same(&self, other: &Token) -> (b: bool)
        ensures
            b == self@.same(other@),
    {
        match (self, other) {
            (Token::OpenParen(_), Token::OpenParen(_)) => true,
            (Token::CloseParen(_), Token::CloseParen(_)) => true,
            (Token::Quote(_), Token::Quote(_)) => true,
            (Token::Quasiquote(_), Token::Quasiquote(_)) => true,
            (Token::Unquote(_), Token::Unquote(_)) => true,
            (Token::UnquoteSplicing(_), Token::UnquoteSplicing(_)) => true,
            (Token::Num(a, _), Token::Num(b, _)) => a.equals(b),
            (Token::Str(a, _), Token::Str(b, _)) => *a == *b,
            (Token::Sym(a, _), Token::Sym(b, _)) => *a == *b,
            _ => false,
        }
    }
}

impl PartialEq for Token {
    fn eq(&self, other: &Token) -> (b: bool) {
        self.same(other)
    }
}

impl PartialEqSpecImpl for Token {
    open spec fn obeys_eq_spec() -> bool {
        true
    }

    open spec fn eq_spec(&self, other: &Token) -> bool {
        self@.same(other@)
    }
}

} // verus!
