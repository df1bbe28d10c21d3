//! The parser: turns tokens into expressions.

use vstd::prelude::*;
use vstd::std_specs::cmp::PartialEqSpecImpl;
use std::collections::VecDeque;
use crate::expr::{cons, intern, readable, readable_items, Expr, ExprView, List};
use crate::span::{Loc, Span};
use crate::token::{Token, TokenView};

verus! {

/// An error found while parsing.
#[derive(Debug)]
pub enum ParseError {
    /// The tokens ran out in the middle of an expression.
    NeedMoreToken,
    /// A token that cannot stand where it stands: a `)` with no list open, or one
    /// right after a quote mark.
    UnexpectedToken(Token),
}

/// The mathematical value of a [`ParseError`].
pub enum ParseErrorView {
    NeedMoreToken,
    UnexpectedToken(TokenView),
}

impl View for ParseError {
    type V = ParseErrorView;

    open spec fn view(&self) -> ParseErrorView {
        match self {
            ParseError::NeedMoreToken => ParseErrorView::NeedMoreToken,
            ParseError::UnexpectedToken(t) => ParseErrorView::UnexpectedToken(t@),
        }
    }
}

impl PartialEq for ParseError {
    fn eq(&self, other: &ParseError) -> (b: bool) {
        match (self, other) {
            (ParseError::NeedMoreToken, ParseError::NeedMoreToken) => true,
            (ParseError::UnexpectedToken(a), ParseError::UnexpectedToken(b)) => a.same(b),
            _ => false,
        }
    }
}

impl PartialEqSpecImpl for ParseError {
    open spec fn obeys_eq_spec() -> bool {
        true
    }

    open spec fn eq_spec(&self, other: &ParseError) -> bool {
        match (self@, other@) {
            (ParseErrorView::NeedMoreToken, ParseErrorView::NeedMoreToken) => true,
            (ParseErrorView::UnexpectedToken(a), ParseErrorView::UnexpectedToken(b)) => a.same(b),
            _ => false,
        }
    }
}

/// A frame of the parser's stack: a token that opened a list or quoted an
/// expression (`None` for a frame that holds a further element of an open list),
/// and the element that the frame holds, if any.
struct ParseContext {
    token: Option<Token>,
    car: Option<Expr>,
}

/// The mathematical value of a parser frame.
pub struct CtxView {
    pub token: Option<TokenView>,
    pub car: Option<ExprView>,
}

closed spec fn ctx_view(c: ParseContext) -> CtxView {
    CtxView {
        token: match c.token {
            Some(t) => Some(t@),
            None => None,
        },
        car: match c.car {
            Some(e) => Some(e@),
            None => None,
        },
    }
}

/// The name of the `quote` form.
pub open spec fn quote_sym() -> Seq<char> {
    seq!['q', 'u', 'o', 't', 'e']
}

/// The name of the `quasiquote` form.
pub open spec fn quasiquote_sym() -> Seq<char> {
    seq!['q', 'u', 'a', 's', 'i', 'q', 'u', 'o', 't', 'e']
}

/// The name of the `unquote` form.
pub open spec fn unquote_sym() -> Seq<char> {
    seq!['u', 'n', 'q', 'u', 'o', 't', 'e']
}

/// The name of the `unquote-splicing` form.
pub open spec fn unquote_splicing_sym() -> Seq<char> {
    seq!['u', 'n', 'q', 'u', 'o', 't', 'e', '-', 's', 'p', 'l', 'i', 'c', 'i', 'n', 'g']
}

/// The name of the form that a quote mark stands for.
pub open spec fn quote_name(t: Option<TokenView>) -> Option<Seq<char>> {
    match t {
        Some(TokenView::Quote(_)) => Some(quote_sym()),
        Some(TokenView::Quasiquote(_)) => Some(quasiquote_sym()),
        Some(TokenView::Unquote(_)) => Some(unquote_sym()),
        Some(TokenView::UnquoteSplicing(_)) => Some(unquote_splicing_sym()),
        _ => None,
    }
}

/// A token that opens a frame: `(` and the quote marks.
pub open spec fn is_opener(t: TokenView) -> bool {
    t is OpenParen || t is Quote || t is Quasiquote || t is Unquote || t is UnquoteSplicing
}

/// The expression of an atom token.
pub open spec fn atom_of(t: TokenView) -> ExprView {
    match t {
        TokenView::Num(n, s) => ExprView::Num(n, Some(s)),
        TokenView::Str(x, s) => ExprView::Str(x, Some(s)),
        TokenView::Sym(x, s) => ExprView::Sym(x, Some(s)),
        _ => ExprView::List(Seq::empty(), None),
    }
}

/// `(name e)`, the form that a quote mark before `e` reads as.
pub open spec fn quoted(name: Seq<char>, e: ExprView) -> ExprView {
    ExprView::List(seq![ExprView::Sym(name, None), e], None)
}

/// Places a finished expression on the stack: a quote frame on top wraps it and
/// passes it on; a list frame takes it as an element. With no frame left, the
/// expression is complete and is returned.
pub open spec fn place(ctxs: Seq<CtxView>, e: ExprView) -> (Seq<CtxView>, Option<ExprView>)
    decreases ctxs.len(),
{
    if ctxs.len() == 0 {
        (ctxs, Some(e))
    } else {
        let top = ctxs.last();
        match quote_name(top.token) {
            Some(q) => place(ctxs.drop_last(), quoted(q, e)),
            None => if top.car is None {
                (ctxs.drop_last().push(CtxView { token: top.token, car: Some(e) }), None)
            } else {
                (ctxs.push(CtxView { token: None, car: Some(e) }), None)
            },
        }
    }
}

/// Closes the innermost open list on `tok`, a `)`: pops its frames, gathering their
/// elements before `items`, down to the frame of its `(`. A quote frame, or no such
/// frame, makes `tok` unexpected.
pub open spec fn close(ctxs: Seq<CtxView>, items: Seq<ExprView>, tok: TokenView) -> (
    Seq<CtxView>,
    Result<ExprView, ParseErrorView>,
)
    decreases ctxs.len(),
{
    if ctxs.len() == 0 {
        (ctxs, Err(ParseErrorView::UnexpectedToken(tok)))
    } else {
        let top = ctxs.last();
        let rest = ctxs.drop_last();
        if quote_name(top.token) is Some {
            (rest, Err(ParseErrorView::UnexpectedToken(tok)))
        } else {
            let items2 = match top.car {
                Some(c) => seq![c] + items,
                None => items,
            };
            match top.token {
                Some(bt) => (
                    rest,
                    Ok(
                        ExprView::List(
                            items2,
                            Some(Span { begin: bt.span().begin, end: tok.span().end }),
                        ),
                    ),
                ),
                None => close(rest, items2, tok),
            }
        }
    }
}

/// The outcome of a parse: an expression, `None` when no token is left and no
/// expression is open, or an error.
pub type ParseOutcome = Result<Option<ExprView>, ParseErrorView>;

/// Parses from the pending `tokens` with the stack `ctxs`: gives the outcome, the
/// tokens left and the stack after.
pub open spec fn run(tokens: Seq<TokenView>, ctxs: Seq<CtxView>) -> (
    ParseOutcome,
    Seq<TokenView>,
    Seq<CtxView>,
)
    decreases tokens.len(),
{
    if tokens.len() == 0 {
        (
            if ctxs.len() > 0 {
                Err(ParseErrorView::NeedMoreToken)
            } else {
                Ok(None)
            },
            tokens,
            ctxs,
        )
    } else {
        let t = tokens[0];
        let rest = tokens.drop_first();
        if is_opener(t) {
            run(rest, ctxs.push(CtxView { token: Some(t), car: None }))
        } else {
            let (c1, r1) = if t is CloseParen {
                close(ctxs, Seq::empty(), t)
            } else {
                (ctxs, Ok(atom_of(t)))
            };
            match r1 {
                Err(e) => (Err(e), rest, c1),
                Ok(e) => {
                    let (c2, done) = place(c1, e);
                    match done {
                        Some(x) => (Ok(Some(x)), rest, c2),
                        None => run(rest, c2),
                    }
                },
            }
        }
    }
}

/// The view of a parse result.
pub open spec fn outcome_view(r: Result<Option<Expr>, ParseError>) -> ParseOutcome {
    match r {
        Ok(Some(e)) => Ok(Some(e@)),
        Ok(None) => Ok(None),
        Err(e) => Err(e@),
    }
}

/// The parser of the language. Tokens are added to it as they come; each call of
/// [`Parser::parse`] reads one expression, and an expression may span several
/// additions of tokens.
pub struct Parser {
    tokens: VecDeque<Token>,
    contexts: Vec<ParseContext>,
}

/// The name of the form that a quote mark stands for.
fn quote_name_of(token: &Option<Token>) -> (r: Option<&'static str>)
    ensures
        match quote_name(
            match token {
                Some(t) => Some(t@),
                None => None,
            },
        ) {
            Some(q) => r is Some && r->0@ == q,
            None => r is None,
        },
{
    proof {
        reveal_strlit("quote");
        reveal_strlit("quasiquote");
        reveal_strlit("unquote");
        reveal_strlit("unquote-splicing");
    }
    match token {
        Some(Token::Quote(_)) => {
            assert("quote"@ =~= quote_sym());
            Some("quote")
        },
        Some(Token::Quasiquote(_)) => {
            assert("quasiquote"@ =~= quasiquote_sym());
            Some("quasiquote")
        },
        Some(Token::Unquote(_)) => {
            assert("unquote"@ =~= unquote_sym());
            Some("unquote")
        },
        Some(Token::UnquoteSplicing(_)) => {
            assert("unquote-splicing"@ =~= unquote_splicing_sym());
            Some("unquote-splicing")
        },
        _ => None,
    }
}

impl Parser {
    /// The tokens added and not read yet, in order.
    pub closed spec fn pending(&self) -> Seq<TokenView> {
        self.tokens@.map_values(|t: Token| t@)
    }

    /// The stack of frames of the expression being read.
    pub closed spec fn stack(&self) -> Seq<CtxView> {
        self.contexts@.map_values(|c: ParseContext| ctx_view(c))
    }

    /// Every token that the parser holds has a span that fits in a machine word.
    pub open spec fn wf(&self) -> bool {
        &&& forall|i: int| 0 <= i < self.pending().len() ==> #[trigger] self.pending()[i].has_span()
        &&& forall|i: int|
            0 <= i < self.stack().len() ==> ((#[trigger] self.stack()[i]).token matches Some(t)
                ==> t.has_span())
    }

    /// A parser with no tokens.
    pub fn new() -> (p: Parser)
        ensures
            p.wf(),
            p.pending() == Seq::<TokenView>::empty(),
            p.stack() == Seq::<CtxView>::empty(),
    {
        let p = Parser { tokens: VecDeque::new(), contexts: Vec::new() };
        assert(p.pending() =~= Seq::<TokenView>::empty());
        assert(p.stack() =~= Seq::<CtxView>::empty());
        p
    }

    /// A parser with the tokens `tokens`.
    pub fn with_tokens(tokens: Vec<Token>) -> (p: Parser)
        requires
            forall|i: int| 0 <= i < tokens@.len() ==> #[trigger] tokens@[i]@.has_span(),
        ensures
            p.wf(),
            p.pending() == tokens@.map_values(|t: Token| t@),
            p.stack() == Seq::<CtxView>::empty(),
    {
        let mut parser = Parser::new();
        parser.add_tokens(tokens);
        assert(parser.pending() =~= tokens@.map_values(|t: Token| t@));
        parser
    }

    /// Tests whether an expression is being read, that is, whether some of its
    /// tokens have been read and it is not complete yet.
    pub fn is_parsing(&self) -> (b: bool)
        ensures
            b == (self.stack().len() > 0),
    {
        self.contexts.len() > 0
    }

    /// Drops the pending tokens and the expression being read.
    pub fn reset(&mut self)
        ensures
            final(self).wf(),
            final(self).pending() == Seq::<TokenView>::empty(),
            final(self).stack() == Seq::<CtxView>::empty(),
    {
        self.tokens.clear();
        self.contexts.clear();
        assert(self.pending() =~= Seq::<TokenView>::empty());
        assert(self.stack() =~= Seq::<CtxView>::empty());
    }

    /// Adds `tokens` after the pending ones.
    pub fn add_tokens(&mut self, tokens: Vec<Token>)
        requires
            old(self).wf(),
            forall|i: int| 0 <= i < tokens@.len() ==> #[trigger] tokens@[i]@.has_span(),
        ensures
            final(self).wf(),
            final(self).pending() == old(self).pending() + tokens@.map_values(|t: Token| t@),
            final(self).stack() == old(self).stack(),
    {
        let mut i: usize = 0;
        let mut tokens = tokens;
        let ghost all = tokens@;
        let mut rev: Vec<Token> = Vec::new();
        while tokens.len() > 0
            invariant
                tokens@.len() <= all.len(),
                tokens@ == all.subrange(0, tokens@.len() as int),
                rev@.len() + tokens@.len() == all.len(),
                forall|k: int| 0 <= k < rev@.len() ==> #[trigger] rev@[k] == all[all.len() - 1 - k],
            decreases tokens@.len(),
        {
            let t = tokens.pop().unwrap();
            rev.push(t);
        }
        let ghost pending0 = self.pending();
        while rev.len() > 0
            invariant
                self.wf(),
                self.stack() == old(self).stack(),
                self.pending() == old(self).pending() + all.subrange(0, all.len() - rev@.len()).map_values(|t: Token| t@),
                forall|k: int| 0 <= k < rev@.len() ==> #[trigger] rev@[k] == all[all.len() - 1 - k],
                rev@.len() <= all.len(),
                forall|k: int| 0 <= k < all.len() ==> #[trigger] all[k]@.has_span(),
            decreases rev@.len(),
        {
            let ghost n = rev@.len();
            let t = rev.pop().unwrap();
            let ghost before = self.pending();
            self.tokens.push_back(t);
            assert(self.pending() =~= before.push(t@));
            assert(all.subrange(0, all.len() - (n - 1)) =~= all.subrange(0, all.len() - n).push(all[all.len() - n]));
        }
        assert(all.subrange(0, all.len() as int) =~= all);
    }

    /// Pops the top frame, which `ctx` is.
    proof fn lemma_pop(&self, before: Seq<ParseContext>)
        requires
            before.len() > 0,
            self.contexts@ == before.subrange(0, before.len() - 1),
        ensures
            self.stack() == before.map_values(|c: ParseContext| ctx_view(c)).drop_last(),
    {
        assert(self.stack() =~= before.map_values(|c: ParseContext| ctx_view(c)).drop_last());
    }

    /// Closes the innermost open list on the `)` token `token` (see [`close`]).
    fn end_list(&mut self, token: Token) -> (r: Result<Expr, ParseError>)
        requires
            old(self).wf(),
            token@.has_span(),
        ensures
            final(self).wf(),
            final(self).pending() == old(self).pending(),
            (final(self).stack(), match r {
                Ok(e) => Ok(e@),
                Err(e) => Err(e@),
            }) == close(old(self).stack(), Seq::empty(), token@),
    {
        let ghost tok = token@;
        let ghost target = close(self.stack(), Seq::empty(), tok);
        let mut list = List::Nil;
        loop
            invariant
                self.wf(),
                self.pending() == old(self).pending(),
                token@ == tok,
                tok.has_span(),
                target == close(old(self).stack(), Seq::empty(), tok),
                close(self.stack(), list@, tok) == target,
            decreases self.contexts@.len(),
        {
            let ghost before = self.contexts@;
            let ghost stack0 = self.stack();
            match self.contexts.pop() {
                None => {
                    return Err(ParseError::UnexpectedToken(token));
                },
                Some(ctx) => {
                    proof {
                        self.lemma_pop(before);
                        assert(ctx_view(ctx) == stack0.last());
                        assert(forall|i: int| 0 <= i < self.stack().len() ==> #[trigger] self.stack()[i] == stack0[i]);
                    }
                    if quote_name_of(&ctx.token).is_some() {
                        return Err(ParseError::UnexpectedToken(token));
                    }
                    let ParseContext { token: ctx_token, car } = ctx;
                    match car {
                        Some(c) => {
                            list = cons(c, list);
                        },
                        None => {},
                    }
                    match ctx_token {
                        Some(bt) => {
                            assert(stack0.last().token == Some(bt@));
                            let span = Span { begin: bt.span().begin, end: token.span().end };
                            return Ok(Expr::List(list, Some(span)));
                        },
                        None => {},
                    }
                },
            }
        }
    }

    /// Places the finished expression `expr` on the stack (see [`place`]).
    fn place(&mut self, expr: Expr) -> (r: Option<Expr>)
        requires
            old(self).wf(),
        ensures
            final(self).wf(),
            final(self).pending() == old(self).pending(),
            (final(self).stack(), match r {
                Some(e) => Some(e@),
                None => None,
            }) == place(old(self).stack(), expr@),
    {
        let ghost target = place(self.stack(), expr@);
        let mut e = expr;
        loop
            invariant
                self.wf(),
                self.pending() == old(self).pending(),
                target == place(old(self).stack(), expr@),
                place(self.stack(), e@) == target,
            decreases self.contexts@.len(),
        {
            let n = self.contexts.len();
            if n == 0 {
                return Some(e);
            }
            let ghost before = self.contexts@;
            let ghost stack0 = self.stack();
            let ctx = self.contexts.pop().unwrap();
            proof {
                self.lemma_pop(before);
                assert(ctx_view(ctx) == stack0.last());
            }
            match quote_name_of(&ctx.token) {
                Some(q) => {
                    let items = cons(intern(q), cons(e, List::Nil));
                    assert(items@ =~= seq![ExprView::Sym(q@, None), e@]);
                    e = Expr::List(items, None);
                },
                None => {
                    let ghost ev = e@;
                    let ghost top = ctx_view(ctx);
                    let ParseContext { token, car } = ctx;
                    if car.is_none() {
                        self.contexts.push(ParseContext { token, car: Some(e) });
                        assert(self.stack() =~= stack0.drop_last().push(
                            CtxView { token: top.token, car: Some(ev) },
                        ));
                        return None;
                    } else {
                        self.contexts.push(ParseContext { token, car });
                        assert(self.stack() =~= stack0);
                        self.contexts.push(ParseContext { token: None, car: Some(e) });
                        assert(self.stack() =~= stack0.push(CtxView { token: None, car: Some(ev) }));
                        return None;
                    }
                },
            }
        }
    }

    /// Reads the next expression from the pending tokens (see [`run`]).
    ///
    /// Gives `Ok(Some(expr))` for a complete expression, `Ok(None)` when no token is
    /// pending and no expression is open, `Err(NeedMoreToken)` when the tokens run
    /// out in the middle of an expression (which stays open: adding tokens and
    /// parsing again goes on with it), and `Err(UnexpectedToken(t))` for a stray `)`.
    pub fn parse(&mut self) -> (r: Result<Option<Expr>, ParseError>)
        requires
            old(self).wf(),
        ensures
            final(self).wf(),
            (outcome_view(r), final(self).pending(), final(self).stack()) == run(
                old(self).pending(),
                old(self).stack(),
            ),
    {
        let ghost target = run(self.pending(), self.stack());
        loop
            invariant
                self.wf(),
                target == run(old(self).pending(), old(self).stack()),
                run(self.pending(), self.stack()) == target,
            decreases self.tokens@.len(),
        {
            let ghost pending0 = self.pending();
            let ghost stack0 = self.stack();
            let next = self.tokens.pop_front();
            let token = match next {
                None => {
                    return if self.contexts.len() > 0 {
                        Err(ParseError::NeedMoreToken)
                    } else {
                        Ok(None)
                    };
                },
                Some(t) => t,
            };
            proof {
                assert(self.pending() =~= pending0.drop_first());
                assert(token@ == pending0[0]);
                assert(forall|i: int| 0 <= i < self.pending().len() ==> #[trigger] self.pending()[i] == pending0[i + 1]);
            }
            let opener = match &token {
                Token::OpenParen(_) | Token::Quote(_) | Token::Quasiquote(_) | Token::Unquote(_)
                | Token::UnquoteSplicing(_) => true,
                _ => false,
            };
            if opener {
                let ghost tv = token@;
                self.contexts.push(ParseContext { token: Some(token), car: None });
                assert(self.stack() =~= stack0.push(CtxView { token: Some(tv), car: None }));
                continue;
            }
            let expr = match token {
                Token::CloseParen(loc) => match self.end_list(Token::CloseParen(loc)) {
                    Ok(e) => e,
                    Err(e) => {
                        return Err(e);
                    },
                },
                Token::Sym(name, span) => Expr::Sym(name, Some(span)),
                Token::Str(text, span) => Expr::Str(text, Some(span)),
                Token::Num(value, span) => Expr::Num(value, Some(span)),
                _ => Expr::nil(),
            };
            match self.place(expr) {
                Some(e) => {
                    return Ok(Some(e));
                },
                None => {},
            }
        }
    }
}

} // verus!

verus! {

// ---------------------------------------------------------------------------
// Reading back the tokens of an expression.
// ---------------------------------------------------------------------------

/// The location that [`tokens_of`] gives its tokens.
pub open spec fn start_loc() -> Loc {
    Loc { line: 0, column: 0 }
}

/// The one-column span at [`start_loc`].
pub open spec fn start_span() -> Span {
    Span { begin: start_loc(), end: Loc { line: 0, column: 1 } }
}

/// The tokens that spell `e`: its atoms, and `(`, the tokens of the elements, `)`
/// for a list; every token is placed at the start of the source.
pub open spec fn tokens_of(e: ExprView) -> Seq<TokenView>
    decreases e,
{
    match e {
        ExprView::Num(t, _) => seq![TokenView::Num(t, start_span())],
        ExprView::Str(t, _) => seq![TokenView::Str(t, start_span())],
        ExprView::Sym(t, _) => seq![TokenView::Sym(t, start_span())],
        ExprView::List(items, _) => seq![TokenView::OpenParen(start_loc())] + items_tokens(items)
            + seq![TokenView::CloseParen(start_loc())],
        _ => Seq::empty(),
    }
}

/// The tokens of the expressions of `items`, one after the other.
pub open spec fn items_tokens(items: Seq<ExprView>) -> Seq<TokenView>
    decreases items,
{
    if items.len() == 0 {
        Seq::empty()
    } else {
        tokens_of(items[0]) + items_tokens(items.drop_first())
    }
}

/// `e` with every region of the source set to [`start_span`]: what the parser
/// builds from [`tokens_of`]`(e)`.
pub open spec fn respan(e: ExprView) -> ExprView
    decreases e,
{
    match e {
        ExprView::Num(t, _) => ExprView::Num(t, Some(start_span())),
        ExprView::Str(t, _) => ExprView::Str(t, Some(start_span())),
        ExprView::Sym(t, _) => ExprView::Sym(t, Some(start_span())),
        ExprView::List(items, _) => ExprView::List(respan_items(items), Some(start_span())),
        _ => e,
    }
}

/// The elements with their regions set as [`respan`] does.
pub open spec fn respan_items(items: Seq<ExprView>) -> Seq<ExprView>
    decreases items,
{
    if items.len() == 0 {
        Seq::empty()
    } else {
        seq![respan(items[0])] + respan_items(items.drop_first())
    }
}

/// The frames of an open list whose elements so far are `acc`.
pub open spec fn open_frames(acc: Seq<ExprView>) -> Seq<CtxView> {
    seq![
        CtxView {
            token: Some(TokenView::OpenParen(start_loc())),
            car: if acc.len() > 0 {
                Some(acc[0])
            } else {
                None
            },
        },
    ] + Seq::new(
        (if acc.len() > 0 {
            acc.len() - 1
        } else {
            0
        }) as nat,
        |i: int| CtxView { token: None, car: Some(acc[i + 1]) },
    )
}

/// What the parser does once it has finished `x` with the stack `ctxs` and the
/// tokens `rest` after it.
pub open spec fn go_on(rest: Seq<TokenView>, ctxs: Seq<CtxView>, x: ExprView) -> (
    ParseOutcome,
    Seq<TokenView>,
    Seq<CtxView>,
) {
    let (c2, done) = place(ctxs, x);
    match done {
        Some(y) => (Ok(Some(y)), rest, c2),
        None => run(rest, c2),
    }
}

proof fn lemma_close_frames(ctxs: Seq<CtxView>, acc: Seq<ExprView>, suffix: Seq<ExprView>)
    ensures
        close(ctxs + open_frames(acc), suffix, TokenView::CloseParen(start_loc())) == (
            ctxs,
            Ok::<ExprView, ParseErrorView>(ExprView::List(acc + suffix, Some(start_span()))),
        ),
    decreases acc.len(),
{
    let tok = TokenView::CloseParen(start_loc());
    let s = ctxs + open_frames(acc);
    if acc.len() <= 1 {
        assert(s.drop_last() =~= ctxs);
        if acc.len() == 0 {
            assert(acc + suffix =~= suffix);
        } else {
            assert(acc + suffix =~= seq![acc[0]] + suffix);
        }
    } else {
        let shorter = acc.drop_last();
        assert(s.drop_last() =~= ctxs + open_frames(shorter));
        assert(s.last() == CtxView { token: None, car: Some(acc.last()) });
        lemma_close_frames(ctxs, shorter, seq![acc.last()] + suffix);
        assert(shorter + (seq![acc.last()] + suffix) =~= acc + suffix);
    }
}

proof fn lemma_place_in_frames(ctxs: Seq<CtxView>, acc: Seq<ExprView>, x: ExprView)
    ensures
        place(ctxs + open_frames(acc), x) == (ctxs + open_frames(acc.push(x)), None::<ExprView>),
{
    let s = ctxs + open_frames(acc);
    if acc.len() == 0 {
        assert(s.drop_last() =~= ctxs);
        assert(s.drop_last().push(CtxView { token: s.last().token, car: Some(x) }) =~= ctxs
            + open_frames(acc.push(x)));
    } else {
        assert(s.push(CtxView { token: None, car: Some(x) }) =~= ctxs + open_frames(acc.push(x)));
    }
}

proof fn lemma_read_expr(e: ExprView, rest: Seq<TokenView>, ctxs: Seq<CtxView>)
    requires
        readable(e),
    ensures
        run(tokens_of(e) + rest, ctxs) == go_on(rest, ctxs, respan(e)),
    decreases e, 1nat,
{
    match e {
        ExprView::List(items, _) => {
            let op = TokenView::OpenParen(start_loc());
            let cp = TokenView::CloseParen(start_loc());
            let all = tokens_of(e) + rest;
            assert(all =~= seq![op] + (items_tokens(items) + (seq![cp] + rest)));
            assert(all.drop_first() =~= items_tokens(items) + (seq![cp] + rest));
            assert(ctxs.push(CtxView { token: Some(op), car: None }) =~= ctxs + open_frames(
                Seq::empty(),
            ));
            lemma_read_items(items, seq![cp] + rest, ctxs, Seq::empty());
            assert(Seq::<ExprView>::empty() + respan_items(items) =~= respan_items(items));
            lemma_close_frames(ctxs, respan_items(items), Seq::empty());
            assert(respan_items(items) + Seq::<ExprView>::empty() =~= respan_items(items));
            assert((seq![cp] + rest).drop_first() =~= rest);
        },
        _ => {
            let all = tokens_of(e) + rest;
            assert(all.drop_first() =~= rest);
        },
    }
}

proof fn lemma_read_items(
    items: Seq<ExprView>,
    rest: Seq<TokenView>,
    ctxs: Seq<CtxView>,
    acc: Seq<ExprView>,
)
    requires
        readable_items(items),
    ensures
        run(items_tokens(items) + rest, ctxs + open_frames(acc)) == run(
            rest,
            ctxs + open_frames(acc + respan_items(items)),
        ),
    decreases items, 0nat,
{
    if items.len() == 0 {
        assert(items_tokens(items) + rest =~= rest);
        assert(acc + respan_items(items) =~= acc);
    } else {
        let x = items[0];
        let more = items.drop_first();
        assert(items_tokens(items) + rest =~= tokens_of(x) + (items_tokens(more) + rest));
        lemma_read_expr(x, items_tokens(more) + rest, ctxs + open_frames(acc));
        lemma_place_in_frames(ctxs, acc, respan(x));
        lemma_read_items(more, rest, ctxs, acc.push(respan(x)));
        assert(acc.push(respan(x)) + respan_items(more) =~= acc + respan_items(items));
    }
}

/// Reading back: a parser with no open expression reads the tokens that spell an
/// expression `e` as `e` (with the regions of its tokens), and leaves the tokens
/// after them pending. (A procedure or foreign value has no tokens.)
pub proof fn lemma_parse_tokens_of(e: ExprView, rest: Seq<TokenView>)
    requires
        readable(e),
    ensures
        run(tokens_of(e) + rest, Seq::empty()) == (
            Ok::<Option<ExprView>, ParseErrorView>(Some(respan(e))),
            rest,
            Seq::<CtxView>::empty(),
        ),
{
    lemma_read_expr(e, rest, Seq::empty());
}

/// A quote mark reads as its form around the expression that follows it, wherever
/// it stands: with any frames `ctxs` open (at the top level or inside lists and
/// other quote marks), reading a quote mark `q` and then the tokens that spell a
/// readable `e` goes on exactly as finishing the two-element list `(name e)` there
/// would, `name` being the symbol that `q` stands for (`quote` for `'`, `quasiquote`
/// for a backquote, `unquote` for `,` and `unquote-splicing` for `,@`).
pub proof fn lemma_parse_quote_mark(q: TokenView, e: ExprView, rest: Seq<TokenView>, ctxs: Seq<CtxView>)
    requires
        readable(e),
        quote_name(Some(q)) is Some,
    ensures
        run(seq![q] + tokens_of(e) + rest, ctxs) == go_on(
            rest,
            ctxs,
            ExprView::List(seq![ExprView::Sym(quote_name(Some(q))->Some_0, None), respan(e)], None),
        ),
        q is Quote ==> quote_name(Some(q)) == Some(seq!['q', 'u', 'o', 't', 'e']),
{
    let all = seq![q] + tokens_of(e) + rest;
    assert(all[0] == q);
    assert(all.drop_first() =~= tokens_of(e) + rest);
    let frames = ctxs.push(CtxView { token: Some(q), car: None });
    lemma_read_expr(e, rest, frames);
    assert(frames.drop_last() =~= ctxs);
}

} // verus!

verus! {

proof fn lemma_close_error(ctxs: Seq<CtxView>, items: Seq<ExprView>, tok: TokenView)
    ensures
        close(ctxs, items, tok).1 is Err ==> close(ctxs, items, tok).1
            == Err::<ExprView, ParseErrorView>(ParseErrorView::UnexpectedToken(tok)),
    decreases ctxs.len(),
{
    if ctxs.len() > 0 {
        let top = ctxs.last();
        if quote_name(top.token) is None && top.token is None {
            let items2 = match top.car {
                Some(c) => seq![c] + items,
                None => items,
            };
            lemma_close_error(ctxs.drop_last(), items2, tok);
        }
    }
}

/// An expression may be read across several additions of tokens: when the tokens
/// read so far leave an expression open (the parse asks for more tokens), parsing
/// the tokens that come next with the stack left behind has the same outcome, and
/// leaves the same tokens and stack, as parsing all the tokens at once.
pub proof fn lemma_parse_resumes(ts1: Seq<TokenView>, ts2: Seq<TokenView>, ctxs: Seq<CtxView>)
    requires
        run(ts1, ctxs).0 == Err::<Option<ExprView>, ParseErrorView>(ParseErrorView::NeedMoreToken),
    ensures
        run(ts2, run(ts1, ctxs).2) == run(ts1 + ts2, ctxs),
    decreases ts1.len(),
{
    if ts1.len() == 0 {
        assert(ts1 + ts2 =~= ts2);
    } else {
        let t = ts1[0];
        assert((ts1 + ts2)[0] == t);
        assert((ts1 + ts2).drop_first() =~= ts1.drop_first() + ts2);
        if is_opener(t) {
            lemma_parse_resumes(ts1.drop_first(), ts2, ctxs.push(CtxView { token: Some(t), car: None }));
        } else {
            if t is CloseParen {
                lemma_close_error(ctxs, Seq::empty(), t);
            }
            let (c1, r1) = if t is CloseParen {
                close(ctxs, Seq::empty(), t)
            } else {
                (ctxs, Ok(atom_of(t)))
            };
            match r1 {
                Err(e) => {},
                Ok(e) => {
                    let (c2, done) = place(c1, e);
                    if done is None {
                        lemma_parse_resumes(ts1.drop_first(), ts2, c2);
                    }
                },
            }
        }
    }
}

} // verus!
