//! Reading back what is printed: the text of an expression, tokenized and parsed,
//! gives the expression again, located where its text stands.

use vstd::prelude::*;
use crate::expr::{items_text, readable, readable_items, text, ExprView};
use crate::lexer::{
    advance, is_number_literal, lemma_lex_progress, lex, read_string, skip_blank, tokens_from, word_end,
    LexError,
};
use crate::parser::{close, go_on, place, respan, respan_items, run, CtxView};
use crate::span::{Loc, Span};
use crate::text::{spec_is_delimiter, spec_is_digit, spec_is_whitespace};
use crate::token::TokenView;

verus! {

/// The location `n` columns to the right of `loc`, on its line.
pub open spec fn after(loc: Loc, n: nat) -> Loc {
    Loc { line: loc.line, column: (loc.column + n) as usize }
}

/// The tokens that the text of `e` gives when its first character is at `loc`:
/// those of [`crate::parser::tokens_of`], each located where it stands in the text.
pub open spec fn tokens_at(e: ExprView, loc: Loc) -> Seq<TokenView>
    decreases e,
{
    match e {
        ExprView::Num(t, _) => seq![TokenView::Num(t, Span { begin: loc, end: after(loc, t.len()) })],
        ExprView::Str(t, _) => seq![TokenView::Str(t, Span { begin: loc, end: after(loc, t.len() + 2) })],
        ExprView::Sym(t, _) => seq![TokenView::Sym(t, Span { begin: loc, end: after(loc, t.len()) })],
        ExprView::List(items, _) => seq![TokenView::OpenParen(loc)] + items_tokens_at(items, after(loc, 1))
            + seq![TokenView::CloseParen(after(loc, 1 + items_text(items).len()))],
        _ => Seq::empty(),
    }
}

/// The tokens of the texts of `items`, separated by single spaces, the first of
/// which is at `loc`.
pub open spec fn items_tokens_at(items: Seq<ExprView>, loc: Loc) -> Seq<TokenView>
    decreases items,
{
    if items.len() == 0 {
        Seq::empty()
    } else {
        tokens_at(items[0], loc) + items_tokens_at(items.drop_first(), after(loc, text(items[0]).len() + 1))
    }
}

/// `e` as the parser reads it from [`tokens_at`]`(e, loc)`: each part carries the
/// region of the text it was read from.
pub open spec fn read_at(e: ExprView, loc: Loc) -> ExprView
    decreases e,
{
    match e {
        ExprView::Num(t, _) => ExprView::Num(t, Some(Span { begin: loc, end: after(loc, t.len()) })),
        ExprView::Str(t, _) => ExprView::Str(t, Some(Span { begin: loc, end: after(loc, t.len() + 2) })),
        ExprView::Sym(t, _) => ExprView::Sym(t, Some(Span { begin: loc, end: after(loc, t.len()) })),
        ExprView::List(items, _) => ExprView::List(
            read_items_at(items, after(loc, 1)),
            Some(
                Span {
                    begin: loc,
                    end: TokenView::CloseParen(after(loc, 1 + items_text(items).len())).span().end,
                },
            ),
        ),
        _ => e,
    }
}

/// The elements of a list as [`read_at`] reads them, the first at `loc`.
pub open spec fn read_items_at(items: Seq<ExprView>, loc: Loc) -> Seq<ExprView>
    decreases items,
{
    if items.len() == 0 {
        Seq::empty()
    } else {
        seq![read_at(items[0], loc)] + read_items_at(items.drop_first(), after(loc, text(items[0]).len() + 1))
    }
}

/// The frames of a list opened by the token `op`, whose elements so far are `acc`.
spec fn frames_from(op: TokenView, acc: Seq<ExprView>) -> Seq<CtxView> {
    seq![
        CtxView {
            token: Some(op),
            car: if acc.len() > 0 {
                Some(acc[0])
            } else {
                None
            },
        },
    ] + Seq::new(
        (if acc.len() > 0 {
            acc.len() - 1
        } else {
            0
        }) as nat,
        |i: int| CtxView { token: None, car: Some(acc[i + 1]) },
    )
}

proof fn lemma_close_frames_from(
    ctxs: Seq<CtxView>,
    op: TokenView,
    acc: Seq<ExprView>,
    suffix: Seq<ExprView>,
    cp: TokenView,
)
    requires
        op is OpenParen,
    ensures
        close(ctxs + frames_from(op, acc), suffix, cp) == (
            ctxs,
            Ok::<ExprView, crate::parser::ParseErrorView>(
                ExprView::List(acc + suffix, Some(Span { begin: op.span().begin, end: cp.span().end })),
            ),
        ),
    decreases acc.len(),
{
    let s = ctxs + frames_from(op, acc);
    if acc.len() <= 1 {
        assert(s.drop_last() =~= ctxs);
        if acc.len() == 0 {
            assert(acc + suffix =~= suffix);
        } else {
            assert(acc + suffix =~= seq![acc[0]] + suffix);
        }
    } else {
        let shorter = acc.drop_last();
        assert(s.drop_last() =~= ctxs + frames_from(op, shorter));
        assert(s.last() == CtxView { token: None, car: Some(acc.last()) });
        lemma_close_frames_from(ctxs, op, shorter, seq![acc.last()] + suffix, cp);
        assert(shorter + (seq![acc.last()] + suffix) =~= acc + suffix);
    }
}

proof fn lemma_place_in_frames_from(ctxs: Seq<CtxView>, op: TokenView, acc: Seq<ExprView>, x: ExprView)
    requires
        op is OpenParen,
    ensures
        place(ctxs + frames_from(op, acc), x) == (ctxs + frames_from(op, acc.push(x)), None::<ExprView>),
{
    let s = ctxs + frames_from(op, acc);
    if acc.len() == 0 {
        assert(s.drop_last() =~= ctxs);
        assert(s.drop_last().push(CtxView { token: s.last().token, car: Some(x) }) =~= ctxs
            + frames_from(op, acc.push(x)));
    } else {
        assert(s.push(CtxView { token: None, car: Some(x) }) =~= ctxs + frames_from(op, acc.push(x)));
    }
}

proof fn lemma_parse_at(e: ExprView, loc: Loc, rest: Seq<TokenView>, ctxs: Seq<CtxView>)
    requires
        readable(e),
    ensures
        run(tokens_at(e, loc) + rest, ctxs) == go_on(rest, ctxs, read_at(e, loc)),
    decreases e, 1nat,
{
    match e {
        ExprView::List(items, _) => {
            let op = TokenView::OpenParen(loc);
            let cp = TokenView::CloseParen(after(loc, 1 + items_text(items).len()));
            let inner = items_tokens_at(items, after(loc, 1));
            let all = tokens_at(e, loc) + rest;
            assert(all =~= seq![op] + (inner + (seq![cp] + rest)));
            assert(all.drop_first() =~= inner + (seq![cp] + rest));
            assert(ctxs.push(CtxView { token: Some(op), car: None }) =~= ctxs + frames_from(
                op,
                Seq::empty(),
            ));
            lemma_parse_items_at(items, after(loc, 1), seq![cp] + rest, ctxs, op, Seq::empty());
            let xs = read_items_at(items, after(loc, 1));
            assert(Seq::<ExprView>::empty() + xs =~= xs);
            lemma_close_frames_from(ctxs, op, xs, Seq::empty(), cp);
            assert(xs + Seq::<ExprView>::empty() =~= xs);
            assert((seq![cp] + rest).drop_first() =~= rest);
        },
        _ => {
            let all = tokens_at(e, loc) + rest;
            assert(all.drop_first() =~= rest);
        },
    }
}

proof fn lemma_parse_items_at(
    items: Seq<ExprView>,
    loc: Loc,
    rest: Seq<TokenView>,
    ctxs: Seq<CtxView>,
    op: TokenView,
    acc: Seq<ExprView>,
)
    requires
        readable_items(items),
        op is OpenParen,
    ensures
        run(items_tokens_at(items, loc) + rest, ctxs + frames_from(op, acc)) == run(
            rest,
            ctxs + frames_from(op, acc + read_items_at(items, loc)),
        ),
    decreases items, 0nat,
{
    if items.len() == 0 {
        assert(items_tokens_at(items, loc) + rest =~= rest);
        assert(acc + read_items_at(items, loc) =~= acc);
    } else {
        let x = items[0];
        let more = items.drop_first();
        let next = after(loc, text(x).len() + 1);
        assert(items_tokens_at(items, loc) + rest =~= tokens_at(x, loc) + (items_tokens_at(more, next) + rest));
        lemma_parse_at(x, loc, items_tokens_at(more, next) + rest, ctxs + frames_from(op, acc));
        lemma_place_in_frames_from(ctxs, op, acc, read_at(x, loc));
        lemma_parse_items_at(more, next, rest, ctxs, op, acc.push(read_at(x, loc)));
        assert(acc.push(read_at(x, loc)) + read_items_at(more, next) =~= acc + read_items_at(items, loc));
    }
}

proof fn lemma_read_at_respan(e: ExprView, loc: Loc)
    ensures
        respan(read_at(e, loc)) == respan(e),
    decreases e, 1nat,
{
    if let ExprView::List(items, _) = e {
        lemma_read_items_at_respan(items, after(loc, 1));
    }
}

proof fn lemma_read_items_at_respan(items: Seq<ExprView>, loc: Loc)
    ensures
        respan_items(read_items_at(items, loc)) == respan_items(items),
    decreases items, 0nat,
{
    if items.len() > 0 {
        let more = items.drop_first();
        let next = after(loc, text(items[0]).len() + 1);
        lemma_read_at_respan(items[0], loc);
        lemma_read_items_at_respan(more, next);
        let r = read_items_at(items, loc);
        assert(r[0] == read_at(items[0], loc));
        assert(r.drop_first() =~= read_items_at(more, next));
    }
}

/// A symbol whose printed name reads back as that symbol: not empty, no delimiter
/// in it, and a first character that starts no other token (not white space, a
/// quote mark or a comma, not a digit, not a sign followed by a digit).
pub open spec fn printable_sym(t: Seq<char>) -> bool {
    &&& t.len() > 0
    &&& forall|i: int| 0 <= i < t.len() ==> !spec_is_delimiter(#[trigger] t[i])
    &&& !spec_is_whitespace(t[0])
    &&& t[0] != '`' && t[0] != ','
    &&& !spec_is_digit(t[0])
    &&& !((t[0] == '+' || t[0] == '-') && t.len() > 1 && spec_is_digit(t[1]))
}

/// A number whose text reads back as that number: a literal, or `-` and a literal
/// (see [`is_number_literal`]; no delimiter occurs in such a text).
pub open spec fn printable_num(t: Seq<char>) -> bool {
    &&& is_number_literal(t) || (t.len() > 0 && t[0] == '-' && is_number_literal(t.drop_first()))
    &&& forall|i: int| 0 <= i < t.len() ==> !spec_is_delimiter(#[trigger] t[i])
}

/// A string whose printed text reads back as that string: no `"`, backslash or
/// line end in it.
pub open spec fn printable_str(t: Seq<char>) -> bool {
    forall|i: int| 0 <= i < t.len() ==> #[trigger] t[i] != '"' && t[i] != '\\' && t[i] != '\n'
}

/// An expression whose text reads back as itself: a list of such expressions, or a
/// number, string or symbol whose text does.
pub open spec fn printable(e: ExprView) -> bool
    decreases e,
{
    match e {
        ExprView::Num(t, _) => printable_num(t),
        ExprView::Str(t, _) => printable_str(t),
        ExprView::Sym(t, _) => printable_sym(t),
        ExprView::List(items, _) => printable_items(items),
        _ => false,
    }
}

/// Every element of `items` is [`printable`].
pub open spec fn printable_items(items: Seq<ExprView>) -> bool
    decreases items,
{
    items.len() == 0 || (printable(items[0]) && printable_items(items.drop_first()))
}

proof fn lemma_printable_readable(e: ExprView)
    requires
        printable(e),
    ensures
        readable(e),
    decreases e, 1nat,
{
    if let ExprView::List(items, _) = e {
        lemma_printable_items_readable(items);
    }
}

proof fn lemma_printable_items_readable(items: Seq<ExprView>)
    requires
        printable_items(items),
    ensures
        readable_items(items),
    decreases items, 0nat,
{
    if items.len() > 0 {
        lemma_printable_readable(items[0]);
        lemma_printable_items_readable(items.drop_first());
    }
}

/// The tokens `ts` followed by those of `r`, or the error of `r`.
spec fn prepend(ts: Seq<TokenView>, r: Result<Seq<TokenView>, LexError>) -> Result<Seq<TokenView>, LexError> {
    match r {
        Err(x) => Err(x),
        Ok(us) => Ok(ts + us),
    }
}

proof fn lemma_prepend_prepend(a: Seq<TokenView>, b: Seq<TokenView>, r: Result<Seq<TokenView>, LexError>)
    ensures
        prepend(a, prepend(b, r)) == prepend(a + b, r),
{
    if let Ok(us) = r {
        assert(a + (b + us) =~= (a + b) + us);
    }
}

/// The text ends at `q`: the input ends there or a space or `)` follows.
spec fn ends_word(s: Seq<char>, q: int) -> bool {
    q == s.len() || (0 <= q < s.len() && (s[q] == ' ' || s[q] == ')'))
}

proof fn lemma_word_end_at(s: Seq<char>, from: int, end: int)
    requires
        0 <= from <= end,
        ends_word(s, end),
        forall|k: int| from <= k < end ==> !spec_is_delimiter(#[trigger] s[k]),
    ensures
        word_end(s, from) == end,
    decreases end - from,
{
    if from < end {
        lemma_word_end_at(s, from + 1, end);
    }
}

proof fn lemma_read_plain_string(s: Seq<char>, q: int, l: Loc, b: Loc, text: Seq<char>, n: nat)
    requires
        0 <= q,
        q + n < s.len(),
        forall|k: int| q <= k < q + n ==> #[trigger] s[k] != '"' && s[k] != '\\' && s[k] != '\n',
        s[q + n] == '"',
        l.column + n + 1 <= usize::MAX,
    ensures
        read_string(s, q, l, b, text, false) == (
            Ok::<Option<TokenView>, LexError>(
                Some(TokenView::Str(text + s.subrange(q, q + n), Span { begin: b, end: after(l, n + 1) })),
            ),
            q + n + 1,
            after(l, n + 1),
        ),
    decreases n,
{
    if n == 0 {
        assert(text + s.subrange(q, q) =~= text);
    } else {
        let c = s[q];
        assert(advance(l, c) == after(l, 1));
        lemma_read_plain_string(s, q + 1, after(l, 1), b, text.push(c), (n - 1) as nat);
        assert(text.push(c) + s.subrange(q + 1, q + n) =~= text + s.subrange(q, q + n));
        assert(after(after(l, 1), n) == after(l, n + 1));
    }
}

proof fn lemma_tokens_from_space(s: Seq<char>, p: int, l: Loc)
    requires
        0 <= p < s.len(),
        s[p] == ' ',
    ensures
        tokens_from(s, p, l) == tokens_from(s, p + 1, advance(l, ' ')),
{
    assert(skip_blank(s, p, l, false) == skip_blank(s, p + 1, advance(l, ' '), false));
    assert(lex(s, p, l) == lex(s, p + 1, advance(l, ' ')));
    lemma_lex_progress(s, p + 1, advance(l, ' '));
}

#[verifier::rlimit(40)]
proof fn lemma_lex_at(e: ExprView, s: Seq<char>, pos: int, loc: Loc)
    requires
        printable(e),
        0 <= pos,
        pos + text(e).len() <= s.len(),
        s.subrange(pos, pos + text(e).len()) == text(e),
        ends_word(s, pos + text(e).len()),
        loc.column + (s.len() - pos) <= usize::MAX,
    ensures
        tokens_from(s, pos, loc) == prepend(
            tokens_at(e, loc),
            tokens_from(s, pos + text(e).len(), after(loc, text(e).len())),
        ),
    decreases e, 1nat,
{
    let n = text(e).len();
    assert(s[pos] == text(e)[0]);
    match e {
        ExprView::Sym(t, _) => {
            assert forall|k: int| pos + 1 <= k < pos + n implies !spec_is_delimiter(#[trigger] s[k]) by {
                assert(s[k] == t[k - pos]);
            }
            lemma_word_end_at(s, pos + 1, pos + n);
            if n > 1 {
                assert(s[pos + 1] == t[1]);
            }
            assert(s.subrange(pos, pos + n) == t);
        },
        ExprView::Num(t, _) => {
            assert forall|k: int| pos + 1 <= k < pos + n implies !spec_is_delimiter(#[trigger] s[k]) by {
                assert(s[k] == t[k - pos]);
            }
            lemma_word_end_at(s, pos + 1, pos + n);
            if is_number_literal(t) {
                assert(s.subrange(pos, pos + n) == t);
            } else {
                assert(s[pos + 1] == t.drop_first()[0]);
                assert(s.subrange(pos + 1, pos + n) =~= t.drop_first());
                assert(seq!['-'] + t.drop_first() =~= t);
            }
        },
        ExprView::Str(t, _) => {
            assert forall|k: int| pos + 1 <= k < pos + 1 + t.len() implies #[trigger] s[k] != '"' && s[k]
                != '\\' && s[k] != '\n' by {
                assert(s[k] == text(e)[k - pos]);
                assert(text(e)[k - pos] == t[k - pos - 1]);
            }
            assert(n == t.len() + 2);
            assert(s[pos + 1 + t.len()] == text(e)[t.len() + 1int]);
            assert(advance(loc, '"') == after(loc, 1));
            lemma_read_plain_string(s, pos + 1, after(loc, 1), loc, Seq::empty(), t.len());
            assert(s.subrange(pos + 1, pos + 1 + t.len()) =~= t) by {
                assert forall|i: int| 0 <= i < t.len() implies s.subrange(pos + 1, pos + 1 + t.len())[i] == t[i] by {
                    assert(s[pos + 1 + i] == text(e)[1 + i]);
                }
            }
            assert(Seq::<char>::empty() + t =~= t);
            assert(after(after(loc, 1), t.len() + 1) == after(loc, n));
        },
        ExprView::List(items, _) => {
            let m = items_text(items).len();
            let l1 = after(loc, 1);
            assert(advance(loc, '(') == l1);
            assert(s.subrange(pos + 1, pos + 1 + m) =~= items_text(items)) by {
                assert forall|k: int| 0 <= k < m implies s.subrange(pos + 1, pos + 1 + m)[k] == items_text(items)[k] by {
                    assert(s[pos + 1 + k] == text(e)[k + 1]);
                }
            }
            assert(s[pos + 1 + m] == text(e)[m + 1int]);
            lemma_lex_items_at(items, s, pos + 1, l1);
            let lc = after(l1, m);
            assert(lc == after(loc, 1 + m));
            assert(advance(lc, ')') == after(loc, n));
            assert(skip_blank(s, pos + 1 + m, lc, false) == (pos + 1 + m, lc));
            lemma_lex_progress(s, pos + n, after(loc, n));
            let cp = TokenView::CloseParen(lc);
            assert(tokens_from(s, pos + 1 + m, lc) == prepend(seq![cp], tokens_from(s, pos + n, after(loc, n))));
            lemma_prepend_prepend(items_tokens_at(items, l1), seq![cp], tokens_from(s, pos + n, after(loc, n)));
            lemma_prepend_prepend(
                seq![TokenView::OpenParen(loc)],
                items_tokens_at(items, l1) + seq![cp],
                tokens_from(s, pos + n, after(loc, n)),
            );
            assert(seq![TokenView::OpenParen(loc)] + (items_tokens_at(items, l1) + seq![cp]) =~= tokens_at(e, loc));
        },
        _ => {},
    }
    lemma_lex_progress(s, pos, loc);
}

proof fn lemma_lex_items_at(items: Seq<ExprView>, s: Seq<char>, pos: int, loc: Loc)
    requires
        printable_items(items),
        0 <= pos,
        pos + items_text(items).len() <= s.len(),
        s.subrange(pos, pos + items_text(items).len()) == items_text(items),
        ends_word(s, pos + items_text(items).len()),
        loc.column + (s.len() - pos) <= usize::MAX,
    ensures
        tokens_from(s, pos, loc) == prepend(
            items_tokens_at(items, loc),
            tokens_from(s, pos + items_text(items).len(), after(loc, items_text(items).len())),
        ),
    decreases items, 0nat,
{
    let m = items_text(items).len();
    if items.len() == 0 {
        assert(after(loc, 0) == loc);
        if let Ok(us) = tokens_from(s, pos, loc) {
            assert(Seq::<TokenView>::empty() + us =~= us);
        }
    } else {
        let x = items[0];
        let more = items.drop_first();
        let k = text(x).len();
        assert(s.subrange(pos, pos + k) =~= text(x)) by {
            assert forall|i: int| 0 <= i < k implies s.subrange(pos, pos + k)[i] == text(x)[i] by {
                assert(s[pos + i] == items_text(items)[i]);
            }
        }
        if items.len() == 1 {
            lemma_lex_at(x, s, pos, loc);
            assert(more.len() == 0);
            assert(items_text(items) == text(x));
            assert(items_tokens_at(more, after(loc, k + 1)) == Seq::<TokenView>::empty());
            assert(items_tokens_at(items, loc) == tokens_at(x, loc) + items_tokens_at(more, after(loc, k + 1)));
            assert(items_tokens_at(items, loc) =~= tokens_at(x, loc));
        } else {
            let m2 = items_text(more).len();
            assert(items_text(items) == text(x) + seq![' '] + items_text(more));
            assert(m == k + 1 + m2);
            assert(s[pos + k] == items_text(items)[k as int]);
            lemma_lex_at(x, s, pos, loc);
            let lk = after(loc, k);
            lemma_tokens_from_space(s, pos + k, lk);
            let next = after(loc, k + 1);
            assert(advance(lk, ' ') == next);
            assert(s.subrange(pos + k + 1, pos + m) =~= items_text(more)) by {
                assert forall|i: int| 0 <= i < m2 implies s.subrange(pos + k + 1, pos + m)[i] == items_text(more)[i] by {
                    assert(s[pos + k + 1 + i] == items_text(items)[k + 1 + i]);
                }
            }
            lemma_lex_items_at(more, s, pos + k + 1, next);
            assert(after(next, m2) == after(loc, m));
            lemma_prepend_prepend(tokens_at(x, loc), items_tokens_at(more, next), tokens_from(s, pos + m, after(loc, m)));
        }
    }
}

/// Printing and reading back: the text of a [`printable`] expression `e`, tokenized
/// from the location `loc` (see [`tokens_from`]), gives the tokens that spell `e`,
/// located where they stand in the text, and parsing them (see [`run`]) reads one
/// expression, with no token left over and nothing open: `e` itself but for the
/// regions of the source, which are those of its text.
pub proof fn lemma_print_read(e: ExprView, loc: Loc)
    requires
        printable(e),
        loc.column + text(e).len() <= usize::MAX,
    ensures
        tokens_from(text(e), 0, loc) == Ok::<Seq<TokenView>, LexError>(tokens_at(e, loc)),
        run(tokens_at(e, loc), Seq::empty()) == (
            Ok::<Option<ExprView>, crate::parser::ParseErrorView>(Some(read_at(e, loc))),
            Seq::<TokenView>::empty(),
            Seq::<CtxView>::empty(),
        ),
        respan(read_at(e, loc)) == respan(e),
{
    let s = text(e);
    assert(s.subrange(0, s.len() as int) =~= s);
    lemma_lex_at(e, s, 0, loc);
    assert(tokens_from(s, s.len() as int, after(loc, s.len())) == Ok::<Seq<TokenView>, LexError>(Seq::empty()));
    assert(tokens_at(e, loc) + Seq::<TokenView>::empty() =~= tokens_at(e, loc));
    lemma_printable_readable(e);
    lemma_parse_at(e, loc, Seq::empty(), Seq::empty());
    lemma_read_at_respan(e, loc);
}

} // verus!
