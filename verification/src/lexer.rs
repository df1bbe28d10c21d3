//! The lexical analyzer: turns source text into tokens.

use vstd::prelude::*;
use crate::number::Number;
use crate::span::{loc_lt, Loc, Span};
use crate::text::{
    is_delimiter, is_digit, is_whitespace, push_char, spec_is_delimiter, spec_is_digit,
    spec_is_whitespace, string_of, chars_of,
};
use crate::token::{Token, TokenView};

verus! {

/// An error found while reading a token.
#[derive(Clone, Copy, Debug, PartialEq, Eq, Structural)]
pub enum LexError {
    /// A string literal that a line end or the end of the input interrupts.
    IncompleteString(Span),
    /// A word that starts like a number but is not a number literal.
    InvalidNumber(Span),
}

// ---------------------------------------------------------------------------
// The lexical rules, as spec functions over the input characters.
// ---------------------------------------------------------------------------

/// The location after reading `c` at `loc`: a line end moves to the start of the
/// next line, any other character one column to the right.
pub open spec fn advance(loc: Loc, c: char) -> Loc {
    if c == '\n' {
        Loc { line: (loc.line + 1) as usize, column: 0 }
    } else {
        Loc { line: loc.line, column: (loc.column + 1) as usize }
    }
}

/// The start of the line after the one of `loc`.
pub open spec fn next_line(loc: Loc) -> Loc {
    Loc { line: (loc.line + 1) as usize, column: 0 }
}

/// Skips white space and comments from `pos`. A comment runs from `;` to the end
/// of its line; its characters do not move the location, and its end moves the
/// location to the start of the next line (also when the input ends first).
/// `in_comment` tells whether `pos` is inside a comment. Gives the position of the
/// next character that starts a token, or the input's length, with its location.
pub open spec fn skip_blank(s: Seq<char>, pos: int, loc: Loc, in_comment: bool) -> (int, Loc)
    decreases s.len() - pos,
{
    if pos < 0 || pos >= s.len() {
        if in_comment {
            (pos, next_line(loc))
        } else {
            (pos, loc)
        }
    } else if in_comment {
        if s[pos] == '\n' {
            skip_blank(s, pos + 1, next_line(loc), false)
        } else {
            skip_blank(s, pos + 1, loc, true)
        }
    } else if spec_is_whitespace(s[pos]) {
        skip_blank(s, pos + 1, advance(loc, s[pos]), false)
    } else if s[pos] == ';' {
        skip_blank(s, pos + 1, loc, true)
    } else {
        (pos, loc)
    }
}

/// The end of the word that runs from `pos`: the first delimiter at or after `pos`,
/// or the input's length.
pub open spec fn word_end(s: Seq<char>, pos: int) -> int
    decreases s.len() - pos,
{
    if pos < 0 || pos >= s.len() || spec_is_delimiter(s[pos]) {
        pos
    } else {
        word_end(s, pos + 1)
    }
}

/// The end of the run of decimal digits from `i`.
pub open spec fn digits_end(d: Seq<char>, i: int) -> int
    decreases d.len() - i,
{
    if i < 0 || i >= d.len() || !spec_is_digit(d[i]) {
        i
    } else {
        digits_end(d, i + 1)
    }
}

/// The exponent part of a literal, from `b`: `e` or `E`, an optional sign, digits.
pub open spec fn is_exponent(d: Seq<char>, b: int) -> bool {
    &&& 0 <= b < d.len()
    &&& (d[b] == 'e' || d[b] == 'E')
    &&& {
        let c = if b + 1 < d.len() && (d[b + 1] == '+' || d[b + 1] == '-') {
            b + 2
        } else {
            b + 1
        };
        let e = digits_end(d, c);
        e > c && e == d.len()
    }
}

/// A number literal that starts with a digit: digits, an optional fraction (a
/// point and digits, maybe none), and an optional exponent. This is the grammar
/// that `f64::from_str` documents, for texts that start with a digit.
pub open spec fn is_number_literal(d: Seq<char>) -> bool {
    let a = digits_end(d, 0);
    &&& a > 0
    &&& {
        let b = if a < d.len() && d[a] == '.' {
            digits_end(d, a + 1)
        } else {
            a
        };
        b == d.len() || is_exponent(d, b)
    }
}

/// The character that an escape `\c` in a string literal stands for.
pub open spec fn unescape(c: char) -> char {
    if c == 'n' {
        '\n'
    } else if c == 'r' {
        '\r'
    } else if c == 't' {
        '\t'
    } else {
        c
    }
}

/// The outcome of reading one token: the token, or `None` at the end of the input,
/// or an error.
pub type LexOutcome = Result<Option<TokenView>, LexError>;

/// Reads the rest of a string literal from `pos`, with `text` read so far,
/// `escaped` telling whether the last character was a backslash, and `begin` the
/// location of the opening quote. Gives the outcome, the next position and location.
pub open spec fn read_string(
    s: Seq<char>,
    pos: int,
    loc: Loc,
    begin: Loc,
    text: Seq<char>,
    escaped: bool,
) -> (LexOutcome, int, Loc)
    decreases s.len() - pos,
{
    if pos < 0 || pos >= s.len() {
        (Err(LexError::IncompleteString(Span { begin, end: loc })), pos, loc)
    } else {
        let c = s[pos];
        let next = advance(loc, c);
        if c == '\n' {
            (Err(LexError::IncompleteString(Span { begin, end: next })), pos + 1, next)
        } else if escaped {
            read_string(s, pos + 1, next, begin, text.push(unescape(c)), false)
        } else if c == '"' {
            (Ok(Some(TokenView::Str(text, Span { begin, end: next }))), pos + 1, next)
        } else if c == '\\' {
            read_string(s, pos + 1, next, begin, text, true)
        } else {
            read_string(s, pos + 1, next, begin, text.push(c), false)
        }
    }
}

/// The location after the characters of a word (which holds no line end) from `p`
/// to `e`, starting at `loc`.
pub open spec fn after_word(loc: Loc, p: int, e: int) -> Loc {
    Loc { line: loc.line, column: (loc.column + (e - p)) as usize }
}

/// Reads a number literal whose first character, at `p`, is a digit or a sign
/// followed by a digit; `begin` is its location.
pub open spec fn read_number(s: Seq<char>, p: int, begin: Loc) -> (LexOutcome, int, Loc) {
    let e = word_end(s, p + 1);
    let end = after_word(begin, p, e);
    let span = Span { begin, end };
    let digits = if spec_is_digit(s[p]) {
        s.subrange(p, e)
    } else {
        s.subrange(p + 1, e)
    };
    let text = if s[p] == '-' {
        seq!['-'] + digits
    } else {
        digits
    };
    if is_number_literal(digits) {
        (Ok(Some(TokenView::Num(text, span))), e, end)
    } else {
        (Err(LexError::InvalidNumber(span)), e, end)
    }
}

/// Reads a symbol whose first character is at `p`.
pub open spec fn read_symbol(s: Seq<char>, p: int, begin: Loc) -> (LexOutcome, int, Loc) {
    let e = word_end(s, p + 1);
    let end = after_word(begin, p, e);
    (Ok(Some(TokenView::Sym(s.subrange(p, e), Span { begin, end }))), e, end)
}

/// Reads the next token of `s` from `pos`, located at `loc`: the outcome, the
/// position after it, and the location there.
pub open spec fn lex(s: Seq<char>, pos: int, loc: Loc) -> (LexOutcome, int, Loc) {
    let (p, b) = skip_blank(s, pos, loc, false);
    if p < 0 || p >= s.len() {
        (Ok(None), p, b)
    } else {
        let c = s[p];
        let l1 = advance(b, c);
        if c == '(' {
            (Ok(Some(TokenView::OpenParen(b))), p + 1, l1)
        } else if c == ')' {
            (Ok(Some(TokenView::CloseParen(b))), p + 1, l1)
        } else if c == '\'' {
            (Ok(Some(TokenView::Quote(b))), p + 1, l1)
        } else if c == '`' {
            (Ok(Some(TokenView::Quasiquote(b))), p + 1, l1)
        } else if c == ',' {
            if p + 1 < s.len() && s[p + 1] == '@' {
                (Ok(Some(TokenView::UnquoteSplicing(b))), p + 2, advance(l1, '@'))
            } else {
                (Ok(Some(TokenView::Unquote(b))), p + 1, l1)
            }
        } else if c == '"' {
            read_string(s, p + 1, l1, b, Seq::empty(), false)
        } else if spec_is_digit(c) {
            read_number(s, p, b)
        } else if (c == '+' || c == '-') && p + 1 < s.len() && spec_is_digit(s[p + 1]) {
            read_number(s, p, b)
        } else {
            read_symbol(s, p, b)
        }
    }
}

/// The tokens of `s` from `pos` on, or the first error.
pub open spec fn tokens_from(s: Seq<char>, pos: int, loc: Loc) -> Result<Seq<TokenView>, LexError>
    decreases s.len() - pos,
{
    let (r, p, l) = lex(s, pos, loc);
    match r {
        Err(e) => Err(e),
        Ok(None) => Ok(Seq::empty()),
        Ok(Some(t)) => if pos < p <= s.len() {
            match tokens_from(s, p, l) {
                Err(e) => Err(e),
                Ok(ts) => Ok(seq![t] + ts),
            }
        } else {
            Ok(seq![t])
        },
    }
}

/// The view of a token result.
pub open spec fn outcome_view(r: Result<Option<Token>, LexError>) -> LexOutcome {
    match r {
        Err(e) => Err(e),
        Ok(None) => Ok(None),
        Ok(Some(t)) => Ok(Some(t@)),
    }
}

} // verus!

verus! {

/// Appends the characters `cs[from..to]` to `s`.
pub fn push_chars(s: &mut String, cs: &Vec<char>, from: usize, to: usize)
    requires
        from <= to <= cs.len(),
    ensures
        final(s)@ == old(s)@ + cs@.subrange(from as int, to as int),
{
    let mut i = from;
    while i < to
        invariant
            from <= i <= to <= cs.len(),
            s@ == old(s)@ + cs@.subrange(from as int, i as int),
        decreases to - i,
    {
        push_char(s, cs[i]);
        i = i + 1;
        assert(cs@.subrange(from as int, i as int) == cs@.subrange(from as int, (i - 1) as int).push(cs@[i - 1]));
    }
}

/// Finds the end of the run of digits of `d` from `i` (see [`digits_end`]).
fn find_digits_end(d: &Vec<char>, i: usize) -> (e: usize)
    requires
        i <= d.len(),
    ensures
        e as int == digits_end(d@, i as int),
        i <= e <= d.len(),
{
    let mut e = i;
    while e < d.len() && is_digit(d[e])
        invariant
            i <= e <= d.len(),
            digits_end(d@, i as int) == digits_end(d@, e as int),
        decreases d.len() - e,
    {
        e = e + 1;
    }
    e
}

/// Tests whether `d` is a number literal (see [`is_number_literal`]).
pub fn check_number_literal(d: &Vec<char>) -> (b: bool)
    ensures
        b == is_number_literal(d@),
{
    let a = find_digits_end(d, 0);
    if a == 0 {
        return false;
    }
    let b = if a < d.len() && d[a] == '.' {
        find_digits_end(d, a + 1)
    } else {
        a
    };
    if b == d.len() {
        return true;
    }
    if !(d[b] == 'e' || d[b] == 'E') {
        return false;
    }
    let c = if b + 1 < d.len() && (d[b + 1] == '+' || d[b + 1] == '-') {
        b + 2
    } else {
        b + 1
    };
    let e = find_digits_end(d, c);
    e > c && e == d.len()
}

/// The lexical analyzer of the language. It reads tokens one by one from its
/// input characters and keeps the location of the next character.
pub struct Lexer {
    chars: Vec<char>,
    pos: usize,
    loc: Loc,
}

impl Lexer {
    /// The characters that the lexer reads.
    pub closed spec fn input(&self) -> Seq<char> {
        self.chars@
    }

    /// The position of the next character to read.
    pub closed spec fn pos(&self) -> int {
        self.pos as int
    }

    /// The location of the next character to read.
    pub closed spec fn loc(&self) -> Loc {
        self.loc
    }

    /// The position is within the input, and the locations that the rest of the input
    /// can reach fit in a machine word.
    pub open spec fn wf(&self) -> bool {
        &&& 0 <= self.pos() <= self.input().len()
        &&& self.loc().line + (self.input().len() - self.pos()) <= usize::MAX
        &&& self.loc().column + (self.input().len() - self.pos()) <= usize::MAX
    }

    /// A lexer that reads `chars`, the first of which is at `loc`.
    pub fn new(chars: Vec<char>, loc: Loc) -> (lexer: Lexer)
        requires
            loc.line + chars.len() <= usize::MAX,
            loc.column + chars.len() <= usize::MAX,
        ensures
            lexer.wf(),
            lexer.input() == chars@,
            lexer.pos() == 0,
            lexer.loc() == loc,
    {
        Lexer { chars, pos: 0, loc }
    }

    /// Reads one character, moving the location past it.
    fn bump(&mut self) -> (c: char)
        requires
            old(self).wf(),
            old(self).pos() < old(self).input().len(),
        ensures
            final(self).wf(),
            final(self).input() == old(self).input(),
            c == old(self).input()[old(self).pos()],
            final(self).pos() == old(self).pos() + 1,
            final(self).loc() == advance(old(self).loc(), c),
    {
        // the length of a vector fits in a machine word, so the position after `c` does too
        let _len = self.chars.len();
        let c = self.chars[self.pos];
        self.pos = self.pos + 1;
        if c == '\n' {
            self.loc = Loc { line: self.loc.line + 1, column: 0 };
        } else {
            self.loc = Loc { line: self.loc.line, column: self.loc.column + 1 };
        }
        c
    }

    /// Skips white space and comments (see [`skip_blank`]).
    fn skip_blank(&mut self)
        requires
            old(self).wf(),
        ensures
            final(self).wf(),
            final(self).input() == old(self).input(),
            (final(self).pos(), final(self).loc()) == skip_blank(
                old(self).input(),
                old(self).pos(),
                old(self).loc(),
                false,
            ),
    {
        let ghost s = self.chars@;
        let ghost target = skip_blank(s, self.pos as int, self.loc, false);
        let mut in_comment = false;
        loop
            invariant
                self.chars@ == s,
                s == old(self).input(),
                target == skip_blank(old(self).input(), old(self).pos(), old(self).loc(), false),
                0 <= self.pos <= s.len(),
                self.loc.line + (s.len() - self.pos) + (if in_comment { 1int } else { 0 })
                    <= usize::MAX,
                self.loc.column + (s.len() - self.pos) <= usize::MAX,
                skip_blank(s, self.pos as int, self.loc, in_comment) == target,
            decreases s.len() - self.pos,
        {
            if self.pos >= self.chars.len() {
                if in_comment {
                    self.loc = Loc { line: self.loc.line + 1, column: 0 };
                }
                return ;
            }
            let c = self.chars[self.pos];
            if in_comment {
                self.pos = self.pos + 1;
                if c == '\n' {
                    self.loc = Loc { line: self.loc.line + 1, column: 0 };
                    in_comment = false;
                }
            } else if is_whitespace(c) {
                self.bump();
            } else if c == ';' {
                self.pos = self.pos + 1;
                in_comment = true;
            } else {
                return ;
            }
        }
    }

    /// Finds the end of the word from `from` (see [`word_end`]).
    fn find_word_end(&self, from: usize) -> (e: usize)
        requires
            from <= self.input().len(),
        ensures
            e as int == word_end(self.input(), from as int),
            from <= e <= self.input().len(),
    {
        let mut e = from;
        while e < self.chars.len() && !is_delimiter(self.chars[e])
            invariant
                from <= e <= self.chars@.len(),
                word_end(self.chars@, from as int) == word_end(self.chars@, e as int),
            decreases self.chars@.len() - e,
        {
            e = e + 1;
        }
        e
    }

    /// Reads the rest of a string literal whose opening quote is at `begin`
    /// (see [`read_string`]).
    fn read_string(&mut self, begin: Loc) -> (r: Result<Option<Token>, LexError>)
        requires
            old(self).wf(),
            loc_lt(begin, old(self).loc()),
        ensures
            final(self).wf(),
            final(self).input() == old(self).input(),
            (outcome_view(r), final(self).pos(), final(self).loc()) == read_string(
                old(self).input(),
                old(self).pos(),
                old(self).loc(),
                begin,
                Seq::empty(),
                false,
            ),
    {
        let ghost s = self.chars@;
        let ghost target = read_string(s, self.pos as int, self.loc, begin, Seq::empty(), false);
        let mut text = String::new();
        let mut escaped = false;
        loop
            invariant
                self.wf(),
                self.chars@ == s,
                s == old(self).input(),
                target == read_string(
                    old(self).input(),
                    old(self).pos(),
                    old(self).loc(),
                    begin,
                    Seq::empty(),
                    false,
                ),
                loc_lt(begin, self.loc),
                read_string(s, self.pos as int, self.loc, begin, text@, escaped) == target,
            decreases s.len() - self.pos,
        {
            if self.pos >= self.chars.len() {
                return Err(LexError::IncompleteString(begin.span_to(self.loc)));
            }
            let c = self.bump();
            if c == '\n' {
                return Err(LexError::IncompleteString(begin.span_to(self.loc)));
            } else if escaped {
                escaped = false;
                let u = if c == 'n' {
                    '\n'
                } else if c == 'r' {
                    '\r'
                } else if c == 't' {
                    '\t'
                } else {
                    c
                };
                push_char(&mut text, u);
            } else if c == '"' {
                return Ok(Some(Token::Str(text, begin.span_to(self.loc))));
            } else if c == '\\' {
                escaped = true;
            } else {
                push_char(&mut text, c);
            }
        }
    }

    /// Reads a number literal whose first character is at `p` and located at
    /// `begin` (see [`read_number`]).
    fn read_number(&mut self, p: usize, begin: Loc) -> (r: Result<Option<Token>, LexError>)
        requires
            old(self).wf(),
            p < old(self).input().len(),
            old(self).pos() == p + 1,
            begin.line + (old(self).input().len() - p) <= usize::MAX,
            begin.column + (old(self).input().len() - p) <= usize::MAX,
        ensures
            final(self).wf(),
            final(self).input() == old(self).input(),
            (outcome_view(r), final(self).pos(), final(self).loc()) == read_number(
                old(self).input(),
                p as int,
                begin,
            ),
    {
        let e = self.find_word_end(p + 1);
        let first = self.chars[p];
        let from = if is_digit(first) {
            p
        } else {
            p + 1
        };
        let mut digits: Vec<char> = Vec::new();
        let mut i = from;
        while i < e
            invariant
                from <= i <= e <= self.chars@.len(),
                digits@ == self.chars@.subrange(from as int, i as int),
            decreases e - i,
        {
            digits.push(self.chars[i]);
            i = i + 1;
        }
        let mut text = String::new();
        if first == '-' {
            push_char(&mut text, '-');
        }
        push_chars(&mut text, &digits, 0, digits.len());
        assert(digits@.subrange(0, digits@.len() as int) == digits@);
        proof {
            if first == '-' {
                assert(Seq::<char>::empty().push('-') + digits@ == seq!['-'] + digits@);
            } else {
                assert(Seq::<char>::empty() + digits@ == digits@);
            }
        }
        self.pos = e;
        self.loc = Loc { line: begin.line, column: begin.column + (e - p) };
        let span = Span::new(begin, self.loc);
        if check_number_literal(&digits) {
            Ok(Some(Token::Num(Number::new(text), span)))
        } else {
            Err(LexError::InvalidNumber(span))
        }
    }

    /// Reads a symbol whose first character is at `p` and located at `begin`
    /// (see [`read_symbol`]).
    fn read_symbol(&mut self, p: usize, begin: Loc) -> (r: Result<Option<Token>, LexError>)
        requires
            old(self).wf(),
            p < old(self).input().len(),
            old(self).pos() == p + 1,
            begin.line + (old(self).input().len() - p) <= usize::MAX,
            begin.column + (old(self).input().len() - p) <= usize::MAX,
        ensures
            final(self).wf(),
            final(self).input() == old(self).input(),
            (outcome_view(r), final(self).pos(), final(self).loc()) == read_symbol(
                old(self).input(),
                p as int,
                begin,
            ),
    {
        let e = self.find_word_end(p + 1);
        let mut name = String::new();
        push_chars(&mut name, &self.chars, p, e);
        assert(Seq::<char>::empty() + self.chars@.subrange(p as int, e as int) == self.chars@.subrange(p as int, e as int));
        self.pos = e;
        self.loc = Loc { line: begin.line, column: begin.column + (e - p) };
        Ok(Some(Token::Sym(name, Span::new(begin, self.loc))))
    }

    /// Reads the next token (see [`lex`]): `Ok(Some(token))`, `Ok(None)` at the end of
    /// the input, or the error that the token holds.
    pub fn get_token(&mut self) -> (r: Result<Option<Token>, LexError>)
        requires
            old(self).wf(),
        ensures
            final(self).wf(),
            final(self).input() == old(self).input(),
            (outcome_view(r), final(self).pos(), final(self).loc()) == lex(
                old(self).input(),
                old(self).pos(),
                old(self).loc(),
            ),
    {
        self.skip_blank();
        let begin = self.loc;
        let p = self.pos;
        if self.pos >= self.chars.len() {
            return Ok(None);
        }
        let c = self.bump();
        if c == '(' {
            Ok(Some(Token::OpenParen(begin)))
        } else if c == ')' {
            Ok(Some(Token::CloseParen(begin)))
        } else if c == '\'' {
            Ok(Some(Token::Quote(begin)))
        } else if c == '`' {
            Ok(Some(Token::Quasiquote(begin)))
        } else if c == ',' {
            if self.pos < self.chars.len() && self.chars[self.pos] == '@' {
                self.bump();
                Ok(Some(Token::UnquoteSplicing(begin)))
            } else {
                Ok(Some(Token::Unquote(begin)))
            }
        } else if c == '"' {
            self.read_string(begin)
        } else if is_digit(c) {
            self.read_number(p, begin)
        } else if (c == '+' || c == '-') && self.pos < self.chars.len() && is_digit(
            self.chars[self.pos],
        ) {
            self.read_number(p, begin)
        } else {
            self.read_symbol(p, begin)
        }
    }
}

} // verus!

verus! {

proof fn lemma_skip_blank_bounds(s: Seq<char>, pos: int, loc: Loc, in_comment: bool)
    requires
        0 <= pos <= s.len(),
    ensures
        pos <= skip_blank(s, pos, loc, in_comment).0 <= s.len(),
    decreases s.len() - pos,
{
    if pos < s.len() {
        let c = s[pos];
        if in_comment {
            if c == '\n' {
                lemma_skip_blank_bounds(s, pos + 1, next_line(loc), false);
            } else {
                lemma_skip_blank_bounds(s, pos + 1, loc, true);
            }
        } else if spec_is_whitespace(c) {
            lemma_skip_blank_bounds(s, pos + 1, advance(loc, c), false);
        } else if c == ';' {
            lemma_skip_blank_bounds(s, pos + 1, loc, true);
        }
    }
}

/// Skipping blanks passes all white space and comments: it stops at the end of the
/// input or at a character that is neither white space nor the start of a comment,
/// so a white-space character (a tab as well as a space) is always passed over.
pub proof fn lemma_skip_blank_stops(s: Seq<char>, pos: int, loc: Loc, in_comment: bool)
    requires
        0 <= pos <= s.len(),
    ensures
        pos <= skip_blank(s, pos, loc, in_comment).0 <= s.len(),
        skip_blank(s, pos, loc, in_comment).0 < s.len() ==> !spec_is_whitespace(
            s[skip_blank(s, pos, loc, in_comment).0],
        ) && s[skip_blank(s, pos, loc, in_comment).0] != ';',
        pos < s.len() && (in_comment || spec_is_whitespace(s[pos]) || s[pos] == ';') ==> skip_blank(
            s,
            pos,
            loc,
            in_comment,
        ).0 > pos,
    decreases s.len() - pos,
{
    if pos < s.len() {
        let c = s[pos];
        if in_comment {
            if c == '\n' {
                lemma_skip_blank_stops(s, pos + 1, next_line(loc), false);
            } else {
                lemma_skip_blank_stops(s, pos + 1, loc, true);
            }
        } else if spec_is_whitespace(c) {
            lemma_skip_blank_stops(s, pos + 1, advance(loc, c), false);
        } else if c == ';' {
            lemma_skip_blank_stops(s, pos + 1, loc, true);
        }
    }
}

proof fn lemma_read_string_gives_str(s: Seq<char>, pos: int, loc: Loc, begin: Loc, text: Seq<char>, escaped: bool)
    ensures
        read_string(s, pos, loc, begin, text, escaped).0 is Err || read_string(s, pos, loc, begin, text, escaped).0
            matches Ok(Some(TokenView::Str(_, _))),
    decreases s.len() - pos,
{
    if 0 <= pos < s.len() {
        let c = s[pos];
        let next = advance(loc, c);
        if c == '\n' {
        } else if escaped {
            lemma_read_string_gives_str(s, pos + 1, next, begin, text.push(unescape(c)), false);
        } else if c == '"' {
        } else if c == '\\' {
            lemma_read_string_gives_str(s, pos + 1, next, begin, text, true);
        } else {
            lemma_read_string_gives_str(s, pos + 1, next, begin, text.push(c), false);
        }
    }
}

/// No symbol or number starts with white space: the text of a symbol or number that
/// a read gives is not empty and its first character is not white space.
pub proof fn lemma_token_starts_non_blank(s: Seq<char>, pos: int, loc: Loc)
    requires
        0 <= pos <= s.len(),
    ensures
        match lex(s, pos, loc).0 {
            Ok(Some(TokenView::Sym(t, _))) => t.len() > 0 && !spec_is_whitespace(t[0]),
            Ok(Some(TokenView::Num(t, _))) => t.len() > 0 && !spec_is_whitespace(t[0]),
            _ => true,
        },
{
    lemma_skip_blank_stops(s, pos, loc, false);
    let (p, b) = skip_blank(s, pos, loc, false);
    if p < s.len() {
        lemma_word_end_bounds(s, p + 1);
        let e = word_end(s, p + 1);
        assert(s.subrange(p, e)[0] == s[p]);
        let d = if spec_is_digit(s[p]) {
            s.subrange(p, e)
        } else {
            s.subrange(p + 1, e)
        };
        if is_number_literal(d) {
            assert(digits_end(d, 0) > 0);
            assert(spec_is_digit(d[0]));
            assert(!spec_is_whitespace(d[0]));
            if s[p] == '-' {
                assert((seq!['-'] + d)[0] == '-');
            }
        }
        if s[p] == '+' && p + 1 < s.len() && spec_is_digit(s[p + 1]) {
            assert(!spec_is_delimiter(s[p + 1]));
            lemma_word_end_bounds(s, p + 2);
            assert(e == word_end(s, p + 2));
            assert(e >= p + 2);
            assert(d[0] == s[p + 1]);
        }
        let c = s[p];
        if spec_is_digit(c) || ((c == '+' || c == '-') && p + 1 < s.len() && spec_is_digit(s[p + 1])) {
            if c != '(' && c != ')' && c != '\'' && c != '`' && c != ',' && c != '"' {
                assert(lex(s, pos, loc) == read_number(s, p, b));
                let t = if c == '-' { seq!['-'] + d } else { d };
                if is_number_literal(d) {
                    assert(t.len() > 0 && !spec_is_whitespace(t[0]));
                    assert(lex(s, pos, loc).0 == Ok::<Option<TokenView>, LexError>(Some(TokenView::Num(t, Span { begin: b, end: after_word(b, p, e) }))));
                } else {
                    assert(lex(s, pos, loc).0 is Err);
                }
            }
        } else if c != '(' && c != ')' && c != '\'' && c != '`' && c != ',' && c != '"' {
            assert(lex(s, pos, loc) == read_symbol(s, p, b));
            assert(s.subrange(p, e).len() > 0);
            assert(!spec_is_whitespace(s.subrange(p, e)[0]));
        } else if c == '"' {
            lemma_read_string_gives_str(s, p + 1, advance(b, c), b, Seq::empty(), false);
        }
    }
}

proof fn lemma_word_end_bounds(s: Seq<char>, pos: int)
    requires
        0 <= pos <= s.len(),
    ensures
        pos <= word_end(s, pos) <= s.len(),
    decreases s.len() - pos,
{
    if pos < s.len() && !spec_is_delimiter(s[pos]) {
        lemma_word_end_bounds(s, pos + 1);
    }
}

proof fn lemma_read_string_bounds(
    s: Seq<char>,
    pos: int,
    loc: Loc,
    begin: Loc,
    text: Seq<char>,
    escaped: bool,
)
    requires
        0 <= pos <= s.len(),
    ensures
        pos <= read_string(s, pos, loc, begin, text, escaped).1 <= s.len(),
    decreases s.len() - pos,
{
    if pos < s.len() {
        let c = s[pos];
        let next = advance(loc, c);
        if c == '\n' {
        } else if escaped {
            lemma_read_string_bounds(s, pos + 1, next, begin, text.push(unescape(c)), false);
        } else if c == '"' {
        } else if c == '\\' {
            lemma_read_string_bounds(s, pos + 1, next, begin, text, true);
        } else {
            lemma_read_string_bounds(s, pos + 1, next, begin, text.push(c), false);
        }
    }
}

/// Reading a token never goes back, and reading one consumes at least a character.
pub proof fn lemma_lex_progress(s: Seq<char>, pos: int, loc: Loc)
    requires
        0 <= pos <= s.len(),
    ensures
        pos <= lex(s, pos, loc).1 <= s.len(),
        lex(s, pos, loc).0 is Ok && lex(s, pos, loc).0->Ok_0 is Some ==> pos < lex(s, pos, loc).1,
{
    lemma_skip_blank_bounds(s, pos, loc, false);
    let (p, b) = skip_blank(s, pos, loc, false);
    if p < s.len() {
        let c = s[p];
        lemma_word_end_bounds(s, p + 1);
        lemma_read_string_bounds(s, p + 1, advance(b, c), b, Seq::empty(), false);
        if c == '"' {
            let r = read_string(s, p + 1, advance(b, c), b, Seq::empty(), false);
        }
    }
}

/// The views of a sequence of tokens.
pub open spec fn tokens_view(ts: Seq<Token>) -> Seq<TokenView> {
    ts.map_values(|t: Token| t@)
}

/// The view of the result of [`tokenize`].
pub open spec fn tokenize_view(r: Result<Vec<Token>, LexError>) -> Result<Seq<TokenView>, LexError> {
    match r {
        Ok(ts) => Ok(tokens_view(ts@)),
        Err(e) => Err(e),
    }
}

/// Tokenizes `text`, whose first character is at `loc`: all its tokens, or the first
/// error (see [`tokens_from`]).
pub fn tokenize(text: &str, loc: Loc) -> (r: Result<Vec<Token>, LexError>)
    requires
        loc.line + text@.len() <= usize::MAX,
        loc.column + text@.len() <= usize::MAX,
    ensures
        tokenize_view(r) == tokens_from(text@, 0, loc),
        r matches Ok(ts) ==> forall|i: int| 0 <= i < ts@.len() ==> #[trigger] ts@[i]@.has_span(),
{
    let chars = chars_of(text);
    let mut lexer = Lexer::new(chars, loc);
    let ghost s = text@;
    let mut tokens: Vec<Token> = Vec::new();
    loop
        invariant
            lexer.wf(),
            lexer.input() == s,
            s == text@,
            tokens_from(s, 0, loc) == match tokens_from(s, lexer.pos(), lexer.loc()) {
                Ok(rest) => Ok(tokens_view(tokens@) + rest),
                Err(e) => Err(e),
            },
            forall|i: int| 0 <= i < tokens@.len() ==> #[trigger] tokens@[i]@.has_span(),
        decreases s.len() - lexer.pos(),
    {
        let ghost pos0 = lexer.pos();
        let ghost loc0 = lexer.loc();
        proof {
            lemma_lex_progress(s, pos0, loc0);
            lemma_token_span(s, pos0, loc0);
        }
        match lexer.get_token() {
            Err(e) => {
                return Err(e);
            },
            Ok(None) => {
                assert(tokens_view(tokens@) + Seq::<TokenView>::empty() == tokens_view(tokens@));
                return Ok(tokens);
            },
            Ok(Some(t)) => {
                let ghost tv = t@;
                let ghost before = tokens_view(tokens@);
                tokens.push(t);
                assert(tokens_view(tokens@) == before.push(tv));
                proof {
                    match tokens_from(s, lexer.pos(), lexer.loc()) {
                        Ok(rest) => {
                            assert(before + (seq![tv] + rest) == before.push(tv) + rest);
                        },
                        Err(_) => {},
                    }
                }
            },
        }
    }
}

} // verus!

verus! {

/// Once a read finds no token, the lexer stands at the end of the input, and reading
/// again from there finds no token again and moves nowhere.
pub proof fn lemma_lex_end_is_stable(s: Seq<char>, pos: int, loc: Loc)
    requires
        0 <= pos <= s.len(),
        lex(s, pos, loc).0 == Ok::<Option<TokenView>, LexError>(None),
    ensures
        lex(s, pos, loc).1 == s.len(),
        lex(s, lex(s, pos, loc).1, lex(s, pos, loc).2) == (
            Ok::<Option<TokenView>, LexError>(None),
            lex(s, pos, loc).1,
            lex(s, pos, loc).2,
        ),
{
    lemma_skip_blank_bounds(s, pos, loc, false);
    let (p, b) = skip_blank(s, pos, loc, false);
    if p < s.len() {
        lemma_read_string_finds(s, p + 1, advance(b, s[p]), b, Seq::empty(), false);
    }
    assert(skip_blank(s, p, b, false) == (p, b));
}

proof fn lemma_read_string_finds(
    s: Seq<char>,
    pos: int,
    loc: Loc,
    begin: Loc,
    text: Seq<char>,
    escaped: bool,
)
    ensures
        read_string(s, pos, loc, begin, text, escaped).0 != Ok::<Option<TokenView>, LexError>(None),
    decreases s.len() - pos,
{
    if 0 <= pos < s.len() {
        let c = s[pos];
        let next = advance(loc, c);
        if c == '\n' {
        } else if escaped {
            lemma_read_string_finds(s, pos + 1, next, begin, text.push(unescape(c)), false);
        } else if c == '"' {
        } else if c == '\\' {
            lemma_read_string_finds(s, pos + 1, next, begin, text, true);
        } else {
            lemma_read_string_finds(s, pos + 1, next, begin, text.push(c), false);
        }
    }
}

proof fn lemma_skip_blank_locs(s: Seq<char>, pos: int, loc: Loc, in_comment: bool)
    requires
        0 <= pos <= s.len(),
        loc.line + (s.len() - pos) + (if in_comment { 1int } else { 0 }) <= usize::MAX,
        loc.column + (s.len() - pos) <= usize::MAX,
    ensures
        skip_blank(s, pos, loc, in_comment).1.line + (s.len() - skip_blank(s, pos, loc, in_comment).0)
            <= usize::MAX,
        skip_blank(s, pos, loc, in_comment).1.column + (s.len() - skip_blank(s, pos, loc, in_comment).0)
            <= usize::MAX,
    decreases s.len() - pos,
{
    if pos < s.len() {
        let c = s[pos];
        if in_comment {
            if c == '\n' {
                lemma_skip_blank_locs(s, pos + 1, next_line(loc), false);
            } else {
                lemma_skip_blank_locs(s, pos + 1, loc, true);
            }
        } else if spec_is_whitespace(c) {
            lemma_skip_blank_locs(s, pos + 1, advance(loc, c), false);
        } else if c == ';' {
            lemma_skip_blank_locs(s, pos + 1, loc, true);
        }
    }
}

proof fn lemma_read_string_span(
    s: Seq<char>,
    pos: int,
    loc: Loc,
    begin: Loc,
    text: Seq<char>,
    escaped: bool,
)
    requires
        0 <= pos <= s.len(),
        loc.line + (s.len() - pos) <= usize::MAX,
        loc.column + (s.len() - pos) <= usize::MAX,
        loc_lt(begin, loc),
    ensures
        read_string(s, pos, loc, begin, text, escaped).0 matches Ok(Some(t)) ==> t matches TokenView::Str(
            _,
            sp,
        ) && sp.begin == begin && sp.end == read_string(s, pos, loc, begin, text, escaped).2
            && loc_lt(begin, sp.end),
    decreases s.len() - pos,
{
    if pos < s.len() {
        let c = s[pos];
        let next = advance(loc, c);
        if c == '\n' {
        } else if escaped {
            lemma_read_string_span(s, pos + 1, next, begin, text.push(unescape(c)), false);
        } else if c == '"' {
        } else if c == '\\' {
            lemma_read_string_span(s, pos + 1, next, begin, text, true);
        } else {
            lemma_read_string_span(s, pos + 1, next, begin, text.push(c), false);
        }
    }
}

/// Each token covers the source from where it starts to where the lexer stands after
/// it: its span begins at the location of its first character (past the white space
/// and comments that the read skipped) and ends at the location that the read
/// returns, and the beginning comes before the end.
pub proof fn lemma_token_span(s: Seq<char>, pos: int, loc: Loc)
    requires
        0 <= pos <= s.len(),
        loc.line + (s.len() - pos) <= usize::MAX,
        loc.column + (s.len() - pos) <= usize::MAX,
    ensures
        lex(s, pos, loc).0 matches Ok(Some(t)) ==> {
            &&& t.has_span()
            &&& t.span().begin == skip_blank(s, pos, loc, false).1
            &&& t.span().end == lex(s, pos, loc).2
            &&& loc_lt(t.span().begin, t.span().end)
        },
{
    lemma_skip_blank_bounds(s, pos, loc, false);
    lemma_skip_blank_locs(s, pos, loc, false);
    let (p, b) = skip_blank(s, pos, loc, false);
    if p < s.len() {
        let c = s[p];
        lemma_word_end_bounds(s, p + 1);
        if c == '"' {
            lemma_read_string_span(s, p + 1, advance(b, c), b, Seq::empty(), false);
        }
    }
}

} // verus!

verus! {

/// `a` comes before `b` or is `b`.
pub open spec fn loc_le(a: Loc, b: Loc) -> bool {
    loc_lt(a, b) || a == b
}

proof fn lemma_skip_blank_forward(s: Seq<char>, pos: int, loc: Loc, in_comment: bool)
    requires
        0 <= pos <= s.len(),
        loc.line + (s.len() - pos) + (if in_comment { 1int } else { 0 }) <= usize::MAX,
        loc.column + (s.len() - pos) <= usize::MAX,
    ensures
        loc_le(loc, skip_blank(s, pos, loc, in_comment).1),
    decreases s.len() - pos,
{
    if pos < s.len() {
        let c = s[pos];
        if in_comment {
            if c == '\n' {
                lemma_skip_blank_forward(s, pos + 1, next_line(loc), false);
            } else {
                lemma_skip_blank_forward(s, pos + 1, loc, true);
            }
        } else if spec_is_whitespace(c) {
            lemma_skip_blank_forward(s, pos + 1, advance(loc, c), false);
        } else if c == ';' {
            lemma_skip_blank_forward(s, pos + 1, loc, true);
        }
    }
}

proof fn lemma_read_string_locs(
    s: Seq<char>,
    pos: int,
    loc: Loc,
    begin: Loc,
    text: Seq<char>,
    escaped: bool,
)
    requires
        0 <= pos <= s.len(),
        loc.line + (s.len() - pos) <= usize::MAX,
        loc.column + (s.len() - pos) <= usize::MAX,
    ensures
        ({
            let (_, p, l) = read_string(s, pos, loc, begin, text, escaped);
            &&& pos <= p <= s.len()
            &&& l.line + (s.len() - p) <= usize::MAX
            &&& l.column + (s.len() - p) <= usize::MAX
        }),
    decreases s.len() - pos,
{
    if pos < s.len() {
        let c = s[pos];
        let next = advance(loc, c);
        if c == '\n' {
        } else if escaped {
            lemma_read_string_locs(s, pos + 1, next, begin, text.push(unescape(c)), false);
        } else if c == '"' {
        } else if c == '\\' {
            lemma_read_string_locs(s, pos + 1, next, begin, text, true);
        } else {
            lemma_read_string_locs(s, pos + 1, next, begin, text.push(c), false);
        }
    }
}

/// Reading a token keeps the locations that the rest of the input can reach within a
/// machine word, when they were before.
pub proof fn lemma_lex_locs(s: Seq<char>, pos: int, loc: Loc)
    requires
        0 <= pos <= s.len(),
        loc.line + (s.len() - pos) <= usize::MAX,
        loc.column + (s.len() - pos) <= usize::MAX,
    ensures
        ({
            let (_, p, l) = lex(s, pos, loc);
            &&& pos <= p <= s.len()
            &&& l.line + (s.len() - p) <= usize::MAX
            &&& l.column + (s.len() - p) <= usize::MAX
        }),
{
    lemma_lex_progress(s, pos, loc);
    lemma_skip_blank_bounds(s, pos, loc, false);
    lemma_skip_blank_locs(s, pos, loc, false);
    let (p, b) = skip_blank(s, pos, loc, false);
    if p < s.len() {
        let c = s[p];
        lemma_word_end_bounds(s, p + 1);
        if c == '"' {
            lemma_read_string_locs(s, p + 1, advance(b, c), b, Seq::empty(), false);
        }
    }
}

/// Successive tokens cover the input in order and do not overlap: when two tokens are
/// read one after the other, each span is non-empty and the first ends at or before
/// the second begins.
pub proof fn lemma_token_spans_ordered(s: Seq<char>, pos: int, loc: Loc)
    requires
        0 <= pos <= s.len(),
        loc.line + (s.len() - pos) <= usize::MAX,
        loc.column + (s.len() - pos) <= usize::MAX,
    ensures
        ({
            let (r1, p1, l1) = lex(s, pos, loc);
            let (r2, p2, l2) = lex(s, p1, l1);
            r1 matches Ok(Some(t1)) ==> (r2 matches Ok(Some(t2)) ==> {
                &&& loc_lt(t1.span().begin, t1.span().end)
                &&& loc_lt(t2.span().begin, t2.span().end)
                &&& loc_le(t1.span().end, t2.span().begin)
            })
        }),
{
    let (r1, p1, l1) = lex(s, pos, loc);
    lemma_token_span(s, pos, loc);
    lemma_lex_locs(s, pos, loc);
    lemma_token_span(s, p1, l1);
    lemma_skip_blank_forward(s, p1, l1, false);
}

/// Tokenizing is reading tokens one after the other: the tokens from a position are
/// the error of the read there, or nothing at the end of the input, or the token
/// read followed by the tokens from where the read stopped.
pub proof fn lemma_tokens_from_steps(s: Seq<char>, pos: int, loc: Loc)
    requires
        0 <= pos <= s.len(),
    ensures
        tokens_from(s, pos, loc) == match lex(s, pos, loc) {
            (Err(e), _, _) => Err(e),
            (Ok(None), _, _) => Ok(Seq::empty()),
            (Ok(Some(t)), p, l) => match tokens_from(s, p, l) {
                Err(e) => Err(e),
                Ok(ts) => Ok(seq![t] + ts),
            },
        },
{
    lemma_lex_progress(s, pos, loc);
}

/// The read gave a token.
pub open spec fn gives_token(r: LexOutcome) -> bool {
    r matches Ok(Some(_))
}

/// The `k`-th of successive reads from `pos` at `loc` (the first is `k == 0`), each
/// starting where the one before stopped, as successive calls of
/// [`Lexer::get_token`] on one lexer are: its outcome, and the position and location
/// after it.
pub open spec fn lex_nth(s: Seq<char>, pos: int, loc: Loc, k: nat) -> (LexOutcome, int, Loc)
    decreases k,
{
    if k == 0 {
        lex(s, pos, loc)
    } else {
        let (_, p, l) = lex(s, pos, loc);
        lex_nth(s, p, l, (k - 1) as nat)
    }
}

/// Tokenizing gives what successive reads give: all the tokens, when the reads give
/// tokens, in this order, and then the end of the input; otherwise the error of the
/// first read that gives no token, all the reads before it giving tokens.
pub proof fn lemma_tokens_from_reads(s: Seq<char>, pos: int, loc: Loc)
    requires
        0 <= pos <= s.len(),
    ensures
        match tokens_from(s, pos, loc) {
            Ok(ts) => {
                &&& forall|i: int| 0 <= i < ts.len() ==> #[trigger] lex_nth(s, pos, loc, i as nat).0 == Ok::<
                    Option<TokenView>,
                    LexError,
                >(Some(ts[i]))
                &&& lex_nth(s, pos, loc, ts.len()).0 == Ok::<Option<TokenView>, LexError>(None)
            },
            Err(e) => exists|n: nat|
                {
                    &&& forall|i: nat| i < n ==> gives_token(#[trigger] lex_nth(s, pos, loc, i).0)
                    &&& lex_nth(s, pos, loc, n).0 == Err::<Option<TokenView>, LexError>(e)
                },
        },
    decreases s.len() - pos,
{
    lemma_lex_progress(s, pos, loc);
    let (r, p, l) = lex(s, pos, loc);
    assert(lex_nth(s, pos, loc, 0) == lex(s, pos, loc));
    match r {
        Err(e) => {
            assert(forall|i: nat| i < 0 ==> gives_token(#[trigger] lex_nth(s, pos, loc, i).0));
        },
        Ok(None) => {},
        Ok(Some(t)) => {
            lemma_tokens_from_reads(s, p, l);
            assert forall|i: nat| i > 0 implies #[trigger] lex_nth(s, pos, loc, i) == lex_nth(
                s,
                p,
                l,
                (i - 1) as nat,
            ) by {}
            match tokens_from(s, p, l) {
                Ok(rest) => {
                    let ts = seq![t] + rest;
                    assert(tokens_from(s, pos, loc) == Ok::<Seq<TokenView>, LexError>(ts));
                    assert forall|i: int| 0 <= i < ts.len() implies #[trigger] lex_nth(s, pos, loc, i as nat).0
                        == Ok::<Option<TokenView>, LexError>(Some(ts[i])) by {
                        if i > 0 {
                            assert(lex_nth(s, pos, loc, i as nat) == lex_nth(s, p, l, (i - 1) as nat));
                            assert(lex_nth(s, p, l, (i - 1) as nat).0 == Ok::<Option<TokenView>, LexError>(
                                Some(rest[i - 1]),
                            ));
                        }
                    }
                    assert(lex_nth(s, pos, loc, ts.len()) == lex_nth(s, p, l, rest.len()));
                },
                Err(e) => {
                    let m = choose|m: nat|
                        {
                            &&& forall|i: nat| i < m ==> gives_token(#[trigger] lex_nth(s, p, l, i).0)
                            &&& lex_nth(s, p, l, m).0 == Err::<Option<TokenView>, LexError>(e)
                        };
                    let n = m + 1;
                    assert forall|i: nat| i < n implies gives_token(#[trigger] lex_nth(s, pos, loc, i).0) by {
                        if i > 0 {
                            assert(lex_nth(s, pos, loc, i) == lex_nth(s, p, l, (i - 1) as nat));
                            assert(gives_token(lex_nth(s, p, l, (i - 1) as nat).0));
                        }
                    }
                    assert(lex_nth(s, pos, loc, n) == lex_nth(s, p, l, m));
                },
            }
        },
    }
}

} // verus!

verus! {

/// The location `l`, taken relative to the start of a text, in a text that starts at
/// `o`: on the first line columns move by `o`'s column, and lines move by `o`'s line.
pub open spec fn shift(o: Loc, l: Loc) -> Loc {
    if l.line == 0 {
        Loc { line: o.line, column: (o.column + l.column) as usize }
    } else {
        Loc { line: (o.line + l.line) as usize, column: l.column }
    }
}

/// A span moved as [`shift`] moves locations.
pub open spec fn shift_span(o: Loc, s: Span) -> Span {
    Span { begin: shift(o, s.begin), end: shift(o, s.end) }
}

/// A token moved as [`shift`] moves locations.
pub open spec fn shift_token(o: Loc, t: TokenView) -> TokenView {
    match t {
        TokenView::OpenParen(l) => TokenView::OpenParen(shift(o, l)),
        TokenView::CloseParen(l) => TokenView::CloseParen(shift(o, l)),
        TokenView::Quote(l) => TokenView::Quote(shift(o, l)),
        TokenView::Quasiquote(l) => TokenView::Quasiquote(shift(o, l)),
        TokenView::Unquote(l) => TokenView::Unquote(shift(o, l)),
        TokenView::UnquoteSplicing(l) => TokenView::UnquoteSplicing(shift(o, l)),
        TokenView::Num(x, s) => TokenView::Num(x, shift_span(o, s)),
        TokenView::Str(x, s) => TokenView::Str(x, shift_span(o, s)),
        TokenView::Sym(x, s) => TokenView::Sym(x, shift_span(o, s)),
    }
}

/// An error moved as [`shift`] moves locations.
pub open spec fn shift_error(o: Loc, e: LexError) -> LexError {
    match e {
        LexError::IncompleteString(s) => LexError::IncompleteString(shift_span(o, s)),
        LexError::InvalidNumber(s) => LexError::InvalidNumber(shift_span(o, s)),
    }
}

/// The outcome of a read moved as [`shift`] moves locations.
pub open spec fn shift_outcome(o: Loc, r: LexOutcome) -> LexOutcome {
    match r {
        Err(e) => Err(shift_error(o, e)),
        Ok(None) => Ok(None),
        Ok(Some(t)) => Ok(Some(shift_token(o, t))),
    }
}

/// The tokens of a text moved as [`shift`] moves locations.
pub open spec fn shift_tokens(o: Loc, r: Result<Seq<TokenView>, LexError>) -> Result<Seq<TokenView>, LexError> {
    match r {
        Err(e) => Err(shift_error(o, e)),
        Ok(ts) => Ok(ts.map_values(|t: TokenView| shift_token(o, t))),
    }
}

/// The locations that `rest` more characters can reach from `l`, and from `l` moved
/// by [`shift`], fit in a machine word.
pub open spec fn shift_fits(o: Loc, l: Loc, rest: int) -> bool {
    &&& rest >= 0
    &&& o.line + l.line + rest <= usize::MAX
    &&& l.column + rest <= usize::MAX
    &&& (l.line == 0 ==> o.column + l.column + rest <= usize::MAX)
}

proof fn lemma_shift_skip(s: Seq<char>, pos: int, o: Loc, l: Loc, in_comment: bool)
    requires
        0 <= pos <= s.len(),
        shift_fits(o, l, s.len() - pos + (if in_comment { 1int } else { 0 })),
    ensures
        skip_blank(s, pos, shift(o, l), in_comment) == (
            skip_blank(s, pos, l, in_comment).0,
            shift(o, skip_blank(s, pos, l, in_comment).1),
        ),
        shift_fits(o, skip_blank(s, pos, l, in_comment).1, s.len() - skip_blank(s, pos, l, in_comment).0),
    decreases s.len() - pos,
{
    if pos < s.len() {
        let c = s[pos];
        if in_comment {
            if c == '\n' {
                assert(next_line(shift(o, l)) == shift(o, next_line(l)));
                lemma_shift_skip(s, pos + 1, o, next_line(l), false);
            } else {
                lemma_shift_skip(s, pos + 1, o, l, true);
            }
        } else if spec_is_whitespace(c) {
            assert(advance(shift(o, l), c) == shift(o, advance(l, c)));
            lemma_shift_skip(s, pos + 1, o, advance(l, c), false);
        } else if c == ';' {
            lemma_shift_skip(s, pos + 1, o, l, true);
        }
    } else if in_comment {
        assert(next_line(shift(o, l)) == shift(o, next_line(l)));
    }
}

proof fn lemma_shift_string(
    s: Seq<char>,
    pos: int,
    o: Loc,
    l: Loc,
    b: Loc,
    text: Seq<char>,
    escaped: bool,
)
    requires
        0 <= pos <= s.len(),
        shift_fits(o, l, s.len() - pos),
    ensures
        ({
            let (r, p, e) = read_string(s, pos, l, b, text, escaped);
            &&& read_string(s, pos, shift(o, l), shift(o, b), text, escaped) == (
                shift_outcome(o, r),
                p,
                shift(o, e),
            )
            &&& pos <= p <= s.len()
            &&& shift_fits(o, e, s.len() - p)
        }),
    decreases s.len() - pos,
{
    if pos < s.len() {
        let c = s[pos];
        assert(advance(shift(o, l), c) == shift(o, advance(l, c)));
        let next = advance(l, c);
        if c == '\n' {
        } else if escaped {
            lemma_shift_string(s, pos + 1, o, next, b, text.push(unescape(c)), false);
        } else if c == '"' {
        } else if c == '\\' {
            lemma_shift_string(s, pos + 1, o, next, b, text, true);
        } else {
            lemma_shift_string(s, pos + 1, o, next, b, text.push(c), false);
        }
    }
}

/// One read does not depend on where the text starts but for its locations: read
/// from a location moved by [`shift`], it gives the outcome moved by [`shift`] and
/// stops at the same position, at the moved location.
pub proof fn lemma_shift_lex(s: Seq<char>, pos: int, o: Loc, l: Loc)
    requires
        0 <= pos <= s.len(),
        shift_fits(o, l, s.len() - pos),
    ensures
        ({
            let (r, p, e) = lex(s, pos, l);
            &&& lex(s, pos, shift(o, l)) == (shift_outcome(o, r), p, shift(o, e))
            &&& shift_fits(o, e, s.len() - p)
        }),
{
    lemma_shift_skip(s, pos, o, l, false);
    lemma_skip_blank_bounds(s, pos, l, false);
    let (p, b) = skip_blank(s, pos, l, false);
    if p < s.len() {
        let c = s[p];
        let l1 = advance(b, c);
        assert(advance(shift(o, b), c) == shift(o, l1));
        lemma_word_end_bounds(s, p + 1);
        if c == ',' && p + 1 < s.len() && s[p + 1] == '@' {
            assert(advance(shift(o, l1), '@') == shift(o, advance(l1, '@')));
        }
        if c == '"' {
            lemma_shift_string(s, p + 1, o, l1, b, Seq::empty(), false);
        }
        let e = word_end(s, p + 1);
        assert(after_word(shift(o, b), p, e) == shift(o, after_word(b, p, e)));
    }
}

proof fn lemma_shift_lex_nth(s: Seq<char>, pos: int, o: Loc, l: Loc, k: nat)
    requires
        0 <= pos <= s.len(),
        shift_fits(o, l, s.len() - pos),
    ensures
        ({
            let (r, p, e) = lex_nth(s, pos, l, k);
            lex_nth(s, pos, shift(o, l), k) == (shift_outcome(o, r), p, shift(o, e))
        }),
    decreases k,
{
    lemma_shift_lex(s, pos, o, l);
    lemma_lex_progress(s, pos, l);
    if k > 0 {
        let (_, p, e) = lex(s, pos, l);
        lemma_shift_lex_nth(s, p, o, e, (k - 1) as nat);
    }
}

/// Where a text starts changes only where its tokens are, read by read: the `k`-th
/// of successive reads of a text from the location `o` gives what the `k`-th read
/// gives from line 0, column 0 (a token, the end, or an error), each location moved
/// by [`shift`], and stops at the same position.
pub proof fn lemma_reads_shift(s: Seq<char>, o: Loc, k: nat)
    requires
        o.line + s.len() <= usize::MAX,
        o.column + s.len() <= usize::MAX,
    ensures
        ({
            let (r, p, e) = lex_nth(s, 0, Loc { line: 0, column: 0 }, k);
            lex_nth(s, 0, o, k) == (shift_outcome(o, r), p, shift(o, e))
        }),
{
    let z = Loc { line: 0, column: 0 };
    assert(shift(o, z) == o);
    lemma_shift_lex_nth(s, 0, o, z, k);
}

proof fn lemma_shift_tokens_from(s: Seq<char>, pos: int, o: Loc, l: Loc)
    requires
        0 <= pos <= s.len(),
        shift_fits(o, l, s.len() - pos),
    ensures
        tokens_from(s, pos, shift(o, l)) == shift_tokens(o, tokens_from(s, pos, l)),
    decreases s.len() - pos,
{
    lemma_shift_lex(s, pos, o, l);
    lemma_lex_progress(s, pos, l);
    let (r, p, e) = lex(s, pos, l);
    if let Ok(Some(t)) = r {
        if pos < p <= s.len() {
            lemma_shift_tokens_from(s, p, o, e);
            match tokens_from(s, p, e) {
                Err(_) => {},
                Ok(ts) => {
                    assert((seq![t] + ts).map_values(|x: TokenView| shift_token(o, x)) =~= seq![
                        shift_token(o, t),
                    ] + ts.map_values(|x: TokenView| shift_token(o, x)));
                },
            }
        } else {
            assert(seq![t].map_values(|x: TokenView| shift_token(o, x)) =~= seq![shift_token(o, t)]);
        }
    } else if let Ok(None) = r {
        assert(Seq::<TokenView>::empty().map_values(|x: TokenView| shift_token(o, x)) =~= Seq::<
            TokenView,
        >::empty());
    }
}

/// Where a text starts changes only where its tokens are: the text read from the
/// location `o` gives the tokens (or the error) that it gives read from line 0,
/// column 0, each location moved by [`shift`].
pub proof fn lemma_tokenize_shift(s: Seq<char>, o: Loc)
    requires
        o.line + s.len() <= usize::MAX,
        o.column + s.len() <= usize::MAX,
    ensures
        tokens_from(s, 0, o) == shift_tokens(o, tokens_from(s, 0, Loc { line: 0, column: 0 })),
{
    let z = Loc { line: 0, column: 0 };
    assert(shift(o, z) == o);
    lemma_shift_tokens_from(s, 0, o, z);
}

} // verus!
