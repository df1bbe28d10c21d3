//! The scanner: an earlier tokenizer of the language, whose tokens carry the
//! location where their first character ends instead of a region.

use vstd::prelude::*;
use crate::lexer::{word_end, after_word};
use crate::number::{num_eq, Number};
use crate::span::Loc;
use crate::text::{
    is_delimiter, is_digit, is_whitespace, push_char, spec_is_delimiter, spec_is_digit,
    spec_is_whitespace,
};

verus! {

/// An error found while scanning a token.
#[derive(Clone, Copy, Debug, PartialEq, Eq, Structural)]
pub enum TokenError {
    /// A string literal that a line end or the end of the input interrupts.
    IncompleteString,
    /// A number that is a point alone.
    InvalidNumber,
}

impl TokenError {
    /// The text of the error: "Incomplete string" or "Invalid number".
    pub fn to_string(&self) -> (s: String)
        ensures
            s@ == match self {
                TokenError::IncompleteString => "Incomplete string"@,
                TokenError::InvalidNumber => "Invalid number"@,
            },
    {
        match self {
            TokenError::IncompleteString => String::from_str("Incomplete string"),
            TokenError::InvalidNumber => String::from_str("Invalid number"),
        }
    }
}

/// A token that the scanner reads. Each carries the location just after the first
/// character that made it (after the `@` of `,@`, after the first digit of a
/// negative number).
#[derive(Debug)]
pub enum ScanToken {
    OpenParen(Loc),
    CloseParen(Loc),
    Quote(Loc),
    Quasiquote(Loc),
    Unquote(Loc),
    UnquoteSplicing(Loc),
    Num(Loc, Number),
    Str(Loc, String),
    Sym(Loc, String),
}

/// The mathematical value of a [`ScanToken`].
pub enum ScanView {
    OpenParen(Loc),
    CloseParen(Loc),
    Quote(Loc),
    Quasiquote(Loc),
    Unquote(Loc),
    UnquoteSplicing(Loc),
    Num(Loc, Seq<char>),
    Str(Loc, Seq<char>),
    Sym(Loc, Seq<char>),
}

impl View for ScanToken {
    type V = ScanView;

    open spec fn view(&self) -> ScanView {
        match self {
            ScanToken::OpenParen(l) => ScanView::OpenParen(*l),
            ScanToken::CloseParen(l) => ScanView::CloseParen(*l),
            ScanToken::Quote(l) => ScanView::Quote(*l),
            ScanToken::Quasiquote(l) => ScanView::Quasiquote(*l),
            ScanToken::Unquote(l) => ScanView::Unquote(*l),
            ScanToken::UnquoteSplicing(l) => ScanView::UnquoteSplicing(*l),
            ScanToken::Num(l, n) => ScanView::Num(*l, n@),
            ScanToken::Str(l, t) => ScanView::Str(*l, t@),
            ScanToken::Sym(l, t) => ScanView::Sym(*l, t@),
        }
    }
}

/// Two scanned tokens are equal when they are of the same kind, at the same
/// location, with the same value (numbers compare as [`num_eq`] says).
pub open spec fn scan_eq(a: ScanView, b: ScanView) -> bool {
    match (a, b) {
        (ScanView::OpenParen(x), ScanView::OpenParen(y)) => x == y,
        (ScanView::CloseParen(x), ScanView::CloseParen(y)) => x == y,
        (ScanView::Quote(x), ScanView::Quote(y)) => x == y,
        (ScanView::Quasiquote(x), ScanView::Quasiquote(y)) => x == y,
        (ScanView::Unquote(x), ScanView::Unquote(y)) => x == y,
        (ScanView::UnquoteSplicing(x), ScanView::UnquoteSplicing(y)) => x == y,
        (ScanView::Num(x, m), ScanView::Num(y, n)) => x == y && num_eq(m, n),
        (ScanView::Str(x, m), ScanView::Str(y, n)) => x == y && m == n,
        (ScanView::Sym(x, m), ScanView::Sym(y, n)) => x == y && m == n,
        _ => false,
    }
}

impl ScanToken {
    /// The location of the token.
    pub fn loc(&self) -> (l: Loc)
        ensures
            l == scan_loc(self@),
    {
        match self {
            ScanToken::OpenParen(l) | ScanToken::CloseParen(l) | ScanToken::Quote(l)
            | ScanToken::Quasiquote(l) | ScanToken::Unquote(l) | ScanToken::UnquoteSplicing(l)
            | ScanToken::Num(l, _) | ScanToken::Str(l, _) | ScanToken::Sym(l, _) => *l,
        }
    }
}

/// The location of a scanned token.
pub open spec fn scan_loc(t: ScanView) -> Loc {
    match t {
        ScanView::OpenParen(l) => l,
        ScanView::CloseParen(l) => l,
        ScanView::Quote(l) => l,
        ScanView::Quasiquote(l) => l,
        ScanView::Unquote(l) => l,
        ScanView::UnquoteSplicing(l) => l,
        ScanView::Num(l, _) => l,
        ScanView::Str(l, _) => l,
        ScanView::Sym(l, _) => l,
    }
}

impl PartialEq for ScanToken {
    fn eq(&self, other: &ScanToken) -> (b: bool) {
        match (self, other) {
            (ScanToken::OpenParen(x), ScanToken::OpenParen(y)) => *x == *y,
            (ScanToken::CloseParen(x), ScanToken::CloseParen(y)) => *x == *y,
            (ScanToken::Quote(x), ScanToken::Quote(y)) => *x == *y,
            (ScanToken::Quasiquote(x), ScanToken::Quasiquote(y)) => *x == *y,
            (ScanToken::Unquote(x), ScanToken::Unquote(y)) => *x == *y,
            (ScanToken::UnquoteSplicing(x), ScanToken::UnquoteSplicing(y)) => *x == *y,
            (ScanToken::Num(x, m), ScanToken::Num(y, n)) => *x == *y && m.equals(n),
            (ScanToken::Str(x, m), ScanToken::Str(y, n)) => *x == *y && *m == *n,
            (ScanToken::Sym(x, m), ScanToken::Sym(y, n)) => *x == *y && *m == *n,
            _ => false,
        }
    }
}

impl vstd::std_specs::cmp::PartialEqSpecImpl for ScanToken {
    open spec fn obeys_eq_spec() -> bool {
        true
    }

    open spec fn eq_spec(&self, other: &ScanToken) -> bool {
        scan_eq(self@, other@)
    }
}

// ---------------------------------------------------------------------------
// The scanning rules, as spec functions over the input characters.
// ---------------------------------------------------------------------------

/// The location after reading `c` at `loc`: a line end moves to column 1 of the next
/// line, any other character one column to the right.
pub open spec fn scan_advance(loc: Loc, c: char) -> Loc {
    if c == '\n' {
        scan_next_line(loc)
    } else {
        Loc { line: loc.line, column: (loc.column + 1) as usize }
    }
}

/// Column 1 of the line after the one of `loc`.
pub open spec fn scan_next_line(loc: Loc) -> Loc {
    Loc { line: (loc.line + 1) as usize, column: 1 }
}

/// Skips white space and comments from `pos`. A comment runs from `;` to the end of
/// its line; its characters do not move the location, and its end moves the
/// location to the next line (also when the input ends first).
pub open spec fn scan_skip(s: Seq<char>, pos: int, loc: Loc, in_comment: bool) -> (int, Loc)
    decreases s.len() - pos,
{
    if pos < 0 || pos >= s.len() {
        if in_comment {
            (pos, scan_next_line(loc))
        } else {
            (pos, loc)
        }
    } else if in_comment {
        if s[pos] == '\n' {
            scan_skip(s, pos + 1, scan_next_line(loc), false)
        } else {
            scan_skip(s, pos + 1, loc, true)
        }
    } else if spec_is_whitespace(s[pos]) {
        scan_skip(s, pos + 1, scan_advance(loc, s[pos]), false)
    } else if s[pos] == ';' {
        scan_skip(s, pos + 1, loc, true)
    } else {
        (pos, loc)
    }
}

/// The outcome of scanning one token.
pub type ScanOutcome = Result<Option<ScanView>, TokenError>;

/// Reads the rest of a string literal from `pos` (see the lexer's rules; here errors
/// carry no region), with the token's location `at`.
pub open spec fn scan_string(
    s: Seq<char>,
    pos: int,
    loc: Loc,
    at: Loc,
    text: Seq<char>,
    escaped: bool,
) -> (ScanOutcome, int, Loc)
    decreases s.len() - pos,
{
    if pos < 0 || pos >= s.len() {
        (Err(TokenError::IncompleteString), pos, loc)
    } else {
        let c = s[pos];
        let next = scan_advance(loc, c);
        if c == '\n' {
            (Err(TokenError::IncompleteString), pos + 1, next)
        } else if escaped {
            scan_string(s, pos + 1, next, at, text.push(crate::lexer::unescape(c)), false)
        } else if c == '"' {
            (Ok(Some(ScanView::Str(at, text))), pos + 1, next)
        } else if c == '\\' {
            scan_string(s, pos + 1, next, at, text, true)
        } else {
            scan_string(s, pos + 1, next, at, text.push(c), false)
        }
    }
}

/// Reads the rest of a number from `pos`: digits, and one decimal point unless the
/// number has one already (`point`). `digits` holds what has been read; `negative`
/// tells whether a `-` came before it. A point alone is not a number.
pub open spec fn scan_number(
    s: Seq<char>,
    pos: int,
    loc: Loc,
    at: Loc,
    digits: Seq<char>,
    point: bool,
    negative: bool,
) -> (ScanOutcome, int, Loc)
    decreases s.len() - pos,
{
    if 0 <= pos < s.len() && (spec_is_digit(s[pos]) || (!point && s[pos] == '.')) {
        scan_number(
            s,
            pos + 1,
            scan_advance(loc, s[pos]),
            at,
            digits.push(s[pos]),
            point || s[pos] == '.',
            negative,
        )
    } else if digits == seq!['.'] {
        (Err(TokenError::InvalidNumber), pos, loc)
    } else {
        (Ok(Some(ScanView::Num(at, if negative { seq!['-'] + digits } else { digits }))), pos, loc)
    }
}

/// Reads a symbol whose first character is at `p`, with the token's location `at`
/// (the location after that character).
pub open spec fn scan_symbol(s: Seq<char>, p: int, at: Loc) -> (ScanOutcome, int, Loc) {
    let e = word_end(s, p + 1);
    let end = after_word(at, p + 1, e);
    (Ok(Some(ScanView::Sym(at, s.subrange(p, e)))), e, end)
}

/// Scans the next token of `s` from `pos`, located at `loc`: the outcome, the
/// position after it, and the location there.
pub open spec fn scan(s: Seq<char>, pos: int, loc: Loc) -> (ScanOutcome, int, Loc) {
    let (p, b) = scan_skip(s, pos, loc, false);
    if p < 0 || p >= s.len() {
        (Ok(None), p, b)
    } else {
        let c = s[p];
        let l1 = scan_advance(b, c);
        if c == '(' {
            (Ok(Some(ScanView::OpenParen(l1))), p + 1, l1)
        } else if c == ')' {
            (Ok(Some(ScanView::CloseParen(l1))), p + 1, l1)
        } else if c == '\'' {
            (Ok(Some(ScanView::Quote(l1))), p + 1, l1)
        } else if c == '`' {
            (Ok(Some(ScanView::Quasiquote(l1))), p + 1, l1)
        } else if c == ',' {
            if p + 1 < s.len() && s[p + 1] == '@' {
                let l2 = scan_advance(l1, '@');
                (Ok(Some(ScanView::UnquoteSplicing(l2))), p + 2, l2)
            } else {
                (Ok(Some(ScanView::Unquote(l1))), p + 1, l1)
            }
        } else if c == '"' {
            scan_string(s, p + 1, l1, l1, Seq::empty(), false)
        } else if spec_is_digit(c) || c == '.' {
            scan_number(s, p + 1, l1, l1, seq![c], c == '.', false)
        } else if c == '-' && p + 1 < s.len() && spec_is_digit(s[p + 1]) {
            let l2 = scan_advance(l1, s[p + 1]);
            scan_number(s, p + 2, l2, l2, seq![s[p + 1]], false, true)
        } else {
            scan_symbol(s, p, l1)
        }
    }
}

/// The view of a scan result.
pub open spec fn scan_outcome_view(r: Result<Option<ScanToken>, TokenError>) -> ScanOutcome {
    match r {
        Err(e) => Err(e),
        Ok(None) => Ok(None),
        Ok(Some(t)) => Ok(Some(t@)),
    }
}

/// The scanner. It reads tokens one by one from its input characters, the first of
/// which is at line 1, column 0.
pub struct Scanner {
    chars: Vec<char>,
    pos: usize,
    loc: Loc,
}

impl Scanner {
    /// The characters that the scanner reads.
    pub closed spec fn input(&self) -> Seq<char> {
        self.chars@
    }

    /// The position of the next character to read.
    pub closed spec fn pos(&self) -> int {
        self.pos as int
    }

    /// The location of the last character read.
    pub closed spec fn loc(&self) -> Loc {
        self.loc
    }

    /// The position is within the input, and the locations that the rest of the input
    /// can reach fit in a machine word.
    pub open spec fn wf(&self) -> bool {
        &&& 0 <= self.pos() <= self.input().len()
        &&& self.loc().line + (self.input().len() - self.pos()) + 1 <= usize::MAX
        &&& self.loc().column + (self.input().len() - self.pos()) + 1 <= usize::MAX
    }

    /// A scanner that reads `chars`.
    pub fn new(chars: Vec<char>) -> (scanner: Scanner)
        requires
            chars.len() + 2 <= usize::MAX,
        ensures
            scanner.wf(),
            scanner.input() == chars@,
            scanner.pos() == 0,
            scanner.loc() == (Loc { line: 1, column: 0 }),
    {
        Scanner { chars, pos: 0, loc: Loc { line: 1, column: 0 } }
    }

    fn bump(&mut self) -> (c: char)
        requires
            old(self).wf(),
            old(self).pos() < old(self).input().len(),
        ensures
            final(self).wf(),
            final(self).input() == old(self).input(),
            c == old(self).input()[old(self).pos()],
            final(self).pos() == old(self).pos() + 1,
            final(self).loc() == scan_advance(old(self).loc(), c),
    {
        // the length of a vector fits in a machine word, so the position after `c` does too
        let _len = self.chars.len();
        let c = self.chars[self.pos];
        self.pos = self.pos + 1;
        if c == '\n' {
            self.loc = Loc { line: self.loc.line + 1, column: 1 };
        } else {
            self.loc = Loc { line: self.loc.line, column: self.loc.column + 1 };
        }
        c
    }

    fn skip(&mut self)
        requires
            old(self).wf(),
        ensures
            final(self).wf(),
            final(self).input() == old(self).input(),
            (final(self).pos(), final(self).loc()) == scan_skip(
                old(self).input(),
                old(self).pos(),
                old(self).loc(),
                false,
            ),
    {
        let ghost s = self.chars@;
        let ghost target = scan_skip(s, self.pos as int, self.loc, false);
        let mut in_comment = false;
        loop
            invariant
                self.chars@ == s,
                s == old(self).input(),
                target == scan_skip(old(self).input(), old(self).pos(), old(self).loc(), false),
                0 <= self.pos <= s.len(),
                self.loc.line + (s.len() - self.pos) + 1 + (if in_comment { 1int } else { 0 })
                    <= usize::MAX,
                self.loc.column + (s.len() - self.pos) + 1 <= usize::MAX,
                scan_skip(s, self.pos as int, self.loc, in_comment) == target,
            decreases s.len() - self.pos,
        {
            if self.pos >= self.chars.len() {
                if in_comment {
                    self.loc = Loc { line: self.loc.line + 1, column: 1 };
                }
                return ;
            }
            let c = self.chars[self.pos];
            if in_comment {
                self.pos = self.pos + 1;
                if c == '\n' {
                    self.loc = Loc { line: self.loc.line + 1, column: 1 };
                    in_comment = false;
                }
            } else if is_whitespace(c) {
                self.bump();
            } else if c == ';' {
                self.pos = self.pos + 1;
                in_comment = true;
            } else {
                return ;
            }
        }
    }

    /// Reads the rest of a string literal whose opening quote has been read (see
    /// [`scan_string`]); the token is located where the scanner stands.
    pub fn read_string(&mut self) -> (r: Result<Option<ScanToken>, TokenError>)
        requires
            old(self).wf(),
        ensures
            final(self).wf(),
            final(self).input() == old(self).input(),
            (scan_outcome_view(r), final(self).pos(), final(self).loc()) == scan_string(
                old(self).input(),
                old(self).pos(),
                old(self).loc(),
                old(self).loc(),
                Seq::empty(),
                false,
            ),
    {
        let at = self.loc;
        let ghost s = self.chars@;
        let ghost target = scan_string(s, self.pos as int, self.loc, at, Seq::empty(), false);
        let mut text = String::new();
        let mut escaped = false;
        loop
            invariant
                self.wf(),
                self.chars@ == s,
                s == old(self).input(),
                at == old(self).loc(),
                target == scan_string(
                    old(self).input(),
                    old(self).pos(),
                    old(self).loc(),
                    old(self).loc(),
                    Seq::empty(),
                    false,
                ),
                scan_string(s, self.pos as int, self.loc, at, text@, escaped) == target,
            decreases s.len() - self.pos,
        {
            if self.pos >= self.chars.len() {
                return Err(TokenError::IncompleteString);
            }
            let c = self.bump();
            if c == '\n' {
                return Err(TokenError::IncompleteString);
            } else if escaped {
                escaped = false;
                let u = if c == 'n' {
                    '\n'
                } else if c == 'r' {
                    '\r'
                } else if c == 't' {
                    '\t'
                } else {
                    c
                };
                push_char(&mut text, u);
            } else if c == '"' {
                return Ok(Some(ScanToken::Str(at, text)));
            } else if c == '\\' {
                escaped = true;
            } else {
                push_char(&mut text, c);
            }
        }
    }

    /// Tests whether the next character continues a number: a digit, or a point when
    /// the number has none yet.
    fn continues_number(&self, point: bool) -> (b: bool)
        ensures
            b == (0 <= self.pos() < self.input().len() && (spec_is_digit(self.input()[self.pos()])
                || (!point && self.input()[self.pos()] == '.'))),
    {
        self.pos < self.chars.len() && (is_digit(self.chars[self.pos]) || (!point
            && self.chars[self.pos] == '.'))
    }

    /// Reads the rest of a number whose first character `first`, a digit or a point,
    /// has been read (see [`scan_number`]); `negative` tells whether a `-` came before
    /// it. The token is located where the scanner stands.
    pub fn read_number(&mut self, first: char, negative: bool) -> (r: Result<Option<ScanToken>, TokenError>)
        requires
            old(self).wf(),
            spec_is_digit(first) || first == '.',
        ensures
            final(self).wf(),
            final(self).input() == old(self).input(),
            (scan_outcome_view(r), final(self).pos(), final(self).loc()) == scan_number(
                old(self).input(),
                old(self).pos(),
                old(self).loc(),
                old(self).loc(),
                seq![first],
                first == '.',
                negative,
            ),
    {
        let at = self.loc;
        let start = self.pos;
        let ghost s = self.chars@;
        let ghost target = scan_number(s, self.pos as int, self.loc, at, seq![first], first == '.', negative);
        let mut digits = String::new();
        push_char(&mut digits, first);
        assert(digits@ =~= seq![first]);
        let mut point = first == '.';
        while self.continues_number(point)
            invariant
                self.wf(),
                self.chars@ == s,
                s == old(self).input(),
                at == old(self).loc(),
                start == old(self).pos(),
                start <= self.pos,
                target == scan_number(
                    old(self).input(),
                    old(self).pos(),
                    old(self).loc(),
                    old(self).loc(),
                    seq![first],
                    first == '.',
                    negative,
                ),
                scan_number(s, self.pos as int, self.loc, at, digits@, point, negative) == target,
                digits@.len() == 1 + (self.pos - start),
                digits@[0] == first,
            decreases s.len() - self.pos,
        {
            let c = self.bump();
            push_char(&mut digits, c);
            if c == '.' {
                point = true;
            }
        }
        if self.pos == start && first == '.' {
            assert(digits@ =~= seq!['.']);
            return Err(TokenError::InvalidNumber);
        }
        assert(digits@ != seq!['.']) by {
            if self.pos != start {
                assert(digits@.len() != 1);
            } else {
                assert(digits@[0] != '.');
            }
        }
        let mut text = String::new();
        if negative {
            push_char(&mut text, '-');
        }
        crate::text::push_str(&mut text, digits.as_str());
        proof {
            if negative {
                assert(Seq::<char>::empty().push('-') + digits@ =~= seq!['-'] + digits@);
            } else {
                assert(Seq::<char>::empty() + digits@ =~= digits@);
            }
        }
        Ok(Some(ScanToken::Num(at, Number::new(text))))
    }

    fn find_word_end(&self, from: usize) -> (e: usize)
        requires
            from <= self.input().len(),
        ensures
            e as int == word_end(self.input(), from as int),
            from <= e <= self.input().len(),
    {
        let mut e = from;
        while e < self.chars.len() && !is_delimiter(self.chars[e])
            invariant
                from <= e <= self.chars@.len(),
                word_end(self.chars@, from as int) == word_end(self.chars@, e as int),
            decreases self.chars@.len() - e,
        {
            e = e + 1;
        }
        e
    }

    fn read_symbol(&mut self, p: usize) -> (r: Result<Option<ScanToken>, TokenError>)
        requires
            old(self).wf(),
            p < old(self).input().len(),
            old(self).pos() == p + 1,
        ensures
            final(self).wf(),
            final(self).input() == old(self).input(),
            (scan_outcome_view(r), final(self).pos(), final(self).loc()) == scan_symbol(
                old(self).input(),
                p as int,
                old(self).loc(),
            ),
    {
        let at = self.loc;
        let e = self.find_word_end(p + 1);
        let mut name = String::new();
        crate::lexer::push_chars(&mut name, &self.chars, p, e);
        assert(Seq::<char>::empty() + self.chars@.subrange(p as int, e as int) == self.chars@.subrange(p as int, e as int));
        self.pos = e;
        self.loc = Loc { line: at.line, column: at.column + (e - (p + 1)) };
        Ok(Some(ScanToken::Sym(at, name)))
    }

    /// Scans the next token (see [`scan`]): `Ok(Some(token))`, `Ok(None)` at the end
    /// of the input, or an error.
    pub fn get_token(&mut self) -> (r: Result<Option<ScanToken>, TokenError>)
        requires
            old(self).wf(),
        ensures
            final(self).wf(),
            final(self).input() == old(self).input(),
            (scan_outcome_view(r), final(self).pos(), final(self).loc()) == scan(
                old(self).input(),
                old(self).pos(),
                old(self).loc(),
            ),
    {
        self.skip();
        let p = self.pos;
        if self.pos >= self.chars.len() {
            return Ok(None);
        }
        let c = self.bump();
        if c == '(' {
            Ok(Some(ScanToken::OpenParen(self.loc)))
        } else if c == ')' {
            Ok(Some(ScanToken::CloseParen(self.loc)))
        } else if c == '\'' {
            Ok(Some(ScanToken::Quote(self.loc)))
        } else if c == '`' {
            Ok(Some(ScanToken::Quasiquote(self.loc)))
        } else if c == ',' {
            if self.pos < self.chars.len() && self.chars[self.pos] == '@' {
                self.bump();
                Ok(Some(ScanToken::UnquoteSplicing(self.loc)))
            } else {
                Ok(Some(ScanToken::Unquote(self.loc)))
            }
        } else if c == '"' {
            self.read_string()
        } else if is_digit(c) || c == '.' {
            self.read_number(c, false)
        } else if c == '-' && self.pos < self.chars.len() && is_digit(self.chars[self.pos]) {
            let d = self.bump();
            self.read_number(d, true)
        } else {
            self.read_symbol(p)
        }
    }
}

} // verus!

verus! {

proof fn lemma_scan_skip_bounds(s: Seq<char>, pos: int, loc: Loc, in_comment: bool)
    requires
        0 <= pos <= s.len(),
    ensures
        pos <= scan_skip(s, pos, loc, in_comment).0 <= s.len(),
    decreases s.len() - pos,
{
    if pos < s.len() {
        let c = s[pos];
        if in_comment {
            if c == '\n' {
                lemma_scan_skip_bounds(s, pos + 1, scan_next_line(loc), false);
            } else {
                lemma_scan_skip_bounds(s, pos + 1, loc, true);
            }
        } else if spec_is_whitespace(c) {
            lemma_scan_skip_bounds(s, pos + 1, scan_advance(loc, c), false);
        } else if c == ';' {
            lemma_scan_skip_bounds(s, pos + 1, loc, true);
        }
    }
}

proof fn lemma_scan_string_finds(
    s: Seq<char>,
    pos: int,
    loc: Loc,
    at: Loc,
    text: Seq<char>,
    escaped: bool,
)
    ensures
        scan_string(s, pos, loc, at, text, escaped).0 != Ok::<Option<ScanView>, TokenError>(None),
    decreases s.len() - pos,
{
    if 0 <= pos < s.len() {
        let c = s[pos];
        let next = scan_advance(loc, c);
        if c == '\n' {
        } else if escaped {
            lemma_scan_string_finds(s, pos + 1, next, at, text.push(crate::lexer::unescape(c)), false);
        } else if c == '"' {
        } else if c == '\\' {
            lemma_scan_string_finds(s, pos + 1, next, at, text, true);
        } else {
            lemma_scan_string_finds(s, pos + 1, next, at, text.push(c), false);
        }
    }
}

proof fn lemma_scan_number_finds(
    s: Seq<char>,
    pos: int,
    loc: Loc,
    at: Loc,
    digits: Seq<char>,
    point: bool,
    negative: bool,
)
    ensures
        scan_number(s, pos, loc, at, digits, point, negative).0 != Ok::<Option<ScanView>, TokenError>(
            None,
        ),
    decreases s.len() - pos,
{
    if 0 <= pos < s.len() && (spec_is_digit(s[pos]) || (!point && s[pos] == '.')) {
        lemma_scan_number_finds(
            s,
            pos + 1,
            scan_advance(loc, s[pos]),
            at,
            digits.push(s[pos]),
            point || s[pos] == '.',
            negative,
        );
    }
}

/// Once a scan finds no token, the scanner stands at the end of the input, and
/// scanning again from there finds no token again and moves nowhere.
pub proof fn lemma_scan_end_is_stable(s: Seq<char>, pos: int, loc: Loc)
    requires
        0 <= pos <= s.len(),
        scan(s, pos, loc).0 == Ok::<Option<ScanView>, TokenError>(None),
    ensures
        scan(s, pos, loc).1 == s.len(),
        scan(s, scan(s, pos, loc).1, scan(s, pos, loc).2) == (
            Ok::<Option<ScanView>, TokenError>(None),
            scan(s, pos, loc).1,
            scan(s, pos, loc).2,
        ),
{
    lemma_scan_skip_bounds(s, pos, loc, false);
    let (p, b) = scan_skip(s, pos, loc, false);
    if p < s.len() {
        let c = s[p];
        let l1 = scan_advance(b, c);
        lemma_scan_string_finds(s, p + 1, l1, l1, Seq::empty(), false);
        lemma_scan_number_finds(s, p + 1, l1, l1, seq![c], c == '.', false);
        if p + 1 < s.len() {
            let l2 = scan_advance(l1, s[p + 1]);
            lemma_scan_number_finds(s, p + 2, l2, l2, seq![s[p + 1]], false, true);
        }
    }
    assert(scan_skip(s, p, b, false) == (p, b));
}

} // verus!
