//! Source locations and regions.

use vstd::prelude::*;
use crate::text::{decimal, push_char, push_decimal};

verus! {

/// A location in the source code defined by a line and column number.
/// Both are 0-based; they are shown 1-based to the user.
#[derive(Clone, Copy, Debug, Default, PartialEq, Eq, Structural)]
pub struct Loc {
    pub line: usize,
    pub column: usize,
}

/// `a` comes strictly before `b` in the source.
pub open spec fn loc_lt(a: Loc, b: Loc) -> bool {
    a.line < b.line || (a.line == b.line && a.column < b.column)
}

impl Loc {
    /// The location at `line` and `column`.
    pub fn new(line: usize, column: usize) -> (loc: Loc)
        ensures
            loc.line == line,
            loc.column == column,
    {
        Loc { line, column }
    }

    /// The location `offset` columns to the right on the same line.
    pub fn with_column_offset(&self, offset: usize) -> (loc: Loc)
        requires
            self.column + offset <= usize::MAX,
        ensures
            loc.line == self.line,
            loc.column == self.column + offset,
    {
        Loc { line: self.line, column: self.column + offset }
    }

    /// The span that begins at `self` and ends at `end`.
    pub fn span_to(&self, end: Loc) -> (span: Span)
        requires
            loc_lt(*self, end),
        ensures
            span.begin == *self,
            span.end == end,
    {
        Span::new(*self, end)
    }
}

/// A region of the source code from `begin` (inclusive) to `end` (exclusive).
#[derive(Clone, Copy, Debug, PartialEq, Eq, Structural)]
pub struct Span {
    pub begin: Loc,
    pub end: Loc,
}

impl Span {
    /// A span from `begin` to `end`; `begin` must come before `end`.
    pub fn new(begin: Loc, end: Loc) -> (span: Span)
        requires
            loc_lt(begin, end),
        ensures
            span.begin == begin,
            span.end == end,
    {
        Span { begin, end }
    }

    /// The numbers that the text of a span shows, 1-based lines and start column,
    /// fit in a machine word.
    pub open spec fn displayable(self) -> bool {
        self.begin.line < usize::MAX && self.begin.column < usize::MAX && self.end.line
            < usize::MAX
    }

    /// The text of a span as shown to the user: `L:C` for a one-character span,
    /// `L:C-E` for a span on one line, and `L:C-L2:E` otherwise, where lines and the
    /// begin column are 1-based and `E` is the (exclusive, 0-based) end column.
    pub open spec fn text(self) -> Seq<char> {
        let head = decimal((self.begin.line + 1) as nat) + seq![':'] + decimal(
            (self.begin.column + 1) as nat,
        );
        if self.begin.line == self.end.line {
            if self.begin.column + 1 == self.end.column {
                head
            } else {
                head + seq!['-'] + decimal(self.end.column as nat)
            }
        } else {
            head + seq!['-'] + decimal((self.end.line + 1) as nat) + seq![':'] + decimal(
                self.end.column as nat,
            )
        }
    }

    /// Renders the span as text (see [`Span::text`]).
    pub fn to_string(&self) -> (s: String)
        requires
            self.displayable(),
        ensures
            s@ == self.text(),
    {
        let mut s = String::new();
        push_decimal(&mut s, (self.begin.line + 1) as u64);
        push_char(&mut s, ':');
        push_decimal(&mut s, (self.begin.column + 1) as u64);
        if self.begin.line == self.end.line {
            if self.begin.column + 1 == self.end.column {
            } else {
                push_char(&mut s, '-');
                push_decimal(&mut s, self.end.column as u64);
            }
        } else {
            push_char(&mut s, '-');
            push_decimal(&mut s, (self.end.line + 1) as u64);
            push_char(&mut s, ':');
            push_decimal(&mut s, self.end.column as u64);
        }
        s
    }
}

} // verus!
