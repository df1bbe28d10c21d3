//! Numbers of the language.

use vstd::prelude::*;
use crate::text::{push_signed_decimal, signed_decimal};

verus! {

/// A number of the language.
///
/// A number is held as the decimal text that denotes its value, a 64-bit IEEE-754
/// value: the text `t` stands for the value that `t.parse::<f64>()` gives. The reader
/// keeps the text of a literal as written (with a leading `-` for a negative
/// literal); numbers that arithmetic produces hold the text that `f64`'s `Display`
/// prints, which is the shortest text that gives the value back. Two numbers are
/// equal when their texts are equal, except that `NaN` equals nothing and `0`
/// equals `-0`; for texts in the `Display` form this is the equality of the values.
#[derive(Debug)]
pub struct Number {
    text: String,
}

impl View for Number {
    type V = Seq<char>;

    closed spec fn view(&self) -> Seq<char> {
        self.text@
    }
}

impl Clone for Number {
    fn clone(&self) -> (n: Number)
        ensures
            n@ == self@,
    {
        Number { text: self.text.clone() }
    }
}

/// The text of not-a-number.
pub open spec fn is_nan_text(t: Seq<char>) -> bool {
    t == seq!['N', 'a', 'N']
}

/// The texts of positive and negative zero.
pub open spec fn is_zero_text(t: Seq<char>) -> bool {
    t == seq!['0'] || t == seq!['-', '0']
}

/// The equality of numbers, on their texts: equal texts other than `NaN`, or two
/// zeros. For texts in the form that `f64`'s `Display` prints this is the equality
/// of the values; for other texts it is not (`1.0` and `1` denote one value, and are
/// not equal here), so a number must be put in that form before it is compared by
/// value.
pub open spec fn num_eq(a: Seq<char>, b: Seq<char>) -> bool {
    (a == b && !is_nan_text(a)) || (is_zero_text(a) && is_zero_text(b))
}

impl Number {
    /// The number that `text` denotes.
    pub fn new(text: String) -> (n: Number)
        ensures
            n@ == text@,
    {
        Number { text }
    }

    /// The number whose value is the integer `value`.
    pub fn from_i32(value: i32) -> (n: Number)
        ensures
            n@ == signed_decimal(value as int),
    {
        let mut text = String::new();
        push_signed_decimal(&mut text, value as i64);
        Number { text }
    }

    /// The text of the number.
    pub fn text(&self) -> (t: &str)
        ensures
            t@ == self@,
    {
        self.text.as_str()
    }

    /// Tests whether the number is not-a-number.
    pub fn is_nan(&self) -> (b: bool)
        ensures
            b == is_nan_text(self@),
    {
        let nan = String::from_str("NaN");
        proof {
            reveal_strlit("NaN");
            assert(nan@ =~= seq!['N', 'a', 'N']);
        }
        self.text == nan
    }

    /// Tests whether the number is a zero, positive or negative.
    pub fn is_zero(&self) -> (b: bool)
        ensures
            b == is_zero_text(self@),
    {
        let zero = String::from_str("0");
        let neg_zero = String::from_str("-0");
        proof {
            reveal_strlit("0");
            reveal_strlit("-0");
            assert(zero@ =~= seq!['0']);
            assert(neg_zero@ =~= seq!['-', '0']);
        }
        self.text == zero || self.text == neg_zero
    }

    /// The equality of numbers (see [`num_eq`]).
    pub fn equals(&self, other: &Number) -> (b: bool)
        ensures
            b == num_eq(self@, other@),
    {
        (self.text == other.text && !self.is_nan()) || (self.is_zero() && other.is_zero())
    }
}

} // verus!
