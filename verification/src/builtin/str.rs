//! String procedures: the computations on strings.

use vstd::prelude::*;
use crate::text::chars_of;

verus! {

/// The number of characters of `text`, as the length procedure gives it: a 32-bit
/// integer (the count wraps for texts of more than `i32::MAX` characters).
pub fn length(text: &str) -> (n: i32)
    ensures
        n == text@.len() as i32,
{
    let count = text.unicode_len();
    count as i32
}

/// The lexicographic order of texts, character by character: -1, 0 or 1 as `a`
/// comes before, equals, or comes after `b`. This is the order of `String`, whose
/// comparison of UTF-8 bytes orders texts as their characters' code points do.
pub open spec fn text_order(a: Seq<char>, b: Seq<char>) -> int
    decreases a.len(),
{
    if a.len() == 0 {
        if b.len() == 0 {
            0
        } else {
            -1
        }
    } else if b.len() == 0 {
        1
    } else if a[0] < b[0] {
        -1
    } else if a[0] > b[0] {
        1
    } else {
        text_order(a.drop_first(), b.drop_first())
    }
}

/// Compares two texts (see [`text_order`]).
pub fn compare(a: &str, b: &str) -> (r: i32)
    ensures
        r as int == text_order(a@, b@),
{
    let x = chars_of(a);
    let y = chars_of(b);
    let mut i: usize = 0;
    assert(x@.subrange(0, x@.len() as int) =~= x@);
    assert(y@.subrange(0, y@.len() as int) =~= y@);
    while i < x.len() && i < y.len() && x[i] == y[i]
        invariant
            i <= x@.len(),
            i <= y@.len(),
            text_order(a@, b@) == text_order(x@.subrange(i as int, x@.len() as int), y@.subrange(i as int, y@.len() as int)),
            x@ == a@,
            y@ == b@,
        decreases x@.len() - i,
    {
        assert(x@.subrange(i as int, x@.len() as int).drop_first() =~= x@.subrange(i + 1, x@.len() as int));
        assert(y@.subrange(i as int, y@.len() as int).drop_first() =~= y@.subrange(i + 1, y@.len() as int));
        i = i + 1;
    }
    let ghost sx = x@.subrange(i as int, x@.len() as int);
    let ghost sy = y@.subrange(i as int, y@.len() as int);
    assert(i < x@.len() ==> sx[0] == x@[i as int]);
    assert(i < y@.len() ==> sy[0] == y@[i as int]);
    if i == x.len() {
        if i == y.len() {
            0
        } else {
            -1
        }
    } else if i == y.len() {
        1
    } else if x[i] < y[i] {
        -1
    } else {
        1
    }
}

/// The position that a slice index stands for in a text of `len` characters: the
/// index is clamped to `-len..=len`, and a negative one counts from the end.
pub open spec fn slice_index(len: int, pos: int) -> int {
    let p = if pos < -len {
        -len
    } else if pos > len {
        len
    } else {
        pos
    };
    if p < 0 {
        len + p
    } else {
        p
    }
}

/// The characters that the slice procedure takes from a text of `len` characters
/// for the indices `beg` and `end`, in order.
pub open spec fn slice_range(len: int, beg: int, end: int) -> (int, int) {
    let b = slice_index(len, beg);
    let e = slice_index(len, end);
    if b <= e {
        (b, e)
    } else {
        (e, b)
    }
}

fn to_index(len: i32, pos: i32) -> (i: usize)
    requires
        0 <= len,
    ensures
        i as int == slice_index(len as int, pos as int),
        i <= len,
{
    let p = if pos < -len {
        -len
    } else if pos > len {
        len
    } else {
        pos
    };
    if p < 0 {
        (len + p) as usize
    } else {
        p as usize
    }
}

/// The slice of `text` between the indices `beg` and `end` (the end of the text
/// when `end` is `None`); see [`slice_range`].
pub fn slice(text: &str, beg: i32, end: Option<i32>) -> (s: String)
    requires
        text@.len() <= i32::MAX,
    ensures
        ({
            let len = text@.len() as int;
            let e = match end {
                Some(e) => e as int,
                None => len,
            };
            let (b0, e0) = slice_range(len, beg as int, e);
            s@ == text@.subrange(b0, e0)
        }),
{
    let text_len = text.unicode_len() as i32;
    let end = match end {
        Some(e) => e,
        None => text_len,
    };
    let b = to_index(text_len, beg);
    let e = to_index(text_len, end);
    let (b, e) = if b <= e {
        (b, e)
    } else {
        (e, b)
    };
    text.substring_char(b, e).to_owned()
}

} // verus!

verus! {

/// Comparing two texts one way gives the opposite of comparing them the other way.
pub proof fn lemma_compare_antisymmetric(a: Seq<char>, b: Seq<char>)
    ensures
        text_order(a, b) == -text_order(b, a),
    decreases a.len(),
{
    if a.len() > 0 && b.len() > 0 && a[0] == b[0] {
        lemma_compare_antisymmetric(a.drop_first(), b.drop_first());
    }
}

/// Two texts compare as equal exactly when they are equal, and otherwise as -1 or 1.
pub proof fn lemma_compare_equal(a: Seq<char>, b: Seq<char>)
    ensures
        text_order(a, b) == 0 <==> a == b,
        text_order(a, b) == -1 || text_order(a, b) == 0 || text_order(a, b) == 1,
    decreases a.len(),
{
    if a.len() > 0 && b.len() > 0 && a[0] == b[0] {
        lemma_compare_equal(a.drop_first(), b.drop_first());
        assert(text_order(a, b) == text_order(a.drop_first(), b.drop_first()));
        if a.drop_first() == b.drop_first() {
            assert(a =~= seq![a[0]] + a.drop_first());
            assert(b =~= seq![b[0]] + b.drop_first());
        } else if a =~= b {
            assert(a.drop_first() =~= b.drop_first());
        }
    } else if a =~= b {
        assert(a.len() == 0);
    } else if a.len() > 0 && b.len() > 0 {
        assert(a[0] != b[0]);
        assert(!(a =~= b));
    } else {
        assert(a.len() != b.len());
    }
}

/// `a` comes before `b` in the lexicographic order: `a` is a proper prefix of `b`,
/// or at the first position where they differ `a` has the smaller character.
pub open spec fn lex_before(a: Seq<char>, b: Seq<char>) -> bool {
    ||| (a.len() < b.len() && a == b.subrange(0, a.len() as int))
    ||| exists|k: int|
        0 <= k < a.len() && k < b.len() && a.subrange(0, k) == b.subrange(0, k) && #[trigger] a[k] < b[k]
}

/// A text compares as before another (-1) exactly when it comes before it in the
/// lexicographic order: a proper prefix comes before the longer text, and otherwise
/// the first differing character decides.
pub proof fn lemma_compare_before(a: Seq<char>, b: Seq<char>)
    ensures
        text_order(a, b) == -1 <==> lex_before(a, b),
    decreases a.len(),
{
    if a.len() == 0 {
        assert(a =~= b.subrange(0, 0));
        assert(text_order(a, b) == -1 <==> lex_before(a, b));
    } else if b.len() == 0 {
        assert(text_order(a, b) == -1 <==> lex_before(a, b));
    } else if a[0] < b[0] {
        assert(a.subrange(0, 0) =~= b.subrange(0, 0));
        assert(a[0] < b[0]);
        assert(text_order(a, b) == -1 <==> lex_before(a, b));
    } else if a[0] > b[0] {
        if a.len() < b.len() && a == b.subrange(0, a.len() as int) {
            assert(a[0] == b.subrange(0, a.len() as int)[0]);
        }
        if exists|k: int|
            0 <= k < a.len() && k < b.len() && a.subrange(0, k) == b.subrange(0, k) && #[trigger] a[k] < b[k] {
            let k = choose|k: int|
                0 <= k < a.len() && k < b.len() && a.subrange(0, k) == b.subrange(0, k) && #[trigger] a[k] < b[k];
            if k > 0 {
                assert(a[0] == a.subrange(0, k)[0]);
                assert(b[0] == b.subrange(0, k)[0]);
            }
        }
        assert(text_order(a, b) == -1 <==> lex_before(a, b));
    } else {
        let a1 = a.drop_first();
        let b1 = b.drop_first();
        lemma_compare_before(a1, b1);
        // the prefix case
        if a.len() < b.len() && a == b.subrange(0, a.len() as int) {
            assert(a1 =~= b1.subrange(0, a1.len() as int));
        }
        if a1.len() < b1.len() && a1 == b1.subrange(0, a1.len() as int) {
            assert(a =~= b.subrange(0, a.len() as int)) by {
                assert forall|j: int| 0 <= j < a.len() implies a[j] == b.subrange(0, a.len() as int)[j] by {
                    if j > 0 {
                        assert(a[j] == a1[j - 1]);
                        assert(a1[j - 1] == b1.subrange(0, a1.len() as int)[j - 1]);
                    }
                }
            }
        }
        // the first difference
        if exists|k: int|
            0 <= k < a.len() && k < b.len() && a.subrange(0, k) == b.subrange(0, k) && #[trigger] a[k] < b[k] {
            let k = choose|k: int|
                0 <= k < a.len() && k < b.len() && a.subrange(0, k) == b.subrange(0, k) && #[trigger] a[k] < b[k];
            assert(k > 0);
            assert(a1.subrange(0, k - 1) =~= a.subrange(0, k).drop_first());
            assert(b1.subrange(0, k - 1) =~= b.subrange(0, k).drop_first());
            assert(a1[k - 1] == a[k] && b1[k - 1] == b[k]);
            assert(lex_before(a1, b1));
        }
        if exists|k: int|
            0 <= k < a1.len() && k < b1.len() && a1.subrange(0, k) == b1.subrange(0, k) && #[trigger] a1[k] < b1[k] {
            let k = choose|k: int|
                0 <= k < a1.len() && k < b1.len() && a1.subrange(0, k) == b1.subrange(0, k) && #[trigger] a1[k]
                    < b1[k];
            assert(a.subrange(0, k + 1) =~= seq![a[0]] + a1.subrange(0, k));
            assert(b.subrange(0, k + 1) =~= seq![b[0]] + b1.subrange(0, k));
            assert(a[k + 1] == a1[k] && b[k + 1] == b1[k]);
            assert(lex_before(a, b));
        }
        assert(text_order(a, b) == text_order(a1, b1));
        assert(lex_before(a1, b1) ==> lex_before(a, b));
        assert(lex_before(a, b) ==> lex_before(a1, b1));
    }
}

} // verus!
