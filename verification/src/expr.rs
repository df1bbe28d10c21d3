//! Expressions of the language: numbers, strings, symbols and lists.

use vstd::prelude::*;
use vstd::std_specs::cmp::PartialEqSpecImpl;
use crate::number::{num_eq, Number};
use crate::span::{loc_lt, Span};
use crate::text::{push_char, push_str};

verus! {

/// What identifies a closure: its name, its formal arguments and the text of its
/// body (together with the environment it captures, which its handle names).
#[derive(Debug)]
pub struct ClosureKey {
    pub name: Option<String>,
    pub formals: Vec<String>,
    pub body: String,
}

/// The mathematical value of a [`ClosureKey`].
pub struct ClosureKeyView {
    pub name: Option<Seq<char>>,
    pub formals: Seq<Seq<char>>,
    pub body: Seq<char>,
}

impl View for ClosureKey {
    type V = ClosureKeyView;

    open spec fn view(&self) -> ClosureKeyView {
        ClosureKeyView {
            name: match self.name {
                Some(n) => Some(n@),
                None => None,
            },
            formals: self.formals@.map_values(|f: String| f@),
            body: self.body@,
        }
    }
}

fn copy_names(names: &Vec<String>) -> (r: Vec<String>)
    ensures
        r@.map_values(|f: String| f@) == names@.map_values(|f: String| f@),
{
    let mut r: Vec<String> = Vec::new();
    let mut i: usize = 0;
    while i < names.len()
        invariant
            i <= names@.len(),
            r@.len() == i,
            forall|k: int| 0 <= k < i ==> (#[trigger] r@[k])@ == names@[k]@,
        decreases names@.len() - i,
    {
        let c = names[i].clone();
        r.push(c);
        i = i + 1;
    }
    assert(r@.map_values(|f: String| f@) =~= names@.map_values(|f: String| f@));
    r
}

fn same_names(a: &Vec<String>, b: &Vec<String>) -> (r: bool)
    ensures
        r == (a@.map_values(|f: String| f@) == b@.map_values(|f: String| f@)),
{
    let ghost av = a@.map_values(|f: String| f@);
    let ghost bv = b@.map_values(|f: String| f@);
    if a.len() != b.len() {
        assert(av.len() != bv.len());
        return false;
    }
    let mut i: usize = 0;
    while i < a.len()
        invariant
            i <= a@.len(),
            a@.len() == b@.len(),
            av == a@.map_values(|f: String| f@),
            bv == b@.map_values(|f: String| f@),
            forall|k: int| 0 <= k < i ==> av[k] == bv[k],
        decreases a@.len() - i,
    {
        if a[i] != b[i] {
            assert(av[i as int] != bv[i as int]);
            return false;
        }
        i = i + 1;
    }
    assert(av =~= bv);
    true
}

impl ClosureKey {
    /// Tests whether two keys are equal.
    pub fn equals(&self, other: &ClosureKey) -> (r: bool)
        ensures
            r == (self@ == other@),
    {
        let names_equal = match (&self.name, &other.name) {
            (Some(a), Some(b)) => *a == *b,
            (None, None) => true,
            _ => false,
        };
        names_equal && same_names(&self.formals, &other.formals) && self.body == other.body
    }
}

impl Clone for ClosureKey {
    fn clone(&self) -> (k: ClosureKey)
        ensures
            k@ == self@,
    {
        let name = match &self.name {
            Some(n) => Some(n.clone()),
            None => None,
        };
        ClosureKey { name, formals: copy_names(&self.formals), body: self.body.clone() }
    }
}

/// An object that evaluation makes, a procedure or a foreign value, which the
/// evaluator holds: `id` names it there, `label` is how it prints, `env` is the
/// environment that a closure captures, and `closure` what else identifies a closure
/// (none for other objects).
#[derive(Debug)]
pub struct Handle {
    pub id: u64,
    pub label: String,
    pub env: Option<usize>,
    pub closure: Option<ClosureKey>,
}

/// The mathematical value of a [`Handle`].
pub struct HandleView {
    pub id: int,
    pub label: Seq<char>,
    pub env: Option<int>,
    pub closure: Option<ClosureKeyView>,
}

impl View for Handle {
    type V = HandleView;

    open spec fn view(&self) -> HandleView {
        HandleView {
            id: self.id as int,
            label: self.label@,
            env: match self.env {
                Some(e) => Some(e as int),
                None => None,
            },
            closure: match self.closure {
                Some(k) => Some(k@),
                None => None,
            },
        }
    }
}

impl Clone for Handle {
    fn clone(&self) -> (h: Handle)
        ensures
            h@ == self@,
    {
        let closure = match &self.closure {
            Some(k) => Some(k.clone()),
            None => None,
        };
        Handle { id: self.id, label: self.label.clone(), env: self.env, closure }
    }
}

/// Two procedures are the same procedure: two closures when their names, formal
/// arguments and bodies are equal and they capture the same environment; other
/// procedures (native ones and macros) only when they are the same object.
pub open spec fn same_proc(x: HandleView, y: HandleView) -> bool {
    match (x.closure, y.closure) {
        (Some(a), Some(b)) => a == b && x.env == y.env,
        (None, None) => x.id == y.id,
        _ => false,
    }
}

/// An expression: the data that the reader produces and that evaluation works on.
/// Each expression but a foreign value may carry the region of the source it came
/// from. Procedures and foreign values are made by evaluation, never read.
#[derive(Debug)]
pub enum Expr {
    Num(Number, Option<Span>),
    Str(String, Option<Span>),
    Sym(String, Option<Span>),
    Proc(Handle, Option<Span>),
    List(List, Option<Span>),
    Foreign(Handle),
}

/// A list: empty, or a first element (`car`) and the rest (`cdr`).
#[derive(Debug)]
pub enum List {
    Nil,
    Cons(Cons),
}

/// A cell of a non-empty list.
#[derive(Debug)]
pub struct Cons {
    pub car: Box<Expr>,
    pub cdr: Box<List>,
}

/// The mathematical value of an expression: a list is the sequence of its elements.
pub enum ExprView {
    Num(Seq<char>, Option<Span>),
    Str(Seq<char>, Option<Span>),
    Sym(Seq<char>, Option<Span>),
    Proc(HandleView, Option<Span>),
    List(Seq<ExprView>, Option<Span>),
    Foreign(HandleView),
}

/// The mathematical value of an expression.
pub open spec fn expr_view(e: Expr) -> ExprView
    decreases e,
{
    match e {
        Expr::Num(n, s) => ExprView::Num(n@, s),
        Expr::Str(t, s) => ExprView::Str(t@, s),
        Expr::Sym(t, s) => ExprView::Sym(t@, s),
        Expr::Proc(h, s) => ExprView::Proc(h@, s),
        Expr::List(l, s) => ExprView::List(list_view(l), s),
        Expr::Foreign(h) => ExprView::Foreign(h@),
    }
}

/// The elements of a list, in order.
pub open spec fn list_view(l: List) -> Seq<ExprView>
    decreases l,
{
    match l {
        List::Nil => Seq::empty(),
        List::Cons(c) => seq![expr_view(*c.car)] + list_view(*c.cdr),
    }
}

impl View for Expr {
    type V = ExprView;

    open spec fn view(&self) -> ExprView {
        expr_view(*self)
    }
}

impl View for List {
    type V = Seq<ExprView>;

    open spec fn view(&self) -> Seq<ExprView> {
        list_view(*self)
    }
}

impl ExprView {
    /// The region of the source of the expression, if it has one.
    pub open spec fn span(self) -> Option<Span> {
        match self {
            ExprView::Num(_, s) => s,
            ExprView::Str(_, s) => s,
            ExprView::Sym(_, s) => s,
            ExprView::Proc(_, s) => s,
            ExprView::List(_, s) => s,
            ExprView::Foreign(..) => None,
        }
    }

    /// Every expression but a non-empty list is an atom.
    pub open spec fn is_atom(self) -> bool {
        !(self matches ExprView::List(items, _) && items.len() > 0)
    }

    /// The empty list, `()`, also called nil.
    pub open spec fn is_nil(self) -> bool {
        self matches ExprView::List(items, _) && items.len() == 0
    }
}

/// `e` holds no procedure and no foreign value, so that it can be written as source
/// text.
pub open spec fn readable(e: ExprView) -> bool
    decreases e,
{
    match e {
        ExprView::Proc(..) => false,
        ExprView::Foreign(..) => false,
        ExprView::List(items, _) => readable_items(items),
        _ => true,
    }
}

/// Every element of `items` is [`readable`].
pub open spec fn readable_items(items: Seq<ExprView>) -> bool
    decreases items,
{
    items.len() == 0 || (readable(items[0]) && readable_items(items.drop_first()))
}

/// Two expressions are the same when they have the same structure and values;
/// regions of the source do not count, numbers compare as [`num_eq`] says,
/// procedures as [`same_proc`] says, and a foreign value is never the same as
/// anything. Numbers compare by their texts: two numbers with texts in the form
/// that `f64`'s `Display` prints are the same exactly when their values are equal,
/// but a literal as the reader keeps it (`1.0`, `01`) is not the same as the number
/// its value prints as (`1`) until its text is put in that form, which takes
/// floating point and is the evaluator's work.
pub open spec fn same(a: ExprView, b: ExprView) -> bool
    decreases a,
{
    match (a, b) {
        (ExprView::Num(x, _), ExprView::Num(y, _)) => num_eq(x, y),
        (ExprView::Str(x, _), ExprView::Str(y, _)) => x == y,
        (ExprView::Sym(x, _), ExprView::Sym(y, _)) => x == y,
        (ExprView::Proc(x, _), ExprView::Proc(y, _)) => same_proc(x, y),
        (ExprView::List(xs, _), ExprView::List(ys, _)) => same_items(xs, ys),
        _ => false,
    }
}

/// Two sequences of expressions are the same element by element.
pub open spec fn same_items(xs: Seq<ExprView>, ys: Seq<ExprView>) -> bool
    decreases xs,
{
    if xs.len() == 0 {
        ys.len() == 0
    } else {
        ys.len() > 0 && same(xs[0], ys[0]) && same_items(xs.drop_first(), ys.drop_first())
    }
}

/// The text of an expression as printed: a number's text, a string between double
/// quotes, a symbol's name, the label of a procedure or foreign value, a list's
/// elements separated by single spaces between parentheses.
pub open spec fn text(e: ExprView) -> Seq<char>
    decreases e,
{
    match e {
        ExprView::Num(t, _) => t,
        ExprView::Str(t, _) => seq!['"'] + t + seq!['"'],
        ExprView::Sym(t, _) => t,
        ExprView::Proc(h, _) => h.label,
        ExprView::List(items, _) => seq!['('] + items_text(items) + seq![')'],
        ExprView::Foreign(h) => h.label,
    }
}

/// The texts of `items` separated by single spaces.
pub open spec fn items_text(items: Seq<ExprView>) -> Seq<char>
    decreases items,
{
    if items.len() == 0 {
        Seq::empty()
    } else if items.len() == 1 {
        text(items[0])
    } else {
        text(items[0]) + seq![' '] + items_text(items.drop_first())
    }
}

impl Clone for Expr {
    fn clone(&self) -> (e: Expr)
        ensures
            e@ == self@,
        decreases self,
    {
        match self {
            Expr::Num(n, s) => Expr::Num(n.clone(), *s),
            Expr::Str(t, s) => Expr::Str(t.clone(), *s),
            Expr::Sym(t, s) => Expr::Sym(t.clone(), *s),
            Expr::Proc(h, s) => Expr::Proc(h.clone(), *s),
            Expr::List(l, s) => Expr::List(l.clone(), *s),
            Expr::Foreign(h) => Expr::Foreign(h.clone()),
        }
    }
}

impl Clone for List {
    fn clone(&self) -> (l: List)
        ensures
            l@ == self@,
        decreases self,
    {
        match self {
            List::Nil => List::Nil,
            List::Cons(c) => {
                let car: Expr = (*c.car).clone();
                let cdr: List = (*c.cdr).clone();
                List::Cons(Cons { car: Box::new(car), cdr: Box::new(cdr) })
            },
        }
    }
}

/// The list whose first element is `car` and whose rest is `cdr`.
pub fn cons(car: Expr, cdr: List) -> (l: List)
    ensures
        l@ == seq![car@] + cdr@,
{
    List::Cons(Cons { car: Box::new(car), cdr: Box::new(cdr) })
}

impl Expr {
    /// The region of the source of the expression, if it has one.
    pub fn span(&self) -> (s: Option<Span>)
        ensures
            s == self@.span(),
    {
        match self {
            Expr::Num(_, s) | Expr::Str(_, s) | Expr::Sym(_, s) | Expr::Proc(_, s) | Expr::List(
                _,
                s,
            ) => *s,
            Expr::Foreign(_) => None,
        }
    }

    /// Tests whether the expression is an atom, anything but a non-empty list.
    pub fn is_atom(&self) -> (b: bool)
        ensures
            b == self@.is_atom(),
    {
        match self {
            Expr::List(List::Cons(_), _) => false,
            _ => true,
        }
    }

    /// Tests whether the expression is the empty list.
    pub fn is_nil(&self) -> (b: bool)
        ensures
            b == self@.is_nil(),
    {
        match self {
            Expr::List(List::Nil, _) => true,
            _ => false,
        }
    }

    /// Every expression but the empty list counts as true.
    pub fn is_truthy(&self) -> (b: bool)
        ensures
            b == !self@.is_nil(),
    {
        !self.is_nil()
    }

    /// The empty list.
    pub fn nil() -> (e: Expr)
        ensures
            e@ == ExprView::List(Seq::empty(), None),
    {
        Expr::List(List::Nil, None)
    }

    /// The number whose value is `value`.
    pub fn from_i32(value: i32) -> (e: Expr)
        ensures
            e@ == ExprView::Num(crate::text::signed_decimal(value as int), None),
    {
        Expr::Num(Number::from_i32(value), None)
    }

    /// The string `text`.
    pub fn from_str(text: &str) -> (e: Expr)
        ensures
            e@ == ExprView::Str(text@, None),
    {
        Expr::Str(text.to_owned(), None)
    }

    /// A truth value: `1` for true and the empty list for false.
    pub fn from_bool(value: bool) -> (e: Expr)
        ensures
            value ==> e@ == ExprView::Num(seq!['1'], None),
            !value ==> e@ == ExprView::List(Seq::empty(), None),
    {
        if value {
            let e = Expr::from_i32(1);
            assert(crate::text::signed_decimal(1) == seq!['1']) by {
                assert(crate::text::decimal(1) == seq![crate::text::digit_char(1)]);
            }
            e
        } else {
            Expr::nil()
        }
    }

    /// The list of the expressions of `items`, in order.
    pub fn from_vec(items: Vec<Expr>) -> (e: Expr)
        ensures
            e@ == ExprView::List(items@.map_values(|x: Expr| x@), None),
    {
        Expr::List(List::from_vec(items), None)
    }

    /// Tests whether two expressions are the same (see [`same`]).
    pub fn same(&self, other: &Expr) -> (b: bool)
        ensures
            b == same(self@, other@),
        decreases self,
    {
        match (self, other) {
            (Expr::Num(x, _), Expr::Num(y, _)) => x.equals(y),
            (Expr::Str(x, _), Expr::Str(y, _)) => *x == *y,
            (Expr::Sym(x, _), Expr::Sym(y, _)) => *x == *y,
            (Expr::Proc(x, _), Expr::Proc(y, _)) => match (&x.closure, &y.closure) {
                (Some(a), Some(b)) => a.equals(b) && x.env == y.env,
                (None, None) => x.id == y.id,
                _ => false,
            },
            (Expr::List(xs, _), Expr::List(ys, _)) => xs.same(ys),
            _ => false,
        }
    }

    /// Appends the text of the expression to `out` (see [`text`]).
    pub fn write_text(&self, out: &mut String)
        ensures
            final(out)@ == old(out)@ + text(self@),
        decreases self,
    {
        match self {
            Expr::Num(n, _) => push_str(out, n.text()),
            Expr::Str(t, _) => {
                push_char(out, '"');
                push_str(out, t.as_str());
                push_char(out, '"');
                assert(old(out)@.push('"') + t@ + seq!['"'] == old(out)@ + (seq!['"'] + t@ + seq!['"']));
            },
            Expr::Sym(t, _) => push_str(out, t.as_str()),
            Expr::Proc(h, _) | Expr::Foreign(h) => push_str(out, h.label.as_str()),
            Expr::List(l, _) => {
                push_char(out, '(');
                l.write_items(out);
                push_char(out, ')');
                assert(old(out)@.push('(') + items_text(l@) + seq![')'] == old(out)@ + (seq!['('] + items_text(l@) + seq![')']));
            },
        }
    }

    /// The text of the expression as printed (see [`text`]).
    pub fn to_string(&self) -> (s: String)
        ensures
            s@ == text(self@),
    {
        let mut s = String::new();
        self.write_text(&mut s);
        assert(Seq::<char>::empty() + text(self@) == text(self@));
        s
    }
}

impl List {
    /// The list of the expressions of `items`, in order.
    pub fn from_vec(items: Vec<Expr>) -> (l: List)
        ensures
            l@ == items@.map_values(|x: Expr| x@),
    {
        let mut items = items;
        let ghost all = items@;
        let mut list = List::Nil;
        while items.len() > 0
            invariant
                all.len() >= items@.len(),
                items@ == all.subrange(0, items@.len() as int),
                list@ == all.subrange(items@.len() as int, all.len() as int).map_values(|x: Expr| x@),
            decreases items@.len(),
        {
            let ghost n = items@.len();
            let e = items.pop().unwrap();
            assert(e == all[n - 1]);
            let ghost old_list = list@;
            list = cons(e, list);
            assert(all.subrange(n - 1, all.len() as int) == seq![all[n - 1]] + all.subrange(n as int, all.len() as int));
            assert(list@ == all.subrange(n - 1, all.len() as int).map_values(|x: Expr| x@));
            assert(items@ == all.subrange(0, n - 1));
        }
        assert(all.subrange(0, all.len() as int) == all);
        list
    }

    /// Tests whether the list is empty.
    pub fn is_nil(&self) -> (b: bool)
        ensures
            b == (self@.len() == 0),
    {
        match self {
            List::Nil => true,
            List::Cons(_) => false,
        }
    }

    /// The number of elements of the list.
    pub fn len(&self) -> (n: usize)
        requires
            self@.len() <= usize::MAX,
        ensures
            n == self@.len(),
        decreases self,
    {
        match self {
            List::Nil => 0,
            List::Cons(c) => 1 + c.cdr.len(),
        }
    }

    /// The element at `index`, if the list has one there.
    pub fn get(&self, index: usize) -> (r: Option<&Expr>)
        ensures
            index < self@.len() ==> r is Some && r->0@ == self@[index as int],
            index >= self@.len() ==> r is None,
        decreases self,
    {
        match self {
            List::Nil => None,
            List::Cons(c) => {
                if index == 0 {
                    Some(&*c.car)
                } else {
                    let r = c.cdr.get(index - 1);
                    assert(self@ == seq![c.car@] + c.cdr@);
                    r
                }
            },
        }
    }

    /// Tests whether two lists are the same element by element.
    pub fn same(&self, other: &List) -> (b: bool)
        ensures
            b == same_items(self@, other@),
        decreases self,
    {
        match (self, other) {
            (List::Nil, List::Nil) => true,
            (List::Cons(a), List::Cons(b)) => {
                assert((seq![a.car@] + a.cdr@).drop_first() == a.cdr@);
                assert((seq![b.car@] + b.cdr@).drop_first() == b.cdr@);
                a.car.same(&b.car) && a.cdr.same(&b.cdr)
            },
            (List::Nil, List::Cons(_)) => false,
            (List::Cons(_), List::Nil) => false,
        }
    }

    /// Appends the texts of the elements, separated by single spaces, to `out`.
    pub fn write_items(&self, out: &mut String)
        ensures
            final(out)@ == old(out)@ + items_text(self@),
        decreases self,
    {
        match self {
            List::Nil => {
                assert(old(out)@ + Seq::<char>::empty() == old(out)@);
            },
            List::Cons(c) => {
                let ghost items = self@;
                assert(items.drop_first() == c.cdr@);
                c.car.write_text(out);
                if c.cdr.is_nil() {
                } else {
                    push_char(out, ' ');
                    c.cdr.write_items(out);
                    assert(old(out)@ + text(c.car@) + seq![' '] + items_text(c.cdr@) == old(out)@
                        + (text(c.car@) + seq![' '] + items_text(c.cdr@)));
                }
            },
        }
    }

    /// The text of the list as printed, its elements between parentheses.
    pub fn to_string(&self) -> (s: String)
        ensures
            s@ == seq!['('] + items_text(self@) + seq![')'],
    {
        let mut s = String::new();
        push_char(&mut s, '(');
        self.write_items(&mut s);
        push_char(&mut s, ')');
        s
    }
}

impl Cons {
    /// The second element of the list that this cell starts, if there is one.
    pub fn cdar(&self) -> (r: Option<&Expr>)
        ensures
            self.cdr@.len() > 0 ==> r is Some && r->0@ == self.cdr@[0],
            self.cdr@.len() == 0 ==> r is None,
    {
        match &*self.cdr {
            List::Nil => None,
            List::Cons(c) => Some(&*c.car),
        }
    }
}

impl PartialEq for Expr {
    fn eq(&self, other: &Expr) -> (b: bool) {
        self.same(other)
    }
}

impl PartialEqSpecImpl for Expr {
    open spec fn obeys_eq_spec() -> bool {
        true
    }

    open spec fn eq_spec(&self, other: &Expr) -> bool {
        same(self@, other@)
    }
}

impl PartialEq for List {
    fn eq(&self, other: &List) -> (b: bool) {
        self.same(other)
    }
}

impl PartialEqSpecImpl for List {
    open spec fn obeys_eq_spec() -> bool {
        true
    }

    open spec fn eq_spec(&self, other: &List) -> bool {
        same_items(self@, other@)
    }
}

/// The symbol named `name`.
pub fn intern(name: &str) -> (e: Expr)
    ensures
        e@ == ExprView::Sym(name@, None),
{
    Expr::Sym(name.to_owned(), None)
}

} // verus!

verus! {

/// The region that a list's elements cover: from the beginning of the first element
/// to the end of the last one, when both have regions and the first begins before
/// the last ends.
pub open spec fn items_span(items: Seq<ExprView>) -> Option<Span> {
    if items.len() == 0 {
        None
    } else {
        match (items[0].span(), items.last().span()) {
            (Some(a), Some(b)) => if loc_lt(a.begin, b.end) {
                Some(Span { begin: a.begin, end: b.end })
            } else {
                None
            },
            _ => None,
        }
    }
}

impl List {
    /// The elements of the list, in order.
    pub fn to_vec(&self) -> (v: Vec<Expr>)
        ensures
            v@.map_values(|e: Expr| e@) == self@,
    {
        let mut v: Vec<Expr> = Vec::new();
        let mut cur = self;
        let ghost all = self@;
        loop
            invariant
                v@.len() + cur@.len() == all.len(),
                all == self@,
                cur@ == all.subrange(v@.len() as int, all.len() as int),
                v@.map_values(|e: Expr| e@) == all.subrange(0, v@.len() as int),
            decreases cur@.len(),
        {
            match cur {
                List::Nil => {
                    assert(all.subrange(0, all.len() as int) =~= all);
                    return v;
                },
                List::Cons(c) => {
                    let ghost k = v@.len() as int;
                    assert(cur@ == seq![c.car@] + c.cdr@);
                    assert(all[k] == c.car@) by {
                        assert(cur@[0] == c.car@);
                    }
                    let ghost before = v@.map_values(|e: Expr| e@);
                    v.push((*c.car).clone());
                    assert(v@.map_values(|e: Expr| e@) =~= before.push(c.car@));
                    assert(all.subrange(0, k + 1) =~= all.subrange(0, k).push(all[k]));
                    cur = &*c.cdr;
                    assert(all.subrange(k, all.len() as int).drop_first() =~= all.subrange(k + 1, all.len() as int));
                },
            }
        }
    }

    /// The last element of the list, if it has one.
    pub fn last(&self) -> (r: Option<&Expr>)
        ensures
            self@.len() > 0 ==> r is Some && r->0@ == self@.last(),
            self@.len() == 0 ==> r is None,
        decreases self,
    {
        match self {
            List::Nil => None,
            List::Cons(c) => {
                assert(self@ == seq![c.car@] + c.cdr@);
                match c.cdr.last() {
                    Some(e) => Some(e),
                    None => Some(&*c.car),
                }
            },
        }
    }

    /// The region that the elements cover (see [`items_span`]).
    pub fn span(&self) -> (s: Option<Span>)
        ensures
            s == items_span(self@),
    {
        let first = match self.get(0) {
            Some(e) => e.span(),
            None => {
                return None;
            },
        };
        let last = match self.last() {
            Some(e) => e.span(),
            None => None,
        };
        match (first, last) {
            (Some(a), Some(b)) => {
                if a.begin.line < b.end.line || (a.begin.line == b.end.line && a.begin.column
                    < b.end.column) {
                    Some(Span::new(a.begin, b.end))
                } else {
                    None
                }
            },
            _ => None,
        }
    }
}

} // verus!

verus! {

/// Being the same is symmetric, as `==` on expressions must be.
pub proof fn lemma_same_symmetric(a: ExprView, b: ExprView)
    ensures
        same(a, b) == same(b, a),
    decreases a, 1nat,
{
    match (a, b) {
        (ExprView::List(xs, _), ExprView::List(ys, _)) => lemma_same_items_symmetric(xs, ys),
        _ => {},
    }
}

proof fn lemma_same_items_symmetric(xs: Seq<ExprView>, ys: Seq<ExprView>)
    ensures
        same_items(xs, ys) == same_items(ys, xs),
    decreases xs, 0nat,
{
    if xs.len() > 0 && ys.len() > 0 {
        lemma_same_symmetric(xs[0], ys[0]);
        lemma_same_items_symmetric(xs.drop_first(), ys.drop_first());
    }
}

/// Being the same is transitive, as `==` on expressions must be.
pub proof fn lemma_same_transitive(a: ExprView, b: ExprView, c: ExprView)
    requires
        same(a, b),
        same(b, c),
    ensures
        same(a, c),
    decreases a, 1nat,
{
    match (a, b, c) {
        (ExprView::List(xs, _), ExprView::List(ys, _), ExprView::List(zs, _)) => {
            lemma_same_items_transitive(xs, ys, zs)
        },
        _ => {},
    }
}

proof fn lemma_same_items_transitive(xs: Seq<ExprView>, ys: Seq<ExprView>, zs: Seq<ExprView>)
    requires
        same_items(xs, ys),
        same_items(ys, zs),
    ensures
        same_items(xs, zs),
    decreases xs, 0nat,
{
    if xs.len() > 0 {
        lemma_same_transitive(xs[0], ys[0], zs[0]);
        lemma_same_items_transitive(xs.drop_first(), ys.drop_first(), zs.drop_first());
    }
}

/// Strings are the same exactly when their texts are equal, and so are symbols;
/// an atom is never the same as an expression of another kind; and two strings or
/// symbols that are the same print alike.
pub proof fn lemma_same_atoms(a: ExprView, b: ExprView)
    ensures
        match (a, b) {
            (ExprView::Str(x, _), ExprView::Str(y, _)) => same(a, b) <==> x == y,
            (ExprView::Sym(x, _), ExprView::Sym(y, _)) => same(a, b) <==> x == y,
            _ => true,
        },
        same(a, b) && a is Str ==> b is Str && text(a) == text(b),
        same(a, b) && a is Sym ==> b is Sym && text(a) == text(b),
        same(a, b) && a is Num ==> b is Num,
        !same(a, b) || a is List == b is List,
{
}

/// Two lists are the same exactly when they have as many elements and their
/// elements at each position are the same.
pub proof fn lemma_same_lists(xs: Seq<ExprView>, ys: Seq<ExprView>, sx: Option<Span>, sy: Option<Span>)
    ensures
        same(ExprView::List(xs, sx), ExprView::List(ys, sy)) <==> (xs.len() == ys.len() && forall|i: int|
            0 <= i < xs.len() ==> #[trigger] same(xs[i], ys[i])),
    decreases xs.len(),
{
    if xs.len() > 0 && ys.len() > 0 {
        lemma_same_lists(xs.drop_first(), ys.drop_first(), sx, sy);
        if xs.len() == ys.len() && forall|i: int| 0 <= i < xs.len() ==> #[trigger] same(xs[i], ys[i]) {
            assert forall|i: int| 0 <= i < xs.drop_first().len() implies #[trigger] same(
                xs.drop_first()[i],
                ys.drop_first()[i],
            ) by {
                assert(same(xs[i + 1], ys[i + 1]));
            }
            assert(same(xs[0], ys[0]));
        }
        if same_items(xs, ys) {
            assert forall|i: int| 0 <= i < xs.len() implies #[trigger] same(xs[i], ys[i]) by {
                if i > 0 {
                    assert(same(xs.drop_first()[i - 1], ys.drop_first()[i - 1]));
                }
            }
        }
    }
}

} // verus!
