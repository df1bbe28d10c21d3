//! Quotation: `quote`, and the parts of `quasiquote` that do not evaluate.
//!
//! A quasiquote fills a template: the template is copied, except that `(unquote e)`
//! is replaced by the value of `e` and `(unquote-splicing e)` by the elements of the
//! value of `e`, which must be a list. Evaluation belongs to the evaluator, so a
//! quasiquote runs in three steps: [`unquote_sites`] finds the expressions to
//! evaluate, in order; for each value, [`site_value_items`] gives what it
//! contributes; [`quasiquote_result`] fills the template with the contributions.

use vstd::prelude::*;
use crate::eval::EvalError;
use crate::expr::{text, Expr, ExprView, List};
use crate::parser::{unquote_splicing_sym, unquote_sym};
use crate::span::Span;
use crate::text::push_str;
use crate::utils::{get_exact_1_arg, plain_error};

verus! {

pub const QUOTE: &'static str = "quote";

pub const QUASIQUOTE: &'static str = "quasiquote";

pub const UNQUOTE: &'static str = "unquote";

pub const UNQUOTE_SPLICING: &'static str = "unquote-splicing";

/// `(quote e)`: gives `e` unevaluated. It takes exactly one argument (with the
/// errors of [`get_exact_1_arg`]).
pub fn quote(proc_name: &str, args: &List) -> (r: Result<Expr, EvalError>)
    ensures
        args@.len() == 1 ==> r is Ok && r->Ok_0@ == args@[0],
        args@.len() == 0 ==> r is Err && plain_error(r->Err_0, proc_name@ + " needs an argument."@),
        args@.len() > 1 ==> r is Err && plain_error(
            r->Err_0,
            proc_name@ + " expects only 1 argument."@,
        ),
{
    match get_exact_1_arg(proc_name, args) {
        Ok(e) => Ok(e.clone()),
        Err(e) => Err(e),
    }
}

/// A place of a quasiquoted template where an expression is evaluated: the argument
/// of an `unquote`, or of an `unquote-splicing` (`splicing`).
#[derive(Debug)]
pub struct UnquoteSite {
    pub expr: Expr,
    pub splicing: bool,
}

/// The mathematical value of an [`UnquoteSite`].
pub struct SiteView {
    pub expr: ExprView,
    pub splicing: bool,
}

impl View for UnquoteSite {
    type V = SiteView;

    open spec fn view(&self) -> SiteView {
        SiteView { expr: self.expr@, splicing: self.splicing }
    }
}

/// `e` is the symbol `name`.
pub open spec fn is_sym_named(e: ExprView, name: Seq<char>) -> bool {
    e matches ExprView::Sym(n, _) && n == name
}

/// The sites of the template `e`, in the order in which a quasiquote evaluates them
/// (depth first, left to right), and the error that ends the walk, if any: an
/// `unquote` without argument ("unquote: missing argument") or an
/// `unquote-splicing` without argument ("unquote-splicing: argument missing"), at
/// the region of that form. The sites are those found before the error.
pub open spec fn qq_walk(e: ExprView) -> (Seq<SiteView>, Option<(Seq<char>, Option<Span>)>)
    decreases e,
{
    match e {
        ExprView::List(items, sp) => if items.len() == 0 {
            (Seq::empty(), None)
        } else if is_sym_named(items[0], unquote_sym()) {
            if items.len() >= 2 {
                (seq![SiteView { expr: items[1], splicing: false }], None)
            } else {
                (Seq::empty(), Some((unquote_sym() + ": missing argument"@, sp)))
            }
        } else if is_sym_named(items[0], unquote_splicing_sym()) {
            if items.len() >= 2 {
                (seq![SiteView { expr: items[1], splicing: true }], None)
            } else {
                (Seq::empty(), Some((unquote_splicing_sym() + ": argument missing"@, sp)))
            }
        } else {
            qq_walk_items(items)
        },
        _ => (Seq::empty(), None),
    }
}

/// The sites of the elements of a list, in order, up to the first error.
pub open spec fn qq_walk_items(items: Seq<ExprView>) -> (Seq<SiteView>, Option<(Seq<char>, Option<Span>)>)
    decreases items,
{
    if items.len() == 0 {
        (Seq::empty(), None)
    } else {
        let (s1, e1) = qq_walk(items[0]);
        if e1 is Some {
            (s1, e1)
        } else {
            let (s2, e2) = qq_walk_items(items.drop_first());
            (s1 + s2, e2)
        }
    }
}

/// What the value of a site contributes to the filled template: after `unquote`,
/// the value; after `unquote-splicing`, the elements of the value, which must be a
/// list ("unquote-splicing: `e` does not evaluate to a list" at the site's
/// expression `e` otherwise).
pub open spec fn site_items(site: SiteView, value: ExprView) -> Result<
    Seq<ExprView>,
    (Seq<char>, Option<Span>),
> {
    if !site.splicing {
        Ok(seq![value])
    } else {
        match value {
            ExprView::List(items, _) => Ok(items),
            _ => Err(
                (
                    unquote_splicing_sym() + ": `"@ + text(site.expr) + "` does not evaluate to a list"@,
                    site.expr.span(),
                ),
            ),
        }
    }
}

/// The contribution of the `k`-th site, nothing when there is none.
pub open spec fn qq_value(vals: Seq<Seq<ExprView>>, k: int) -> Seq<ExprView> {
    if 0 <= k < vals.len() {
        vals[k]
    } else {
        Seq::empty()
    }
}

/// The index of the site after the `k`-th (it stays at the end of `vals`).
pub open spec fn qq_next(vals: Seq<Seq<ExprView>>, k: int) -> int {
    if 0 <= k < vals.len() {
        k + 1
    } else {
        k
    }
}

/// Fills the template `e` with the contributions `vals` of its sites, from the
/// `k`-th on: the expressions that `e` becomes, and the index of the next site. An
/// `unquote` or `unquote-splicing` form becomes its contribution; the empty list
/// stays the empty list; another list becomes the list of what its elements become,
/// with no region; an atom stays itself.
pub open spec fn qq_build(e: ExprView, vals: Seq<Seq<ExprView>>, k: int) -> (Seq<ExprView>, int)
    decreases e,
{
    match e {
        ExprView::List(items, _) => if items.len() == 0 {
            (seq![ExprView::List(Seq::empty(), None)], k)
        } else if is_sym_named(items[0], unquote_sym()) || is_sym_named(
            items[0],
            unquote_splicing_sym(),
        ) {
            (qq_value(vals, k), qq_next(vals, k))
        } else {
            let (xs, k2) = qq_build_items(items, vals, k);
            (seq![ExprView::List(xs, None)], k2)
        },
        _ => (seq![e], k),
    }
}

/// Fills the elements of a list, in order.
pub open spec fn qq_build_items(items: Seq<ExprView>, vals: Seq<Seq<ExprView>>, k: int) -> (
    Seq<ExprView>,
    int,
)
    decreases items,
{
    if items.len() == 0 {
        (Seq::empty(), k)
    } else {
        let (a, k1) = qq_build(items[0], vals, k);
        let (b, k2) = qq_build_items(items.drop_first(), vals, k1);
        (a + b, k2)
    }
}

/// The views of the contributions.
pub open spec fn values_view(values: Seq<Vec<Expr>>) -> Seq<Seq<ExprView>> {
    values.map_values(|v: Vec<Expr>| v@.map_values(|e: Expr| e@))
}

/// The views of the sites.
pub open spec fn sites_view(sites: Seq<UnquoteSite>) -> Seq<SiteView> {
    sites.map_values(|s: UnquoteSite| s@)
}

/// The outcome of `(quasiquote template)` once the sites have been evaluated and
/// contribute `vals`: the filled template when it is one expression, and otherwise
/// the error "`proc_name`: expects only 1 argument".
pub open spec fn qq_outcome(proc_name: Seq<char>, template: ExprView, vals: Seq<Seq<ExprView>>) -> Result<
    ExprView,
    (Seq<char>, Option<Span>),
> {
    let filled = qq_build(template, vals, 0).0;
    if filled.len() == 1 {
        Ok(filled[0])
    } else {
        Err((proc_name + ": expects only 1 argument"@, None))
    }
}

/// Tests whether `e` is the symbol `name`.
fn sym_is(e: &Expr, name: &str) -> (b: bool)
    ensures
        b == is_sym_named(e@, name@),
{
    match e {
        Expr::Sym(n, _) => *n == name.to_owned(),
        _ => false,
    }
}

fn unquote_names()
    ensures
        UNQUOTE@ == unquote_sym(),
        UNQUOTE_SPLICING@ == unquote_splicing_sym(),
{
    proof {
        reveal_strlit("unquote");
        reveal_strlit("unquote-splicing");
    }
    assert(UNQUOTE@ =~= unquote_sym());
    assert(UNQUOTE_SPLICING@ =~= unquote_splicing_sym());
}

fn message(head: &str, tail: &str) -> (s: String)
    ensures
        s@ == head@ + tail@,
{
    let mut s = String::new();
    push_str(&mut s, head);
    push_str(&mut s, tail);
    assert(Seq::<char>::empty() + head@ + tail@ == head@ + tail@);
    s
}

fn walk(expr: &Expr, sites: &mut Vec<UnquoteSite>) -> (r: Option<EvalError>)
    ensures
        sites_view(final(sites)@) == sites_view(old(sites)@) + qq_walk(expr@).0,
        match r {
            Some(e) => qq_walk(expr@).1 == Some((e.message@, e.span)),
            None => qq_walk(expr@).1 is None,
        },
    decreases expr,
{
    let ghost before = sites_view(sites@);
    match expr {
        Expr::List(list, sp) => match list {
            List::Nil => {
                assert(before + Seq::<SiteView>::empty() =~= before);
                None
            },
            List::Cons(c) => {
                unquote_names();
                let ghost items = expr@->List_0;
                assert(items == seq![c.car@] + c.cdr@);
                assert(items[0] == c.car@);
                let splicing = if sym_is(&c.car, UNQUOTE) {
                    false
                } else if sym_is(&c.car, UNQUOTE_SPLICING) {
                    true
                } else {
                    return walk_items(list, sites);
                };
                match c.cdar() {
                    Some(arg) => {
                        assert(items[1] == arg@);
                        sites.push(UnquoteSite { expr: arg.clone(), splicing });
                        assert(sites_view(sites@) =~= before + seq![SiteView { expr: items[1], splicing }]);
                        None
                    },
                    None => {
                        assert(before + Seq::<SiteView>::empty() =~= before);
                        let m = if splicing {
                            message(UNQUOTE_SPLICING, ": argument missing")
                        } else {
                            message(UNQUOTE, ": missing argument")
                        };
                        Some(EvalError { message: m, span: *sp })
                    },
                }
            },
        },
        _ => {
            assert(before + Seq::<SiteView>::empty() =~= before);
            None
        },
    }
}

fn walk_items(list: &List, sites: &mut Vec<UnquoteSite>) -> (r: Option<EvalError>)
    ensures
        sites_view(final(sites)@) == sites_view(old(sites)@) + qq_walk_items(list@).0,
        match r {
            Some(e) => qq_walk_items(list@).1 == Some((e.message@, e.span)),
            None => qq_walk_items(list@).1 is None,
        },
    decreases list,
{
    let ghost before = sites_view(sites@);
    match list {
        List::Nil => {
            assert(before + Seq::<SiteView>::empty() =~= before);
            None
        },
        List::Cons(c) => {
            assert(list@ == seq![c.car@] + c.cdr@);
            assert(list@[0] == c.car@);
            assert(list@.drop_first() == c.cdr@);
            let r = walk(&c.car, sites);
            if r.is_some() {
                return r;
            }
            let ghost mid = sites_view(sites@);
            let r2 = walk_items(&c.cdr, sites);
            assert(mid + qq_walk_items(c.cdr@).0 == before + (qq_walk(c.car@).0 + qq_walk_items(c.cdr@).0));
            r2
        },
    }
}

/// The sites of a quasiquoted template, in the order in which they are evaluated,
/// and the error that ends the walk, if any (see [`qq_walk`]). The evaluator
/// evaluates the sites in order, stopping at the first error; when all succeed, the
/// error of the walk, if any, is the outcome.
pub fn unquote_sites(template: &Expr) -> (r: (Vec<UnquoteSite>, Option<EvalError>))
    ensures
        sites_view(r.0@) == qq_walk(template@).0,
        match r.1 {
            Some(e) => qq_walk(template@).1 == Some((e.message@, e.span)),
            None => qq_walk(template@).1 is None,
        },
{
    let mut sites: Vec<UnquoteSite> = Vec::new();
    assert(sites_view(sites@) =~= Seq::<SiteView>::empty());
    let err = walk(template, &mut sites);
    assert(Seq::<SiteView>::empty() + qq_walk(template@).0 =~= qq_walk(template@).0);
    (sites, err)
}

/// What the value of `site` contributes (see [`site_items`]).
pub fn site_value_items(site: &UnquoteSite, value: Expr) -> (r: Result<Vec<Expr>, EvalError>)
    ensures
        match (r, site_items(site@, value@)) {
            (Ok(v), Ok(items)) => v@.map_values(|e: Expr| e@) == items,
            (Err(e), Err((m, sp))) => e.message@ == m && e.span == sp,
            _ => false,
        },
{
    if !site.splicing {
        let ghost vv = value@;
        let v = vec![value];
        assert(v@.map_values(|e: Expr| e@) =~= seq![vv]);
        return Ok(v);
    }
    match &value {
        Expr::List(list, _) => Ok(list.to_vec()),
        _ => {
            unquote_names();
            let mut m = message(UNQUOTE_SPLICING, ": `");
            site.expr.write_text(&mut m);
            push_str(&mut m, "` does not evaluate to a list");
            Err(EvalError { message: m, span: site.expr.span() })
        },
    }
}

/// Appends the `k`-th contribution to `out`.
fn push_value(values: &Vec<Vec<Expr>>, k: usize, out: &mut Vec<Expr>) -> (k2: usize)
    requires
        k <= values@.len(),
    ensures
        final(out)@.map_values(|e: Expr| e@) == old(out)@.map_values(|e: Expr| e@) + qq_value(
            values_view(values@),
            k as int,
        ),
        k2 == qq_next(values_view(values@), k as int),
        k2 <= values@.len(),
{
    let ghost before = out@.map_values(|e: Expr| e@);
    if k >= values.len() {
        assert(before + Seq::<ExprView>::empty() =~= before);
        return k;
    }
    let items = &values[k];
    let ghost want = items@.map_values(|e: Expr| e@);
    assert(want == values_view(values@)[k as int]);
    let mut i: usize = 0;
    while i < items.len()
        invariant
            i <= items@.len(),
            items@ == values@[k as int]@,
            want == items@.map_values(|e: Expr| e@),
            out@.map_values(|e: Expr| e@) == before + want.subrange(0, i as int),
        decreases items@.len() - i,
    {
        let ghost prev = out@.map_values(|e: Expr| e@);
        out.push(items[i].clone());
        assert(out@.map_values(|e: Expr| e@) =~= prev.push(want[i as int]));
        assert(want.subrange(0, i + 1) =~= want.subrange(0, i as int).push(want[i as int]));
        i = i + 1;
    }
    assert(want.subrange(0, want.len() as int) =~= want);
    k + 1
}

fn build(expr: &Expr, values: &Vec<Vec<Expr>>, k: usize, out: &mut Vec<Expr>) -> (k2: usize)
    requires
        k <= values@.len(),
    ensures
        final(out)@.map_values(|e: Expr| e@) == old(out)@.map_values(|e: Expr| e@) + qq_build(
            expr@,
            values_view(values@),
            k as int,
        ).0,
        k2 == qq_build(expr@, values_view(values@), k as int).1,
        k2 <= values@.len(),
    decreases expr,
{
    let ghost before = out@.map_values(|e: Expr| e@);
    match expr {
        Expr::List(list, _) => match list {
            List::Nil => {
                out.push(Expr::nil());
                assert(out@.map_values(|e: Expr| e@) =~= before + seq![ExprView::List(Seq::empty(), None)]);
                k
            },
            List::Cons(c) => {
                unquote_names();
                let ghost items = expr@->List_0;
                assert(items == seq![c.car@] + c.cdr@);
                assert(items[0] == c.car@);
                if sym_is(&c.car, UNQUOTE) || sym_is(&c.car, UNQUOTE_SPLICING) {
                    return push_value(values, k, out);
                }
                let mut inner: Vec<Expr> = Vec::new();
                assert(inner@.map_values(|e: Expr| e@) =~= Seq::<ExprView>::empty());
                let k2 = build_items(list, values, k, &mut inner);
                assert(Seq::<ExprView>::empty() + qq_build_items(items, values_view(values@), k as int).0
                    =~= qq_build_items(items, values_view(values@), k as int).0);
                let e = Expr::from_vec(inner);
                out.push(e);
                assert(out@.map_values(|e: Expr| e@) =~= before.push(e@));
                k2
            },
        },
        _ => {
            out.push(expr.clone());
            assert(out@.map_values(|e: Expr| e@) =~= before + seq![expr@]);
            k
        },
    }
}

fn build_items(list: &List, values: &Vec<Vec<Expr>>, k: usize, out: &mut Vec<Expr>) -> (k2: usize)
    requires
        k <= values@.len(),
    ensures
        final(out)@.map_values(|e: Expr| e@) == old(out)@.map_values(|e: Expr| e@) + qq_build_items(
            list@,
            values_view(values@),
            k as int,
        ).0,
        k2 == qq_build_items(list@, values_view(values@), k as int).1,
        k2 <= values@.len(),
    decreases list,
{
    let ghost before = out@.map_values(|e: Expr| e@);
    match list {
        List::Nil => {
            assert(before + Seq::<ExprView>::empty() =~= before);
            k
        },
        List::Cons(c) => {
            assert(list@ == seq![c.car@] + c.cdr@);
            assert(list@[0] == c.car@);
            assert(list@.drop_first() == c.cdr@);
            let k1 = build(&c.car, values, k, out);
            let ghost mid = out@.map_values(|e: Expr| e@);
            let k2 = build_items(&c.cdr, values, k1, out);
            let ghost vv = values_view(values@);
            assert(mid + qq_build_items(c.cdr@, vv, k1 as int).0 == before + (qq_build(c.car@, vv, k as int).0
                + qq_build_items(c.cdr@, vv, k1 as int).0));
            k2
        },
    }
}

/// Fills `template` with the contributions `values` of its sites, taken in order
/// (see [`qq_build`]).
pub fn fill_template(template: &Expr, values: &Vec<Vec<Expr>>) -> (r: Vec<Expr>)
    ensures
        r@.map_values(|e: Expr| e@) == qq_build(template@, values_view(values@), 0).0,
{
    let mut out: Vec<Expr> = Vec::new();
    assert(out@.map_values(|e: Expr| e@) =~= Seq::<ExprView>::empty());
    build(template, values, 0, &mut out);
    assert(Seq::<ExprView>::empty() + qq_build(template@, values_view(values@), 0).0
        =~= qq_build(template@, values_view(values@), 0).0);
    out
}

/// The argument of `(quasiquote template)`: exactly one (with the errors of
/// [`get_exact_1_arg`]).
pub fn quasiquote_template<'a>(proc_name: &str, args: &'a List) -> (r: Result<&'a Expr, EvalError>)
    ensures
        args@.len() == 1 ==> r is Ok && r->Ok_0@ == args@[0],
        args@.len() == 0 ==> r is Err && plain_error(r->Err_0, proc_name@ + " needs an argument."@),
        args@.len() > 1 ==> r is Err && plain_error(
            r->Err_0,
            proc_name@ + " expects only 1 argument."@,
        ),
{
    get_exact_1_arg(proc_name, args)
}

/// The outcome of `(quasiquote template)` once its sites have been evaluated and
/// contribute `values` (see [`qq_outcome`]).
pub fn quasiquote_result(proc_name: &str, template: &Expr, values: &Vec<Vec<Expr>>) -> (r: Result<
    Expr,
    EvalError,
>)
    ensures
        match (r, qq_outcome(proc_name@, template@, values_view(values@))) {
            (Ok(e), Ok(x)) => e@ == x,
            (Err(e), Err((m, sp))) => e.message@ == m && e.span == sp,
            _ => false,
        },
{
    let mut filled = fill_template(template, values);
    if filled.len() == 1 {
        let ghost v = filled@.map_values(|e: Expr| e@);
        let e = filled.remove(0);
        assert(e@ == v[0]);
        Ok(e)
    } else {
        Err(EvalError::from_message(message(proc_name, ": expects only 1 argument")))
    }
}

} // verus!

verus! {

/// The expression `e` with the regions of its lists dropped.
pub open spec fn strip_lists(e: ExprView) -> ExprView
    decreases e,
{
    match e {
        ExprView::List(items, _) => ExprView::List(strip_items(items), None),
        _ => e,
    }
}

/// The elements with the regions of their lists dropped.
pub open spec fn strip_items(items: Seq<ExprView>) -> Seq<ExprView>
    decreases items,
{
    if items.len() == 0 {
        Seq::empty()
    } else {
        seq![strip_lists(items[0])] + strip_items(items.drop_first())
    }
}

/// A quasiquoted template without `unquote` or `unquote-splicing` is given back as
/// it is, as `quote` would give it (its lists carry no region), and takes no
/// contribution.
pub proof fn lemma_quasiquote_without_unquote(e: ExprView, vals: Seq<Seq<ExprView>>, k: int)
    requires
        qq_walk(e) == (Seq::<SiteView>::empty(), None::<(Seq<char>, Option<Span>)>),
    ensures
        qq_build(e, vals, k) == (seq![strip_lists(e)], k),
    decreases e, 1nat,
{
    match e {
        ExprView::List(items, _) => {
            if items.len() == 0 {
                assert(strip_items(items) =~= Seq::<ExprView>::empty());
            } else if !is_sym_named(items[0], unquote_sym()) && !is_sym_named(
                items[0],
                unquote_splicing_sym(),
            ) {
                lemma_items_without_unquote(items, vals, k);
            } else {
                assert(qq_walk(e).0.len() > 0 || qq_walk(e).1 is Some);
            }
        },
        _ => {},
    }
}

proof fn lemma_items_without_unquote(items: Seq<ExprView>, vals: Seq<Seq<ExprView>>, k: int)
    requires
        qq_walk_items(items) == (Seq::<SiteView>::empty(), None::<(Seq<char>, Option<Span>)>),
    ensures
        qq_build_items(items, vals, k) == (strip_items(items), k),
    decreases items, 0nat,
{
    if items.len() > 0 {
        let (s1, e1) = qq_walk(items[0]);
        let (s2, e2) = qq_walk_items(items.drop_first());
        assert(e1 is None);
        assert(s1 + s2 == Seq::<SiteView>::empty());
        assert(s1.len() == 0);
        assert(s1 =~= Seq::<SiteView>::empty());
        assert(s2 =~= Seq::<SiteView>::empty());
        lemma_quasiquote_without_unquote(items[0], vals, k);
        lemma_items_without_unquote(items.drop_first(), vals, k);
    }
}

/// Each site takes its own contribution: when the walk of a template finds no
/// error and there is a contribution for each of its sites from the `k`-th on,
/// filling the template takes exactly as many contributions as it has sites.
pub proof fn lemma_quasiquote_takes_one_per_site(e: ExprView, vals: Seq<Seq<ExprView>>, k: int)
    requires
        qq_walk(e).1 is None,
        0 <= k,
        k + qq_walk(e).0.len() <= vals.len(),
    ensures
        qq_build(e, vals, k).1 == k + qq_walk(e).0.len(),
    decreases e, 1nat,
{
    match e {
        ExprView::List(items, _) => {
            if items.len() > 0 && !is_sym_named(items[0], unquote_sym()) && !is_sym_named(
                items[0],
                unquote_splicing_sym(),
            ) {
                lemma_items_take_one_per_site(items, vals, k);
            }
        },
        _ => {},
    }
}

proof fn lemma_items_take_one_per_site(items: Seq<ExprView>, vals: Seq<Seq<ExprView>>, k: int)
    requires
        qq_walk_items(items).1 is None,
        0 <= k,
        k + qq_walk_items(items).0.len() <= vals.len(),
    ensures
        qq_build_items(items, vals, k).1 == k + qq_walk_items(items).0.len(),
    decreases items, 0nat,
{
    if items.len() > 0 {
        let (s1, e1) = qq_walk(items[0]);
        lemma_quasiquote_takes_one_per_site(items[0], vals, k);
        let k1 = qq_build(items[0], vals, k).1;
        lemma_items_take_one_per_site(items.drop_first(), vals, k1);
    }
}

} // verus!

verus! {

/// No list in `e`, at any depth, starts with the symbol `unquote` or
/// `unquote-splicing`.
pub open spec fn no_unquote(e: ExprView) -> bool
    decreases e,
{
    match e {
        ExprView::List(items, _) => (items.len() == 0 || (!is_sym_named(items[0], unquote_sym())
            && !is_sym_named(items[0], unquote_splicing_sym()))) && no_unquote_items(items),
        _ => true,
    }
}

/// No element of `items` holds an `unquote` form (see [`no_unquote`]).
pub open spec fn no_unquote_items(items: Seq<ExprView>) -> bool
    decreases items,
{
    items.len() == 0 || (no_unquote(items[0]) && no_unquote_items(items.drop_first()))
}

proof fn lemma_walk_no_unquote(e: ExprView)
    requires
        no_unquote(e),
    ensures
        qq_walk(e) == (Seq::<SiteView>::empty(), None::<(Seq<char>, Option<Span>)>),
    decreases e, 1nat,
{
    match e {
        ExprView::List(items, _) => {
            if items.len() > 0 {
                lemma_walk_items_no_unquote(items);
            }
        },
        _ => {},
    }
}

proof fn lemma_walk_items_no_unquote(items: Seq<ExprView>)
    requires
        no_unquote_items(items),
    ensures
        qq_walk_items(items) == (Seq::<SiteView>::empty(), None::<(Seq<char>, Option<Span>)>),
    decreases items, 0nat,
{
    if items.len() > 0 {
        lemma_walk_no_unquote(items[0]);
        lemma_walk_items_no_unquote(items.drop_first());
        assert(Seq::<SiteView>::empty() + Seq::<SiteView>::empty() =~= Seq::<SiteView>::empty());
    }
}

/// Without unquotes, quasiquote acts as quote: a template in which no list, at any
/// depth, starts with `unquote` or `unquote-splicing` has nothing to evaluate, and
/// `(quasiquote template)` gives the template itself (its lists without regions),
/// whatever the contributions.
pub proof fn lemma_quasiquote_acts_as_quote(proc_name: Seq<char>, e: ExprView, vals: Seq<Seq<ExprView>>)
    requires
        no_unquote(e),
    ensures
        qq_walk(e) == (Seq::<SiteView>::empty(), None::<(Seq<char>, Option<Span>)>),
        qq_outcome(proc_name, e, vals) == Ok::<ExprView, (Seq<char>, Option<Span>)>(strip_lists(e)),
{
    lemma_walk_no_unquote(e);
    lemma_quasiquote_without_unquote(e, vals, 0);
}

} // verus!
