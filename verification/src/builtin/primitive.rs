//! The shapes of the special forms `define`, `defmacro`, `lambda` and `set!`.

use vstd::prelude::*;
use crate::eval::EvalError;
use crate::expr::{cons, Expr, ExprView, List};
use crate::span::Span;
use crate::text::push_str;
use crate::utils::{
    formal_args_err, formal_args_ok, get_exact_2_args, make_formal_args, plain_error, type_error,
    type_error_message,
};

verus! {

/// The error with the message `message` and the region `span`.
pub open spec fn error_is(e: EvalError, message: Seq<char>, span: Option<Span>) -> bool {
    e.message@ == message && e.span == span
}

fn error_at(proc_name: &str, tail: &str, span: Option<Span>) -> (e: EvalError)
    ensures
        error_is(e, proc_name@ + tail@, span),
{
    let mut message = String::new();
    push_str(&mut message, proc_name);
    push_str(&mut message, tail);
    assert(Seq::<char>::empty() + proc_name@ + tail@ == proc_name@ + tail@);
    EvalError { message, span }
}

/// The elements of a list after the first `n`.
pub(crate) fn rest_of(list: &List, n: usize) -> (r: List)
    ensures
        n <= list@.len() ==> r@ == list@.subrange(n as int, list@.len() as int),
        n > list@.len() ==> r@.len() == 0,
    decreases n,
{
    if n == 0 {
        assert(list@.subrange(0, list@.len() as int) =~= list@);
        list.clone()
    } else {
        match list {
            List::Nil => List::Nil,
            List::Cons(c) => {
                let r = rest_of(&c.cdr, n - 1);
                assert(list@ == seq![c.car@] + c.cdr@);
                assert(n <= list@.len() ==> c.cdr@.subrange(n - 1, c.cdr@.len() as int) =~= list@.subrange(n as int, list@.len() as int));
                r
            },
        }
    }
}

/// The span of the `i`-th argument, `None` when there is none.
pub open spec fn arg_span(args: Seq<ExprView>, i: int) -> Option<Span> {
    if 0 <= i < args.len() {
        args[i].span()
    } else {
        None
    }
}

/// What `define` defines: a variable and the expression of its value, or a
/// procedure with its name, formal arguments and body.
#[derive(Debug)]
pub enum DefineForm {
    Variable { name: String, value: Expr },
    Procedure { name: String, formal_args: Vec<String>, body: List },
}

/// Reads the arguments of `define`.
///
/// `(define name expr ...)` defines the variable `name` with `expr` (further
/// arguments are ignored); without `expr` the error is "`proc_name`: define expects a
/// expression after symbol" at the symbol. `(define (name args...) body...)` defines
/// a procedure; its name must be a symbol ("`proc_name`: expects a symbol for a
/// procedure name" at the first element otherwise) and its arguments symbols (the
/// error of [`make_formal_args`]). Anything else is "`proc_name`: invalid form --
/// expected a symbol or a list.".
pub fn define_form(proc_name: &str, args: &List) -> (r: Result<DefineForm, EvalError>)
    ensures
        ({
            let a = args@;
            if a.len() >= 1 && a[0] is Sym {
                if a.len() >= 2 {
                    r matches Ok(DefineForm::Variable { name, value }) && ExprView::Sym(name@, a[0].span()) == a[0] && value@ == a[1]
                } else {
                    r is Err && error_is(r->Err_0, proc_name@ + ": define expects a expression after symbol"@, a[0].span())
                }
            } else if a.len() >= 1 && a[0] is List && a[0]->List_0.len() > 0 {
                let items = a[0]->List_0;
                if items[0] is Sym {
                    match r {
                        Ok(DefineForm::Procedure { name, formal_args, body }) =>
                            ExprView::Sym(name@, items[0].span()) == items[0]
                            && formal_args_ok(items.drop_first(), formal_args@.map_values(|n: String| n@))
                            && body@ == a.drop_first(),
                        Err(e) => formal_args_err(items.drop_first(), e),
                        _ => false,
                    }
                } else {
                    r is Err && error_is(r->Err_0, proc_name@ + ": expects a symbol for a procedure name"@, items[0].span())
                }
            } else {
                r is Err && plain_error(r->Err_0, proc_name@ + ": invalid form -- expected a symbol or a list."@)
            }
        }),
{
    match args.get(0) {
        Some(Expr::Sym(name, span)) => match args.get(1) {
            Some(value) => Ok(DefineForm::Variable { name: name.clone(), value: value.clone() }),
            None => Err(error_at(proc_name, ": define expects a expression after symbol", *span)),
        },
        Some(Expr::List(List::Cons(c), _)) => {
            let ghost items = args@[0]->List_0;
            assert(items == seq![c.car@] + c.cdr@);
            assert(items.drop_first() == c.cdr@);
            match &*c.car {
                Expr::Sym(name, _) => {
                    let formal_args = match make_formal_args(&c.cdr) {
                        Ok(f) => f,
                        Err(e) => {
                            return Err(e);
                        },
                    };
                    let body = rest_of(args, 1);
                    assert(args@.drop_first() =~= args@.subrange(1, args@.len() as int));
                    Ok(DefineForm::Procedure { name: name.clone(), formal_args, body })
                },
                other => Err(error_at(proc_name, ": expects a symbol for a procedure name", other.span())),
            }
        },
        _ => Err(error_at(proc_name, ": invalid form -- expected a symbol or a list.", None)),
    }
}

/// What `defmacro` defines: a macro's name, formal arguments and body.
#[derive(Debug)]
pub struct MacroForm {
    pub name: String,
    pub formal_args: Vec<String>,
    pub body: List,
}

/// Reads the arguments of `defmacro`.
///
/// `(defmacro name (args...) body...)`: after the name there must be a list
/// ("`proc_name`: expected a list of formal arguments after a macro name." at that
/// argument, or with no region when there is none). `(defmacro (name args...)
/// body...)`: the first element must be a symbol ("`proc_name`: a macro name expected
/// as the first element of the list." at it). Formal arguments must be symbols (the
/// error of [`make_formal_args`]). Anything else is "`proc_name`: invalid macro form
/// -- expected a symbol or a list." at the first argument.
pub fn defmacro_form(proc_name: &str, args: &List) -> (r: Result<MacroForm, EvalError>)
    ensures
        ({
            let a = args@;
            if a.len() >= 1 && a[0] is Sym {
                if a.len() >= 2 && a[1] is List {
                    match r {
                        Ok(m) => ExprView::Sym(m.name@, a[0].span()) == a[0]
                            && formal_args_ok(a[1]->List_0, m.formal_args@.map_values(|n: String| n@))
                            && m.body@ == a.subrange(2, a.len() as int),
                        Err(e) => formal_args_err(a[1]->List_0, e),
                    }
                } else {
                    r is Err && error_is(r->Err_0, proc_name@ + ": expected a list of formal arguments after a macro name."@, arg_span(a, 1))
                }
            } else if a.len() >= 1 && a[0] is List && a[0]->List_0.len() > 0 {
                let items = a[0]->List_0;
                if items[0] is Sym {
                    match r {
                        Ok(m) => ExprView::Sym(m.name@, items[0].span()) == items[0]
                            && formal_args_ok(items.drop_first(), m.formal_args@.map_values(|n: String| n@))
                            && m.body@ == a.drop_first(),
                        Err(e) => formal_args_err(items.drop_first(), e),
                    }
                } else {
                    r is Err && error_is(r->Err_0, proc_name@ + ": a macro name expected as the first element of the list."@, items[0].span())
                }
            } else {
                r is Err && error_is(r->Err_0, proc_name@ + ": invalid macro form -- expected a symbol or a list."@, arg_span(a, 0))
            }
        }),
{
    match args.get(0) {
        Some(Expr::Sym(name, _)) => match args.get(1) {
            Some(Expr::List(list, _)) => {
                let formal_args = match make_formal_args(list) {
                    Ok(f) => f,
                    Err(e) => {
                        return Err(e);
                    },
                };
                let body = rest_of(args, 2);
                Ok(MacroForm { name: name.clone(), formal_args, body })
            },
            second => {
                let span = match second {
                    Some(e) => e.span(),
                    None => None,
                };
                Err(error_at(proc_name, ": expected a list of formal arguments after a macro name.", span))
            },
        },
        Some(Expr::List(List::Cons(c), _)) => {
            let ghost items = args@[0]->List_0;
            assert(items == seq![c.car@] + c.cdr@);
            assert(items.drop_first() == c.cdr@);
            match &*c.car {
                Expr::Sym(name, _) => {
                    let formal_args = match make_formal_args(&c.cdr) {
                        Ok(f) => f,
                        Err(e) => {
                            return Err(e);
                        },
                    };
                    let body = rest_of(args, 1);
                    assert(args@.drop_first() =~= args@.subrange(1, args@.len() as int));
                    Ok(MacroForm { name: name.clone(), formal_args, body })
                },
                other => Err(error_at(proc_name, ": a macro name expected as the first element of the list.", other.span())),
            }
        },
        first => {
            let span = match first {
                Some(e) => e.span(),
                None => None,
            };
            Err(error_at(proc_name, ": invalid macro form -- expected a symbol or a list.", span))
        },
    }
}

/// Reads the arguments of `lambda`: `(lambda (args...) body...)` gives the names of
/// the formal arguments and the body. The first argument must be a list
/// ("`proc_name`: expected a list of formal arguments." at it, or with no region when
/// there is none) of symbols (the error of [`make_formal_args`]).
pub fn lambda_form(proc_name: &str, args: &List) -> (r: Result<(Vec<String>, List), EvalError>)
    ensures
        ({
            let a = args@;
            if a.len() >= 1 && a[0] is List {
                match r {
                    Ok((formal_args, body)) => formal_args_ok(a[0]->List_0, formal_args@.map_values(|n: String| n@))
                        && body@ == a.drop_first(),
                    Err(e) => formal_args_err(a[0]->List_0, e),
                }
            } else {
                r is Err && error_is(r->Err_0, proc_name@ + ": expected a list of formal arguments."@, arg_span(a, 0))
            }
        }),
{
    match args.get(0) {
        Some(Expr::List(list, _)) => {
            let formal_args = match make_formal_args(list) {
                Ok(f) => f,
                Err(e) => {
                    return Err(e);
                },
            };
            let body = rest_of(args, 1);
            assert(args@.drop_first() =~= args@.subrange(1, args@.len() as int));
            Ok((formal_args, body))
        },
        first => {
            let span = match first {
                Some(e) => e.span(),
                None => None,
            };
            Err(error_at(proc_name, ": expected a list of formal arguments.", span))
        },
    }
}

/// Reads the arguments of `set!`: `(set! name expr)` gives the name and the
/// expression of the new value. It takes exactly two arguments (the errors of
/// [`get_exact_2_args`]); the first must be a symbol ("`proc_name`: expects a symbol
/// as the first argument" at it).
pub fn set_form<'a>(proc_name: &str, args: &'a List) -> (r: Result<(String, &'a Expr), EvalError>)
    ensures
        ({
            let a = args@;
            if a.len() == 2 {
                if a[0] is Sym {
                    r matches Ok((name, value)) && ExprView::Sym(name@, a[0].span()) == a[0] && value@ == a[1]
                } else {
                    r is Err && error_is(r->Err_0, proc_name@ + ": expects a symbol as the first argument"@, a[0].span())
                }
            } else if a.len() > 2 {
                r is Err && plain_error(r->Err_0, proc_name@ + ": takes only two arguments"@)
            } else {
                r is Err && plain_error(r->Err_0, proc_name@ + ": requres two arguments"@)
            }
        }),
{
    let (name_expr, value_expr) = match get_exact_2_args(proc_name, args) {
        Ok(p) => p,
        Err(e) => {
            return Err(e);
        },
    };
    match name_expr {
        Expr::Sym(name, _) => Ok((name.clone(), value_expr)),
        _ => Err(error_at(proc_name, ": expects a symbol as the first argument", name_expr.span())),
    }
}

} // verus!

verus! {

/// `(car x)` once `x` has evaluated to `value`: the first element of a non-empty
/// list; otherwise the error that `x` does not evaluate to "a list".
pub fn car_of(proc_name: &str, arg: &Expr, value: &Expr) -> (r: Result<Expr, EvalError>)
    ensures
        match value@ {
            ExprView::List(items, _) if items.len() > 0 => r is Ok && r->Ok_0@ == items[0],
            _ => r is Err && r->Err_0.message@ == type_error_message(proc_name@, arg@, "a list"@)
                && r->Err_0.span == arg@.span(),
        },
{
    match value {
        Expr::List(List::Cons(c), _) => {
            assert(value@->List_0 == seq![c.car@] + c.cdr@);
            Ok((*c.car).clone())
        },
        _ => Err(type_error(proc_name, arg, "a list")),
    }
}

/// `(cdr x)` once `x` has evaluated to `value`: the list of the elements of a
/// non-empty list after the first, with no region; otherwise the error that `x`
/// does not evaluate to "a list".
pub fn cdr_of(proc_name: &str, arg: &Expr, value: &Expr) -> (r: Result<Expr, EvalError>)
    ensures
        match value@ {
            ExprView::List(items, _) if items.len() > 0 => r is Ok && r->Ok_0@ == ExprView::List(
                items.drop_first(),
                None,
            ),
            _ => r is Err && r->Err_0.message@ == type_error_message(proc_name@, arg@, "a list"@)
                && r->Err_0.span == arg@.span(),
        },
{
    match value {
        Expr::List(List::Cons(c), _) => {
            assert((seq![c.car@] + c.cdr@).drop_first() == c.cdr@);
            Ok(Expr::List((*c.cdr).clone(), None))
        },
        _ => Err(type_error(proc_name, arg, "a list")),
    }
}

/// `(cons x y)` once `x` and `y` have evaluated to `car` and `cdr`: the list of
/// `car` followed by the elements of `cdr`, with no region; the error that `y` does
/// not evaluate to "a list" when `cdr` is no list.
pub fn cons_of(proc_name: &str, cdr_arg: &Expr, car: Expr, cdr: Expr) -> (r: Result<Expr, EvalError>)
    ensures
        match cdr@ {
            ExprView::List(items, _) => r is Ok && r->Ok_0@ == ExprView::List(seq![car@] + items, None),
            _ => r is Err && r->Err_0.message@ == type_error_message(proc_name@, cdr_arg@, "a list"@)
                && r->Err_0.span == cdr_arg@.span(),
        },
{
    match cdr {
        Expr::List(list, _) => Ok(Expr::List(cons(car, list), None)),
        _ => Err(type_error(proc_name, cdr_arg, "a list")),
    }
}

} // verus!
