//! Helpers for procedures: checking their arguments.

use vstd::prelude::*;
use crate::eval::EvalError;
use crate::expr::{text, Expr, ExprView, List};
use crate::text::push_str;

verus! {

/// The error with `message` and no region.
pub open spec fn plain_error(e: EvalError, message: Seq<char>) -> bool {
    e.message@ == message && e.span == None::<crate::span::Span>
}

fn error_with(proc_name: &str, tail: &str) -> (e: EvalError)
    ensures
        plain_error(e, proc_name@ + tail@),
{
    let mut message = String::new();
    push_str(&mut message, proc_name);
    push_str(&mut message, tail);
    assert(Seq::<char>::empty() + proc_name@ + tail@ == proc_name@ + tail@);
    EvalError::from_message(message)
}

/// Gets the one argument of a procedure.
///
/// `args` must hold exactly one expression; it is returned. Otherwise the error is
/// "`proc_name` needs an argument." for no argument and "`proc_name` expects only
/// 1 argument." for more.
pub fn get_exact_1_arg<'a>(proc_name: &str, args: &'a List) -> (r: Result<&'a Expr, EvalError>)
    ensures
        args@.len() == 1 ==> r is Ok && r->Ok_0@ == args@[0],
        args@.len() == 0 ==> r is Err && plain_error(r->Err_0, proc_name@ + " needs an argument."@),
        args@.len() > 1 ==> r is Err && plain_error(
            r->Err_0,
            proc_name@ + " expects only 1 argument."@,
        ),
{
    let arg1 = args.get(0);
    let arg2 = args.get(1);
    match (arg1, arg2) {
        (None, _) => Err(error_with(proc_name, " needs an argument.")),
        (Some(a), None) => Ok(a),
        (Some(_), Some(_)) => Err(error_with(proc_name, " expects only 1 argument.")),
    }
}

/// Gets the two arguments of a procedure.
///
/// With exactly two, returns them; with three or more the error is "`proc_name`:
/// takes only two arguments", with fewer "`proc_name`: requres two arguments".
pub fn get_exact_2_args<'a>(proc_name: &str, args: &'a List) -> (r: Result<
    (&'a Expr, &'a Expr),
    EvalError,
>)
    ensures
        args@.len() == 2 ==> r is Ok && r->Ok_0.0@ == args@[0] && r->Ok_0.1@ == args@[1],
        args@.len() > 2 ==> r is Err && plain_error(
            r->Err_0,
            proc_name@ + ": takes only two arguments"@,
        ),
        args@.len() < 2 ==> r is Err && plain_error(
            r->Err_0,
            proc_name@ + ": requres two arguments"@,
        ),
{
    let arg1 = args.get(0);
    let arg2 = args.get(1);
    let arg3 = args.get(2);
    match (arg1, arg2, arg3) {
        (Some(a1), Some(a2), None) => Ok((a1, a2)),
        (Some(_), Some(_), Some(_)) => Err(error_with(proc_name, ": takes only two arguments")),
        _ => Err(error_with(proc_name, ": requres two arguments")),
    }
}

/// Gets the three arguments of a procedure.
///
/// With exactly three, returns them; with four or more the error is "`proc_name`:
/// takes only two arguments", with fewer "`proc_name`: requres two arguments" (these
/// are the messages that the procedures give).
pub fn get_exact_3_args<'a>(proc_name: &str, args: &'a List) -> (r: Result<
    (&'a Expr, &'a Expr, &'a Expr),
    EvalError,
>)
    ensures
        args@.len() == 3 ==> r is Ok && r->Ok_0.0@ == args@[0] && r->Ok_0.1@ == args@[1]
            && r->Ok_0.2@ == args@[2],
        args@.len() > 3 ==> r is Err && plain_error(
            r->Err_0,
            proc_name@ + ": takes only two arguments"@,
        ),
        args@.len() < 3 ==> r is Err && plain_error(
            r->Err_0,
            proc_name@ + ": requres two arguments"@,
        ),
{
    let arg1 = args.get(0);
    let arg2 = args.get(1);
    let arg3 = args.get(2);
    let arg4 = args.get(3);
    match (arg1, arg2, arg3, arg4) {
        (Some(a1), Some(a2), Some(a3), None) => Ok((a1, a2, a3)),
        (Some(_), Some(_), Some(_), Some(_)) => Err(
            error_with(proc_name, ": takes only two arguments"),
        ),
        _ => Err(error_with(proc_name, ": requres two arguments")),
    }
}

/// Gets two arguments and an optional third.
///
/// With two or three, returns them (the third as an option); with four or more the
/// error is "`proc_name`: takes only up to 3 arguments", with fewer than two
/// "`proc_name`: requres at least 2 arguments".
pub fn get_2_or_3_args<'a>(proc_name: &str, args: &'a List) -> (r: Result<
    (&'a Expr, &'a Expr, Option<&'a Expr>),
    EvalError,
>)
    ensures
        2 <= args@.len() <= 3 ==> r is Ok && r->Ok_0.0@ == args@[0] && r->Ok_0.1@ == args@[1]
            && (args@.len() == 2 ==> r->Ok_0.2 is None) && (args@.len() == 3 ==> r->Ok_0.2
            is Some && r->Ok_0.2->0@ == args@[2]),
        args@.len() > 3 ==> r is Err && plain_error(
            r->Err_0,
            proc_name@ + ": takes only up to 3 arguments"@,
        ),
        args@.len() < 2 ==> r is Err && plain_error(
            r->Err_0,
            proc_name@ + ": requres at least 2 arguments"@,
        ),
{
    let arg1 = args.get(0);
    let arg2 = args.get(1);
    let arg3 = args.get(2);
    let arg4 = args.get(3);
    match (arg1, arg2, arg3, arg4) {
        (Some(a1), Some(a2), a3, None) => Ok((a1, a2, a3)),
        (Some(_), Some(_), Some(_), Some(_)) => Err(
            error_with(proc_name, ": takes only up to 3 arguments"),
        ),
        _ => Err(error_with(proc_name, ": requres at least 2 arguments")),
    }
}

/// The name of a symbol expression.
pub open spec fn sym_name(e: ExprView) -> Option<Seq<char>> {
    match e {
        ExprView::Sym(name, _) => Some(name),
        _ => None,
    }
}

/// `names` are the names of the symbols `items`, in order.
pub open spec fn formal_args_ok(items: Seq<ExprView>, names: Seq<Seq<char>>) -> bool {
    &&& names.len() == items.len()
    &&& forall|i: int| 0 <= i < items.len() ==> sym_name(#[trigger] items[i]) == Some(names[i])
}

/// `e` is the error about the first element of `items` that is not a symbol.
pub open spec fn formal_args_err(items: Seq<ExprView>, e: EvalError) -> bool {
    exists|i: int|
        0 <= i < items.len() && sym_name(#[trigger] items[i]) is None && (forall|j: int|
            0 <= j < i ==> sym_name(#[trigger] items[j]) is Some) && e.message@ == text(items[i])
            + " is not a symbol."@ && e.span == items[i].span()
}

/// Makes the names of formal arguments from a list.
///
/// When every element of `list` is a symbol, returns their names in order.
/// Otherwise the error is about the first element that is not a symbol: "`item` is not
/// a symbol.", with the item's text and region.
pub fn make_formal_args(list: &List) -> (r: Result<Vec<String>, EvalError>)
    ensures
        match r {
            Ok(names) => formal_args_ok(list@, names@.map_values(|n: String| n@)),
            Err(e) => formal_args_err(list@, e),
        },
{
    let mut names: Vec<String> = Vec::new();
    let mut cur = list;
    let ghost all = list@;
    loop
        invariant
            names@.len() + cur@.len() == all.len(),
            all == list@,
            cur@ == all.subrange(names@.len() as int, all.len() as int),
            forall|i: int| 0 <= i < names@.len() ==> sym_name(#[trigger] all[i]) == Some(names@[i]@),
        decreases cur@.len(),
    {
        match cur {
            List::Nil => {
                assert(formal_args_ok(list@, names@.map_values(|n: String| n@)));
                return Ok(names);
            },
            List::Cons(c) => {
                let ghost k = names@.len() as int;
                assert(all[k] == c.car@) by {
                    assert(cur@[0] == c.car@);
                }
                match &*c.car {
                    Expr::Sym(name, _) => {
                        names.push(name.clone());
                        cur = &*c.cdr;
                        assert(cur@ == all.subrange(names@.len() as int, all.len() as int)) by {
                            assert(all.subrange(k, all.len() as int).drop_first() =~= all.subrange(k + 1, all.len() as int));
                        }
                    },
                    item => {
                        let mut message = item.to_string();
                        push_str(&mut message, " is not a symbol.");
                        let e = EvalError { message, span: item.span() };
                        assert(sym_name(all[k]) is None);
                        return Err(e);
                    },
                }
            },
        }
    }
}

} // verus!

verus! {

/// The message "`proc_name`: `e` does not evaluate to `what`.", where `e` is the text
/// of the expression.
pub open spec fn type_error_message(proc_name: Seq<char>, e: ExprView, what: Seq<char>) -> Seq<char> {
    proc_name + ": `"@ + text(e) + "` does not evaluate to "@ + what + "."@
}

/// The error that an argument does not evaluate to what a procedure needs (see
/// [`type_error_message`]), at the region of the argument.
pub fn type_error(proc_name: &str, expr: &Expr, what: &str) -> (e: EvalError)
    ensures
        e.message@ == type_error_message(proc_name@, expr@, what@),
        e.span == expr@.span(),
{
    let mut message = String::new();
    push_str(&mut message, proc_name);
    push_str(&mut message, ": `");
    expr.write_text(&mut message);
    push_str(&mut message, "` does not evaluate to ");
    push_str(&mut message, what);
    push_str(&mut message, ".");
    assert(Seq::<char>::empty() + proc_name@ + ": `"@ + text(expr@) + "` does not evaluate to "@ + what@ + "."@
        == type_error_message(proc_name@, expr@, what@));
    EvalError { message, span: expr.span() }
}

/// The text of the string that the argument `expr` evaluated to, `value`; otherwise
/// the error that it does not evaluate to "a string".
pub fn into_str(proc_name: &str, expr: &Expr, value: Expr) -> (r: Result<String, EvalError>)
    ensures
        match value@ {
            ExprView::Str(t, _) => r is Ok && r->Ok_0@ == t,
            _ => r is Err && r->Err_0.message@ == type_error_message(proc_name@, expr@, "a string"@)
                && r->Err_0.span == expr@.span(),
        },
{
    match value {
        Expr::Str(text, _) => Ok(text),
        _ => Err(type_error(proc_name, expr, "a string")),
    }
}

/// The number that the argument `expr` evaluated to, `value`; otherwise the error
/// that it does not evaluate to "a number".
pub fn into_num(proc_name: &str, expr: &Expr, value: Expr) -> (r: Result<crate::number::Number, EvalError>)
    ensures
        match value@ {
            ExprView::Num(t, _) => r is Ok && r->Ok_0@ == t,
            _ => r is Err && r->Err_0.message@ == type_error_message(proc_name@, expr@, "a number"@)
                && r->Err_0.span == expr@.span(),
        },
{
    match value {
        Expr::Num(n, _) => Ok(n),
        _ => Err(type_error(proc_name, expr, "a number")),
    }
}

/// The handle of the foreign value that the argument `expr` evaluated to, `value`;
/// otherwise the error that it does not evaluate to "a foreign object".
pub fn into_foreign(proc_name: &str, expr: &Expr, value: Expr) -> (r: Result<crate::expr::Handle, EvalError>)
    ensures
        match value@ {
            ExprView::Foreign(h) => r is Ok && r->Ok_0@ == h,
            _ => r is Err && r->Err_0.message@ == type_error_message(
                proc_name@,
                expr@,
                "a foreign object"@,
            ) && r->Err_0.span == expr@.span(),
        },
{
    match value {
        Expr::Foreign(h) => Ok(h),
        _ => Err(type_error(proc_name, expr, "a foreign object")),
    }
}

} // verus!

verus! {

/// The error about a form `(proc_name args...)` that has no valid shape:
/// "Ill-formed syntax: " followed by the text of the form.
pub fn make_syntax_error(proc_name: &str, args: &List) -> (e: EvalError)
    ensures
        e.message@ == "Ill-formed syntax: "@ + text(
            ExprView::List(seq![ExprView::Sym(proc_name@, None)] + args@, None),
        ),
        e.span == None::<crate::span::Span>,
{
    let form = Expr::List(crate::expr::cons(crate::expr::intern(proc_name), args.clone()), None);
    let mut message = String::new();
    push_str(&mut message, "Ill-formed syntax: ");
    form.write_text(&mut message);
    assert(Seq::<char>::empty() + "Ill-formed syntax: "@ == "Ill-formed syntax: "@);
    EvalError::from_message(message)
}

} // verus!
