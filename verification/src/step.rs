//! The decisions of evaluation, one step at a time.
//!
//! Evaluating an expression alternates decisions, which this module makes, with work
//! that the evaluator does: running native procedures (functions of the host) and
//! evaluating the parts of an expression, recursively, which need not terminate.
//! [`eval_step`] decides what an expression is and what evaluating it takes;
//! [`call_step`] decides what to do with the value of the head of a form, a tail call
//! among others; [`enter_call`] makes the environment in which a closure's body (or a
//! macro's) runs; [`body_step`] and [`macro_step`] walk through a body.

use vstd::prelude::*;
use crate::builtin::primitive::rest_of;
use crate::builtin::quote::{is_sym_named, quote, QUASIQUOTE, QUOTE};
use crate::env::{resolve, Envs, FrameView};
use crate::eval::{locate_error, not_callable, undefined_symbol, EvalError};
use crate::expr::{items_span, text, Expr, ExprView, List};
use crate::parser::{quasiquote_sym, quote_sym};
use crate::proc::{bind_args, lemma_variadic_takes_rest, plan_from, ArgBinding, ArityError, BindingView};
use crate::span::Span;
use crate::text::push_str;

verus! {

/// What evaluating an expression takes.
#[derive(Debug)]
pub enum EvalStep {
    /// The expression evaluates to this value.
    Value(Expr),
    /// Evaluating the expression fails with this error.
    Error(EvalError),
    /// The expression is `(quasiquote args...)`: the template is filled as
    /// `crate::builtin::quote` describes, evaluating its unquoted parts.
    Quasiquote { args: List },
    /// The expression is a form `(head args...)`: the head is evaluated, then
    /// [`call_step`] decides.
    Apply { head: Expr, args: List },
}

/// The mathematical value of an [`EvalStep`].
pub enum EvalStepView {
    Value(ExprView),
    Error(Seq<char>, Option<Span>),
    Quasiquote(Seq<ExprView>),
    Apply(ExprView, Seq<ExprView>),
}

impl View for EvalStep {
    type V = EvalStepView;

    open spec fn view(&self) -> EvalStepView {
        match self {
            EvalStep::Value(e) => EvalStepView::Value(e@),
            EvalStep::Error(e) => EvalStepView::Error(e.message@, e.span),
            EvalStep::Quasiquote { args } => EvalStepView::Quasiquote(args@),
            EvalStep::Apply { head, args } => EvalStepView::Apply(head@, args@),
        }
    }
}

/// The region that an error without one gets when it comes from the form `form`
/// with arguments `args`: theirs when they have one, otherwise the form's.
pub open spec fn error_region(span: Option<Span>, args: Seq<ExprView>, form: ExprView) -> Option<Span> {
    match span {
        Some(s) => Some(s),
        None => match items_span(args) {
            Some(s) => Some(s),
            None => form.span(),
        },
    }
}

/// What evaluating `e` in environment `env` takes:
/// - a symbol evaluates to its value there ("Undefined symbol: `name`" at the symbol
///   when none);
/// - `(quote x)` evaluates to `x` (with no argument: "quote needs an argument.", with
///   more: "quote expects only 1 argument.", at the arguments or the form);
/// - `(quasiquote ...)` is filled;
/// - another non-empty list is a form whose head is evaluated and applied;
/// - anything else (numbers, strings, the empty list, procedures, foreign values)
///   evaluates to itself.
pub open spec fn eval_step_spec(frames: Seq<FrameView>, e: ExprView, env: int) -> EvalStepView {
    match e {
        ExprView::Sym(name, sp) => match resolve(frames, env, name) {
            Some(v) => EvalStepView::Value(v),
            None => EvalStepView::Error("Undefined symbol: `"@ + name + "`"@, sp),
        },
        ExprView::List(items, _) => if items.len() == 0 {
            EvalStepView::Value(e)
        } else if is_sym_named(items[0], quote_sym()) {
            let args = items.drop_first();
            if args.len() == 1 {
                EvalStepView::Value(args[0])
            } else if args.len() == 0 {
                EvalStepView::Error(quote_sym() + " needs an argument."@, error_region(None, args, e))
            } else {
                EvalStepView::Error(quote_sym() + " expects only 1 argument."@, error_region(None, args, e))
            }
        } else if is_sym_named(items[0], quasiquote_sym()) {
            EvalStepView::Quasiquote(items.drop_first())
        } else {
            EvalStepView::Apply(items[0], items.drop_first())
        },
        _ => EvalStepView::Value(e),
    }
}

/// Decides what evaluating `expr` in environment `env` takes (see
/// [`eval_step_spec`]).
pub fn eval_step(envs: &Envs, expr: &Expr, env: usize) -> (r: EvalStep)
    requires
        envs.wf(),
        env < envs.frames().len(),
    ensures
        r@ == eval_step_spec(envs.frames(), expr@, env as int),
{
    proof {
        reveal_strlit("quote");
        reveal_strlit("quasiquote");
    }
    match expr {
        Expr::Sym(name, sp) => match envs.lookup(env, name.as_str()) {
            Some(v) => EvalStep::Value(v),
            None => EvalStep::Error(undefined_symbol(name.as_str(), *sp)),
        },
        Expr::List(List::Cons(c), _) => {
            let ghost items = expr@->List_0;
            assert(items == seq![c.car@] + c.cdr@);
            assert(items[0] == c.car@);
            assert(items.drop_first() == c.cdr@);
            match &*c.car {
                Expr::Sym(name, _) => {
                    if *name == QUOTE.to_owned() {
                        assert(QUOTE@ =~= quote_sym());
                        return match quote(name.as_str(), &c.cdr) {
                            Ok(v) => EvalStep::Value(v),
                            Err(e) => EvalStep::Error(locate_error(e, &c.cdr, expr)),
                        };
                    }
                    if *name == QUASIQUOTE.to_owned() {
                        assert(QUASIQUOTE@ =~= quasiquote_sym());
                        return EvalStep::Quasiquote { args: (*c.cdr).clone() };
                    }
                    assert(QUOTE@ =~= quote_sym());
                    assert(QUASIQUOTE@ =~= quasiquote_sym());
                },
                _ => {},
            }
            EvalStep::Apply { head: (*c.car).clone(), args: (*c.cdr).clone() }
        },
        _ => EvalStep::Value(expr.clone()),
    }
}

/// What to do once the head of a form has evaluated.
#[derive(Debug)]
pub enum CallStep {
    /// The head does not evaluate to a procedure.
    Error(EvalError),
    /// Call the procedure `proc` with the (unevaluated) arguments, in environment
    /// `env`, and wait for its value.
    Call { proc: u64, args: List, env: usize },
    /// The form is in tail position inside a procedure: hand the call back to the
    /// caller, which makes it in place of the current one, so that a chain of tail
    /// calls runs in bounded depth.
    TailCall { proc: u64, args: List, env: usize },
}

/// Decides what to do with the value `value` of the head `head` of a form with
/// arguments `args`, evaluated in `env`: `is_tail` tells whether the form is in tail
/// position, `in_proc` whether a procedure is running. A procedure is called, or,
/// in tail position inside a procedure, its call is handed back; anything else is
/// the error "`head` does not evaluate to a callable." at the head.
pub fn call_step(head: &Expr, value: &Expr, args: List, env: usize, is_tail: bool, in_proc: bool) -> (r: CallStep)
    ensures
        match value@ {
            ExprView::Proc(h, _) => if is_tail && in_proc {
                r matches CallStep::TailCall { proc, args: a, env: e } && proc == h.id && a@ == args@ && e == env
            } else {
                r matches CallStep::Call { proc, args: a, env: e } && proc == h.id && a@ == args@ && e == env
            },
            _ => r matches CallStep::Error(err) && err.message@ == "`"@ + text(head@)
                + "` does not evaluate to a callable."@ && err.span == head@.span(),
        },
{
    match value {
        Expr::Proc(h, _) => if is_tail && in_proc {
            CallStep::TailCall { proc: h.id, args, env }
        } else {
            CallStep::Call { proc: h.id, args, env }
        },
        _ => CallStep::Error(not_callable(head)),
    }
}

/// The bindings that `plan` makes from the actual arguments `args`, whose evaluated
/// values (for the arguments that are bound one by one) are `values`: a formal
/// argument takes its value; a variadic one takes the list of the arguments left,
/// unevaluated (none when fewer arguments than formal ones before it are given). A
/// later binding of a name replaces an earlier one.
pub open spec fn plan_vars(plan: Seq<BindingView>, args: Seq<ExprView>, values: Seq<ExprView>) -> Map<
    Seq<char>,
    ExprView,
>
    decreases plan.len(),
{
    if plan.len() == 0 {
        Map::empty()
    } else {
        let before = plan_vars(plan.drop_last(), args, values);
        match plan.last() {
            BindingView::One(name, i) => before.insert(name, values[i]),
            BindingView::Rest(name, from) => before.insert(
                name,
                ExprView::List(
                    if from <= args.len() {
                        args.subrange(from, args.len() as int)
                    } else {
                        Seq::empty()
                    },
                    None,
                ),
            ),
        }
    }
}

/// The formals of a procedure as texts.
pub open spec fn formals_view(formals: Seq<String>) -> Seq<Seq<char>> {
    formals.map_values(|f: String| f@)
}

fn arity_error(proc_name: &str, e: ArityError) -> (r: EvalError)
    ensures
        r.message@ == proc_name@ + match e {
            ArityError::TooFew => ": too few args"@,
            ArityError::TooMany => ": too many args"@,
        },
        r.span == None::<Span>,
{
    let tail = match e {
        ArityError::TooFew => ": too few args",
        ArityError::TooMany => ": too many args",
    };
    let mut message = String::new();
    push_str(&mut message, proc_name);
    push_str(&mut message, tail);
    assert(Seq::<char>::empty() + proc_name@ + tail@ == proc_name@ + tail@);
    EvalError::from_message(message)
}

/// Makes the environment in which the body of a procedure named `proc_name`, with
/// formal arguments `formals`, runs when called with `args`: a new environment that
/// derives from `base` (the environment a closure captured; for a macro, the
/// calling one) and binds the formal arguments as [`plan_from`] plans (see
/// [`plan_vars`]). `values[i]` is the value of the `i`-th argument, for those that
/// are bound one by one: evaluated for a closure, the argument itself for a macro.
/// Gives the new environment's index, or, when the number of arguments is wrong,
/// the error "`proc_name`: too few args" or "`proc_name`: too many args" (the
/// environment is made all the same).
pub fn enter_call(
    envs: &mut Envs,
    base: usize,
    formals: &Vec<String>,
    proc_name: &str,
    args: &List,
    values: &Vec<Expr>,
) -> (r: Result<usize, EvalError>)
    requires
        old(envs).wf(),
        base < old(envs).frames().len(),
        args@.len() <= usize::MAX,
        forall|k: int|
            0 <= k < plan_from(formals_view(formals@), args@.len() as int, 0).0.len() ==> (
            #[trigger] plan_from(formals_view(formals@), args@.len() as int, 0).0[k] matches BindingView::One(_, i) ==> i
                < values@.len()),
    ensures
        final(envs).wf(),
        final(envs).frames() == old(envs).frames().push(
            FrameView {
                base: Some(base as int),
                vars: plan_vars(
                    plan_from(formals_view(formals@), args@.len() as int, 0).0,
                    args@,
                    values@.map_values(|v: Expr| v@),
                ),
                live: true,
            },
        ),
        match (r, plan_from(formals_view(formals@), args@.len() as int, 0).1) {
            (Ok(env), None) => env == old(envs).frames().len(),
            (Err(e), Some(a)) => e.message@ == proc_name@ + match a {
                ArityError::TooFew => ": too few args"@,
                ArityError::TooMany => ": too many args"@,
            } && e.span == None::<Span>,
            _ => false,
        },
{
    let n = args.len();
    let (plan, arity) = bind_args(formals, n);
    let ghost pv = plan_from(formals_view(formals@), n as int, 0).0;
    let ghost vals = values@.map_values(|v: Expr| v@);
    assert(plan@.map_values(|b: ArgBinding| b@) == pv);
    let frame = envs.derive(base);
    let ghost start = envs.frames();
    let mut i: usize = 0;
    while i < plan.len()
        invariant
            i <= plan@.len(),
            plan@.len() == pv.len(),
            plan@.map_values(|b: ArgBinding| b@) == pv,
            envs.wf(),
            frame < envs.frames().len(),
            frame == old(envs).frames().len(),
            envs.frames().len() == old(envs).frames().len() + 1,
            forall|k: int| 0 <= k < frame ==> envs.frames()[k] == old(envs).frames()[k],
            envs.frames()[frame as int] == (FrameView {
                base: Some(base as int),
                vars: plan_vars(pv.subrange(0, i as int), args@, vals),
                live: true,
            }),
            vals == values@.map_values(|v: Expr| v@),
            n == args@.len(),
            forall|k: int| 0 <= k < pv.len() ==> (#[trigger] pv[k] matches BindingView::One(_, j) ==> j < values@.len()),
        decreases plan@.len() - i,
    {
        assert(pv.subrange(0, i + 1).drop_last() =~= pv.subrange(0, i as int));
        assert(pv[i as int] == plan@[i as int]@);
        match &plan[i] {
            ArgBinding::One { name, index } => {
                assert(pv[i as int] matches BindingView::One(_, j) && j < values@.len());
                let v = values[*index].clone();
                envs.define(frame, name.as_str(), v);
            },
            ArgBinding::Rest { name, from } => {
                let rest = rest_of(args, *from);
                assert(*from > args@.len() ==> rest@ =~= Seq::<ExprView>::empty());
                envs.define(frame, name.as_str(), Expr::List(rest, None));
            },
        }
        i = i + 1;
    }
    assert(pv.subrange(0, pv.len() as int) =~= pv);
    assert(envs.frames() =~= old(envs).frames().push(
        FrameView { base: Some(base as int), vars: plan_vars(pv, args@, vals), live: true },
    ));
    match arity {
        Some(e) => Err(arity_error(proc_name, e)),
        None => Ok(frame),
    }
}

} // verus!

verus! {

/// The `i`-th expression of the body `body` of a procedure, and whether it is the
/// last one, which runs in tail position; `None` past the end. A closure evaluates
/// each in its own environment; a macro evaluates each in its environment and then
/// evaluates the expansion in the calling environment. An empty body gives the
/// empty list.
pub fn body_step(body: &List, i: usize) -> (r: Option<(Expr, bool)>)
    requires
        body@.len() <= usize::MAX,
    ensures
        i < body@.len() ==> (r matches Some((e, last)) && e@ == body@[i as int] && last == (i + 1
            == body@.len())),
        i >= body@.len() ==> r is None,
{
    match body.get(i) {
        Some(e) => {
            let last = match body.get(i + 1) {
                Some(_) => false,
                None => true,
            };
            Some((e.clone(), last))
        },
        None => None,
    }
}


/// What the body of a macro does next.
#[derive(Debug)]
pub enum MacroStep {
    /// Evaluate `expr`, a body expression, in the macro's environment `env`: its
    /// value is an expansion.
    Expand { expr: Expr, env: usize },
    /// Evaluate the expansion `expr` in the calling environment `env`, in tail
    /// position when `is_tail` (the expansion of the last body expression).
    Run { expr: Expr, env: usize, is_tail: bool },
    /// The body is done, with this value (the empty list: the body was empty).
    Done(Expr),
}

/// Decides the next step of the body `body` of a macro called from `caller_env`,
/// whose arguments are bound (unevaluated) in `macro_env`, at its `i`-th expression.
/// With no `expansion` yet, that expression is expanded in `macro_env`; past the
/// end the body is done with the empty list. With the `expansion` that the `i`-th
/// expression gave, the expansion is evaluated in `caller_env`, the last one in
/// tail position.
pub fn macro_step(body: &List, i: usize, expansion: Option<Expr>, macro_env: usize, caller_env: usize) -> (r: MacroStep)
    requires
        body@.len() <= usize::MAX,
    ensures
        match expansion {
            None => if i < body@.len() {
                r matches MacroStep::Expand { expr, env } && expr@ == body@[i as int] && env == macro_env
            } else {
                r matches MacroStep::Done(v) && v@ == ExprView::List(Seq::empty(), None)
            },
            Some(x) => r matches MacroStep::Run { expr, env, is_tail } && expr@ == x@ && env == caller_env
                && is_tail == (i + 1 >= body@.len()),
        },
{
    match expansion {
        None => match body.get(i) {
            Some(e) => MacroStep::Expand { expr: e.clone(), env: macro_env },
            None => MacroStep::Done(Expr::nil()),
        },
        Some(x) => {
            let is_tail = i >= body.len() || i + 1 >= body.len();
            MacroStep::Run { expr: x, env: caller_env, is_tail }
        },
    }
}

} // verus!

verus! {

/// A variadic formal argument is bound to the list of the actual arguments left:
/// when the `i`-th formal argument is the first variadic one, `*v`, and a call gives
/// at least `i` actual arguments `args`, the call's environment (see [`enter_call`])
/// binds `v` to the list of the arguments from the `i`-th on, unevaluated, which is
/// the empty list when exactly `i` are given, and the call reports no arity error.
pub proof fn lemma_variadic_binds_rest(
    formals: Seq<Seq<char>>,
    args: Seq<ExprView>,
    values: Seq<ExprView>,
    i: int,
)
    requires
        0 <= i < formals.len(),
        formals[i].len() > 1,
        formals[i][0] == '*',
        forall|k: int| 0 <= k < i ==> !(formals[k].len() > 1 && #[trigger] formals[k][0] == '*'),
        args.len() >= i,
    ensures
        plan_from(formals, args.len() as int, 0).1 is None,
        plan_vars(plan_from(formals, args.len() as int, 0).0, args, values).dom().contains(
            formals[i].subrange(1, formals[i].len() as int),
        ),
        plan_vars(plan_from(formals, args.len() as int, 0).0, args, values)[formals[i].subrange(
            1,
            formals[i].len() as int,
        )] == ExprView::List(args.subrange(i, args.len() as int), None),
{
    lemma_variadic_takes_rest(formals, args.len() as int, i);
    let plan = plan_from(formals, args.len() as int, 0).0;
    assert(plan.last() == plan[i]);
}

} // verus!
