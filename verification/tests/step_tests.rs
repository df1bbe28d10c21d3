use rusche::env::{Envs, ROOT_ENV};
use rusche::expr::{ClosureKey, intern, Expr, Handle, List};
use rusche::lexer::tokenize;
use rusche::parser::Parser;
use rusche::span::Loc;
use rusche::step::{body_step, call_step, enter_call, eval_step, macro_step, CallStep, EvalStep, MacroStep};

fn read(src: &str) -> Expr {
    let mut parser = Parser::with_tokens(tokenize(src, Loc::default()).unwrap());
    parser.parse().unwrap().unwrap()
}

fn num(v: i32) -> Expr {
    Expr::from_i32(v)
}

fn proc_expr(id: u64) -> Expr {
    Expr::Proc(Handle { id, label: format!("<proc {id}>"), env: None, closure: None }, None)
}

#[test]
fn test_eval_step_kinds() {
    let mut envs = Envs::new();
    envs.define(ROOT_ENV, "x", num(5));

    assert!(matches!(eval_step(&envs, &read("x"), ROOT_ENV), EvalStep::Value(v) if v == num(5)));
    match eval_step(&envs, &read("y"), ROOT_ENV) {
        EvalStep::Error(e) => assert_eq!(e.message, "Undefined symbol: `y`"),
        other => panic!("{:?}", other),
    }
    assert!(matches!(eval_step(&envs, &read("\"s\""), ROOT_ENV), EvalStep::Value(v) if v == Expr::from_str("s")));
    assert!(matches!(eval_step(&envs, &read("()"), ROOT_ENV), EvalStep::Value(v) if v == Expr::nil()));
    match eval_step(&envs, &read("'(1 2)"), ROOT_ENV) {
        EvalStep::Value(v) => assert_eq!(v.to_string(), "(1 2)"),
        other => panic!("{:?}", other),
    }
    match eval_step(&envs, &read("(quote 1 2)"), ROOT_ENV) {
        EvalStep::Error(e) => {
            assert_eq!(e.message, "quote expects only 1 argument.");
            assert!(e.span.is_some());
        }
        other => panic!("{:?}", other),
    }
    assert!(matches!(eval_step(&envs, &read("`(a ,x)"), ROOT_ENV), EvalStep::Quasiquote { .. }));
    match eval_step(&envs, &read("(f 1 2)"), ROOT_ENV) {
        EvalStep::Apply { head, args } => {
            assert_eq!(head, intern("f"));
            assert_eq!(args.to_string(), "(1 2)");
        }
        other => panic!("{:?}", other),
    }
}

#[test]
fn test_call_step_tail_calls() {
    let head = intern("f");
    let args = List::from_vec(vec![num(1)]);
    assert!(matches!(call_step(&head, &proc_expr(7), args.clone(), 3, true, true), CallStep::TailCall { proc: 7, env: 3, .. }));
    assert!(matches!(call_step(&head, &proc_expr(7), args.clone(), 3, true, false), CallStep::Call { proc: 7, .. }));
    assert!(matches!(call_step(&head, &proc_expr(7), args.clone(), 3, false, true), CallStep::Call { proc: 7, .. }));
    match call_step(&head, &num(1), args, 3, false, false) {
        CallStep::Error(e) => assert_eq!(e.message, "`f` does not evaluate to a callable."),
        other => panic!("{:?}", other),
    }
}

fn names(v: &[&str]) -> Vec<String> {
    v.iter().map(|s| s.to_string()).collect()
}

#[test]
fn test_enter_call_binds() {
    let mut envs = Envs::new();
    let args = List::from_vec(vec![read("(+ 1 2)"), intern("b"), intern("c")]);
    let values = vec![num(3)];
    let frame = enter_call(&mut envs, ROOT_ENV, &names(&["a", "*rest"]), "f", &args, &values).unwrap();
    assert_eq!(frame, 1);
    assert_eq!(envs.lookup(frame, "a"), Some(num(3)));
    assert_eq!(envs.lookup(frame, "rest").unwrap().to_string(), "(b c)");
    assert_eq!(envs.lookup(ROOT_ENV, "a"), None);

    let e = enter_call(&mut envs, ROOT_ENV, &names(&["a", "b"]), "f", &args, &vec![num(1), num(2)]).unwrap_err();
    assert_eq!(e.message, "f: too many args");
    let e = enter_call(&mut envs, ROOT_ENV, &names(&["a", "b", "c", "d"]), "g", &args, &vec![num(1), num(2), num(3)])
        .unwrap_err();
    assert_eq!(e.message, "g: too few args");
}

#[test]
fn test_body_step() {
    let body = List::from_vec(vec![num(1), num(2)]);
    assert!(matches!(body_step(&body, 0), Some((e, false)) if e == num(1)));
    assert!(matches!(body_step(&body, 1), Some((e, true)) if e == num(2)));
    assert!(body_step(&body, 2).is_none());
    assert!(body_step(&List::Nil, 0).is_none());
}

fn closure(id: u64, env: usize) -> Expr {
    let key = ClosureKey { name: None, formals: vec![], body: format!("(body {id})") };
    Expr::Proc(Handle { id, label: format!("<closure {id}>"), env: Some(env), closure: Some(key) }, None)
}

#[test]
fn test_gc_keeps_base_chain_of_live_closure() {
    // (define (outer a) (define (inner b) (lambda (c) (+ a b c))) (inner 2))
    // (define f (outer 1)); collect; (f 3) still sees a and b.
    let mut envs = Envs::new();
    envs.define(ROOT_ENV, "outer", closure(0, ROOT_ENV));
    let outer_call = envs.derive(ROOT_ENV);
    envs.define(outer_call, "a", num(1));
    envs.define(outer_call, "inner", closure(1, outer_call));
    let inner_call = envs.derive(outer_call);
    envs.define(inner_call, "b", num(2));
    envs.define(ROOT_ENV, "f", closure(2, inner_call));

    assert_eq!(envs.count_unreachable(), 0);
    envs.collect();
    let f_call = envs.derive(inner_call);
    envs.define(f_call, "c", num(3));
    assert_eq!(envs.lookup(f_call, "a"), Some(num(1)));
    assert_eq!(envs.lookup(f_call, "b"), Some(num(2)));
    assert_eq!(envs.lookup(f_call, "c"), Some(num(3)));
}

#[test]
fn test_macro_step() {
    // (defmacro m (x) 1 x): expand 1 in the macro's environment 4, run it in the
    // caller's 2; then expand x and run its expansion in tail position.
    let body = List::from_vec(vec![num(1), intern("x")]);
    assert!(matches!(macro_step(&body, 0, None, 4, 2), MacroStep::Expand { expr, env: 4 } if expr == num(1)));
    assert!(matches!(macro_step(&body, 0, Some(num(1)), 4, 2),
        MacroStep::Run { expr, env: 2, is_tail: false } if expr == num(1)));
    assert!(matches!(macro_step(&body, 1, None, 4, 2), MacroStep::Expand { expr, env: 4 } if expr == intern("x")));
    assert!(matches!(macro_step(&body, 1, Some(num(7)), 4, 2),
        MacroStep::Run { expr, env: 2, is_tail: true } if expr == num(7)));
    assert!(matches!(macro_step(&List::Nil, 0, None, 4, 2), MacroStep::Done(v) if v == Expr::nil()));
}
