use rusche::env::{Envs, ROOT_ENV};
use rusche::expr::{ClosureKey, Expr, Handle, List};
use rusche::proc::{bind_args, get_variadic_args_name, ArgBinding, ArityError};

#[test]
fn test_get_variadic_args_name() {
    assert_eq!(get_variadic_args_name("args"), None);
    assert_eq!(get_variadic_args_name("*args"), Some("args"));
    assert_eq!(get_variadic_args_name("*a"), Some("a"));
    assert_eq!(get_variadic_args_name("*"), None);
}

fn names(v: &[&str]) -> Vec<String> {
    v.iter().map(|s| s.to_string()).collect()
}

#[test]
fn test_bind_args_exact() {
    let (plan, err) = bind_args(&names(&["a", "b"]), 2);
    assert!(err.is_none());
    assert_eq!(plan.len(), 2);
    assert!(matches!(&plan[0], ArgBinding::One { name, index: 0 } if name == "a"));
    assert!(matches!(&plan[1], ArgBinding::One { name, index: 1 } if name == "b"));
}

#[test]
fn test_bind_args_arity_errors() {
    let (_, err) = bind_args(&names(&["a", "b"]), 1);
    assert!(matches!(err, Some(ArityError::TooFew)));
    let (_, err) = bind_args(&names(&["a"]), 2);
    assert!(matches!(err, Some(ArityError::TooMany)));
}

#[test]
fn test_bind_args_variadic() {
    let (plan, err) = bind_args(&names(&["a", "*rest"]), 4);
    assert!(err.is_none());
    assert_eq!(plan.len(), 2);
    assert!(matches!(&plan[0], ArgBinding::One { name, index: 0 } if name == "a"));
    assert!(matches!(&plan[1], ArgBinding::Rest { name, from: 1 } if name == "rest"));
}

fn closure_expr(id: u64, name: Option<&str>, formals: &[&str], body: &[i32], env: usize) -> Expr {
    let body = List::from_vec(body.iter().map(|v| Expr::from_i32(*v)).collect()).to_string();
    let key = ClosureKey { name: name.map(|n| n.to_string()), formals: names(formals), body };
    Expr::Proc(Handle { id, label: format!("<closure {id}>"), env: Some(env), closure: Some(key) }, None)
}

#[test]
fn test_proc_eq() {
    let mut envs = Envs::new();
    let context = ROOT_ENV;

    let closure = closure_expr(0, Some("closure"), &["a", "b"], &[1, 2, 3], context);
    let closure_same = closure_expr(1, Some("closure"), &["a", "b"], &[1, 2, 3], context);
    assert_eq!(closure, closure_same);

    let closure_name_diff = closure_expr(2, None, &["a", "b"], &[1, 2, 3], context);
    assert_ne!(closure, closure_name_diff);

    let closure_args_diff = closure_expr(3, None, &["a", "b", "c"], &[1, 2, 3], context);
    assert_ne!(closure, closure_args_diff);

    let closure_body_diff = closure_expr(4, None, &["a", "b", "c"], &[1, 2, 3, 4], context);
    assert_ne!(closure, closure_body_diff);

    let derived = envs.derive(context);
    let closure_context_diff = closure_expr(5, None, &["a", "b", "c"], &[1, 2, 3, 4], derived);
    assert_ne!(closure, closure_context_diff);
}

#[test]
fn test_proc_eq_native_by_identity() {
    let native = |id: u64| Expr::Proc(Handle { id, label: "<proc/native:car>".into(), env: None, closure: None }, None);
    assert_eq!(native(7), native(7));
    assert_ne!(native(7), native(8));
    let closure = closure_expr(7, None, &[], &[], ROOT_ENV);
    assert_ne!(native(7), closure);
}
