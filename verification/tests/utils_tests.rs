use rusche::builtin::primitive::{defmacro_form, define_form, lambda_form, set_form, DefineForm};
use rusche::builtin::quote::quote;
use rusche::eval::EvalError;
use rusche::expr::{intern, Expr, List};
use rusche::span::{Loc, Span};
use rusche::utils::{get_2_or_3_args, get_exact_1_arg, get_exact_2_args, get_exact_3_args, make_formal_args};

fn num(v: i32) -> Expr {
    Expr::from_i32(v)
}

fn list(items: Vec<Expr>) -> List {
    List::from_vec(items)
}

fn lst(items: Vec<Expr>) -> Expr {
    Expr::from_vec(items)
}

fn err(message: &str) -> EvalError {
    EvalError::from_message(message.to_string())
}

#[test]
fn test_get_exact_1_arg() {
    let args = list(vec![num(1)]);
    let result = get_exact_1_arg("add", &args);
    assert_eq!(result, Ok(&num(1)));

    let args = list(vec![]);
    let result = get_exact_1_arg("add", &args);
    assert!(result.is_err());

    let args = list(vec![num(1), num(2)]);
    let result = get_exact_1_arg("add", &args);
    assert!(result.is_err());
}

#[test]
fn test_get_exact_2_args() {
    let args = list(vec![num(1), num(2)]);
    let result = get_exact_2_args("add", &args);
    assert_eq!(result, Ok((&num(1), &num(2))));

    let args = list(vec![num(1)]);
    let result = get_exact_2_args("add", &args);
    assert!(result.is_err());

    let args = list(vec![num(1), num(2), num(3)]);
    let result = get_exact_2_args("add", &args);
    assert!(result.is_err());
}

#[test]
fn test_get_exact_3_args() {
    let args = list(vec![num(1), num(2), num(3)]);
    let result = get_exact_3_args("add", &args);
    assert_eq!(result, Ok((&num(1), &num(2), &num(3))));

    let args = list(vec![num(1), num(2)]);
    let result = get_exact_3_args("add", &args);
    assert!(result.is_err());

    let args = list(vec![num(1), num(2), num(3), num(4)]);
    let result = get_exact_3_args("add", &args);
    assert!(result.is_err());
}

#[test]
fn test_arg_error_messages() {
    assert_eq!(get_exact_1_arg("car", &list(vec![])), Err(err("car needs an argument.")));
    assert_eq!(
        get_exact_1_arg("car", &list(vec![num(1), num(2)])),
        Err(err("car expects only 1 argument."))
    );
    assert_eq!(get_exact_2_args("cons", &list(vec![num(1)])), Err(err("cons: requres two arguments")));
    assert_eq!(
        get_exact_2_args("cons", &list(vec![num(1), num(2), num(3)])),
        Err(err("cons: takes only two arguments"))
    );
    let args = list(vec![num(1), num(2)]);
    assert_eq!(get_2_or_3_args("slice", &args), Ok((&num(1), &num(2), None)));
    let args = list(vec![num(1), num(2), num(3)]);
    assert_eq!(get_2_or_3_args("slice", &args), Ok((&num(1), &num(2), Some(&num(3)))));
    assert!(get_2_or_3_args("slice", &list(vec![num(1)])).is_err());
    assert!(get_2_or_3_args("slice", &list(vec![num(1), num(2), num(3), num(4)])).is_err());
}

#[test]
fn test_make_formal_args() {
    let names = make_formal_args(&list(vec![intern("a"), intern("*b")])).unwrap();
    assert_eq!(names, vec!["a".to_string(), "*b".to_string()]);
    assert_eq!(make_formal_args(&list(vec![])).unwrap(), Vec::<String>::new());

    let span = Span::new(Loc::new(0, 3), Loc::new(0, 4));
    let bad = Expr::from_i32(7);
    let bad = match bad {
        Expr::Num(n, _) => Expr::Num(n, Some(span)),
        other => other,
    };
    let e = make_formal_args(&list(vec![intern("a"), bad, num(8)])).unwrap_err();
    assert_eq!(e.message, "7 is not a symbol.");
    assert_eq!(e.span, Some(span));
}

#[test]
fn test_define_forms() {
    match define_form("define", &list(vec![intern("x"), num(1), num(2)])).unwrap() {
        DefineForm::Variable { name, value } => {
            assert_eq!(name, "x");
            assert_eq!(value, num(1));
        }
        other => panic!("unexpected {:?}", other),
    }
    let args = list(vec![lst(vec![intern("f"), intern("a")]), intern("a"), num(3)]);
    match define_form("define", &args).unwrap() {
        DefineForm::Procedure { name, formal_args, body } => {
            assert_eq!(name, "f");
            assert_eq!(formal_args, vec!["a".to_string()]);
            assert_eq!(body, list(vec![intern("a"), num(3)]));
        }
        other => panic!("unexpected {:?}", other),
    }
    assert_eq!(
        define_form("define", &list(vec![intern("x")])).unwrap_err().message,
        "define: define expects a expression after symbol"
    );
    assert_eq!(
        define_form("define", &list(vec![lst(vec![num(1)])])).unwrap_err().message,
        "define: expects a symbol for a procedure name"
    );
    assert_eq!(
        define_form("define", &list(vec![num(1)])).unwrap_err(),
        err("define: invalid form -- expected a symbol or a list.")
    );
}

#[test]
fn test_defmacro_lambda_set_forms() {
    let m = defmacro_form("defmacro", &list(vec![intern("m"), lst(vec![intern("x")]), intern("x")])).unwrap();
    assert_eq!(m.name, "m");
    assert_eq!(m.formal_args, vec!["x".to_string()]);
    assert_eq!(m.body, list(vec![intern("x")]));

    let m = defmacro_form("defmacro", &list(vec![lst(vec![intern("m"), intern("y")]), num(1)])).unwrap();
    assert_eq!(m.name, "m");
    assert_eq!(m.formal_args, vec!["y".to_string()]);
    assert_eq!(m.body, list(vec![num(1)]));

    assert_eq!(
        defmacro_form("defmacro", &list(vec![intern("m")])).unwrap_err(),
        err("defmacro: expected a list of formal arguments after a macro name.")
    );
    assert_eq!(
        defmacro_form("defmacro", &list(vec![])).unwrap_err(),
        err("defmacro: invalid macro form -- expected a symbol or a list.")
    );

    let (formals, body) = lambda_form("lambda", &list(vec![lst(vec![intern("a")]), intern("a")])).unwrap();
    assert_eq!(formals, vec!["a".to_string()]);
    assert_eq!(body, list(vec![intern("a")]));
    assert_eq!(lambda_form("lambda", &list(vec![])), Err(err("lambda: expected a list of formal arguments.")));

    let args = list(vec![intern("v"), num(5)]);
    let (name, value) = set_form("set!", &args).unwrap();
    assert_eq!(name, "v");
    assert_eq!(value, &num(5));
    assert_eq!(
        set_form("set!", &list(vec![num(1), num(5)])),
        Err(err("set!: expects a symbol as the first argument"))
    );
}

#[test]
fn quote_test_quote() {
    // '(1 2) => (1 2)
    let result = quote("quote", &list(vec![lst(vec![num(1), num(2)])]));
    assert_eq!(result, Ok(lst(vec![num(1), num(2)])));
}

#[test]
fn test_quote_error() {
    // (quote 1 2) => error
    assert!(quote("quote", &list(vec![num(1), num(2)])).is_err());
}
