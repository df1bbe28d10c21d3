use rusche::builtin::primitive::{car_of, cdr_of, cons_of};
use rusche::eval::{locate_error, not_callable, undefined_symbol, EvalError};
use rusche::eval_error::{EvalError as CodedError, EvalErrorCode};
use rusche::expr::{intern, Expr, Handle, List};
use rusche::lexer::tokenize;
use rusche::parser::Parser;
use rusche::span::{Loc, Span};
use rusche::utils::{into_foreign, into_num, into_str, make_syntax_error, type_error};

fn num(v: i32) -> Expr {
    Expr::from_i32(v)
}

fn read(src: &str) -> Expr {
    let mut parser = Parser::with_tokens(tokenize(src, Loc::default()).unwrap());
    parser.parse().unwrap().unwrap()
}

fn args_of(form: Expr) -> List {
    match form {
        Expr::List(List::Cons(c), _) => *c.cdr,
        _ => panic!("a form"),
    }
}

#[test]
fn test_error_text() {
    let e = EvalError { message: "boom".into(), span: Some(Span::new(Loc::new(0, 1), Loc::new(0, 3))) };
    assert_eq!(e.to_string(), "1:2-3: boom");
    assert_eq!(EvalError::from_message("plain".into()).to_string(), "plain");

    let c = CodedError { code: EvalErrorCode::TypeMismatch, message: "bad".into(), span: None };
    assert_eq!(c.to_string(), "bad");
    let d = CodedError { code: EvalErrorCode::TypeMismatch, message: "bad".into(), span: None };
    assert_eq!(c, d);
    let f = CodedError { code: EvalErrorCode::InvalidForm, message: "bad".into(), span: None };
    assert_ne!(c, f);
}

#[test]
fn test_evaluation_errors() {
    let sp = Some(Span::new(Loc::new(0, 0), Loc::new(0, 1)));
    let e = undefined_symbol("x", sp);
    assert_eq!(e.message, "Undefined symbol: `x`");
    assert_eq!(e.span, sp);

    let head = read("(f 1)");
    let e = not_callable(&head);
    assert_eq!(e.message, "`(f 1)` does not evaluate to a callable.");
    assert_eq!(e.span, Some(Span::new(Loc::new(0, 0), Loc::new(0, 5))));
}

#[test]
fn test_locate_error() {
    let form = read("(car 1 2)");
    let args = args_of(form.clone());
    assert_eq!(args.span(), Some(Span::new(Loc::new(0, 5), Loc::new(0, 8))));

    // an error without region takes the arguments' region
    let e = locate_error(EvalError::from_message("m".into()), &args, &form);
    assert_eq!(e.span, Some(Span::new(Loc::new(0, 5), Loc::new(0, 8))));

    // with no arguments, the form's region
    let form = read("(f)");
    let e = locate_error(EvalError::from_message("m".into()), &List::Nil, &form);
    assert_eq!(e.span, Some(Span::new(Loc::new(0, 0), Loc::new(0, 3))));

    // an error with a region keeps it
    let sp = Some(Span::new(Loc::new(4, 0), Loc::new(4, 1)));
    let e = locate_error(EvalError { message: "m".into(), span: sp }, &args, &form);
    assert_eq!(e.span, sp);
}

#[test]
fn test_list_last_and_span() {
    let list = List::from_vec(vec![num(1), num(2), num(3)]);
    assert_eq!(list.last(), Some(&num(3)));
    assert_eq!(List::Nil.last(), None);
    // elements without regions give none
    assert_eq!(list.span(), None);
    assert_eq!(List::Nil.span(), None);
}

#[test]
fn test_value_checks() {
    let arg = read("x");
    assert_eq!(into_str("f", &arg, Expr::from_str("s")), Ok("s".to_string()));
    let e = into_str("f", &arg, num(1)).unwrap_err();
    assert_eq!(e.message, "f: `x` does not evaluate to a string.");
    assert_eq!(e.span, Some(Span::new(Loc::new(0, 0), Loc::new(0, 1))));
    assert_eq!(into_num("f", &arg, num(7)).unwrap().text(), "7");
    assert_eq!(into_num("f", &arg, Expr::nil()).unwrap_err().message, "f: `x` does not evaluate to a number.");
    let h = Expr::Foreign(Handle { id: 3, label: "<foreign>".into(), env: None, closure: None });
    assert_eq!(into_foreign("f", &arg, h).unwrap().id, 3);
    assert_eq!(
        into_foreign("f", &arg, num(1)).unwrap_err().message,
        "f: `x` does not evaluate to a foreign object."
    );
    assert_eq!(type_error("g", &num(2), "a list").message, "g: `2` does not evaluate to a list.");
}

#[test]
fn test_syntax_error() {
    let e = make_syntax_error("quote", &List::from_vec(vec![num(1), intern("a")]));
    assert_eq!(e.message, "Ill-formed syntax: (quote 1 a)");
    assert_eq!(e.span, None);
}

#[test]
fn test_car_cdr_cons() {
    let arg = intern("l");
    let value = read("(1 2 3)");
    assert_eq!(car_of("car", &arg, &value), Ok(num(1)));
    assert_eq!(cdr_of("cdr", &arg, &value).unwrap().to_string(), "(2 3)");
    assert_eq!(car_of("car", &arg, &Expr::nil()).unwrap_err().message, "car: `l` does not evaluate to a list.");
    assert!(cdr_of("cdr", &arg, &num(1)).is_err());
    assert_eq!(cons_of("cons", &arg, num(0), value).unwrap().to_string(), "(0 1 2 3)");
    assert_eq!(cons_of("cons", &arg, num(0), Expr::nil()).unwrap().to_string(), "(0)");
    assert_eq!(cons_of("cons", &arg, num(0), num(1)).unwrap_err().message, "cons: `l` does not evaluate to a list.");
}

#[test]
fn test_handles() {
    let p = Expr::Proc(Handle { id: 1, label: "<proc/native:car>".into(), env: None, closure: None }, None);
    let q = Expr::Proc(Handle { id: 1, label: "<proc/native:car>".into(), env: None, closure: None }, None);
    let r = Expr::Proc(Handle { id: 2, label: "<proc/native:car>".into(), env: None, closure: None }, None);
    assert_eq!(p, q);
    assert_ne!(p, r);
    assert_eq!(p.to_string(), "<proc/native:car>");
    assert!(p.is_atom());
    let f = Expr::Foreign(Handle { id: 1, label: "<foreign: 0x1>".into(), env: None, closure: None });
    assert_ne!(f.clone(), f);
    assert_eq!(f.span(), None);
    assert_eq!(Expr::from_vec(vec![p, f]).to_string(), "(<proc/native:car> <foreign: 0x1>)");
}

#[test]
fn test_parse_resumes_across_additions() {
    let all = tokenize("(define (f x) (+ x 1)) f", Loc::default()).unwrap();
    let mut whole = Parser::with_tokens(all.clone());
    let expected = whole.parse().unwrap().unwrap();

    for split in 1..all.len() {
        let mut parser = Parser::new();
        parser.add_tokens(all[..split].to_vec());
        let first = parser.parse();
        if split < 12 {
            assert_eq!(first, Err(rusche::parser::ParseError::NeedMoreToken));
            parser.add_tokens(all[split..].to_vec());
            assert_eq!(parser.parse().unwrap().unwrap(), expected);
        } else {
            assert_eq!(first.unwrap().unwrap(), expected);
        }
    }
}
