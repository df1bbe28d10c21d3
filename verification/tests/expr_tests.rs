use rusche::expr::{cons, intern, Expr, List};
use rusche::number::Number;

fn num(value: i32) -> Expr {
    Expr::from_i32(value)
}

fn list_expr(list: List) -> Expr {
    Expr::List(list, None)
}

#[test]
fn test_display_nil() {
    assert_eq!(Expr::nil().to_string(), "()");
}

#[test]
fn test_display_str() {
    assert_eq!(Expr::from_str("str").to_string(), "\"str\"");
}

#[test]
fn test_display_sym() {
    assert_eq!(intern("sym").to_string(), "sym");
}

/// A number as evaluation makes it from a value: held as the text `Display` prints.
fn num_value(value: f64) -> Expr {
    Expr::Num(Number::new(format!("{}", value)), None)
}

#[test]
fn test_display_num() {
    assert_eq!(num_value(0.0).to_string(), "0");
    assert_eq!(num_value(1.0).to_string(), "1");
    assert_eq!(num_value(1.2).to_string(), "1.2");
    assert_eq!(num_value(2.0).to_string(), "2");
}

#[test]
fn test_display_num_text() {
    assert_eq!(num(0).to_string(), "0");
    assert_eq!(num(1).to_string(), "1");
    assert_eq!(num(-12).to_string(), "-12");
    assert_eq!(Expr::Num(Number::new("1.2".to_string()), None).to_string(), "1.2");
}

#[test]
fn test_display_list_1() {
    let list = cons(num(0), List::Nil);
    assert_eq!(list.to_string(), "(0)");
}

#[test]
fn test_display_list_2() {
    let list = cons(num(0), cons(num(1), cons(num(2), List::Nil)));
    assert_eq!(list.to_string(), "(0 1 2)");
}

#[test]
fn test_display_list_3() {
    let list = cons(num(0), cons(Expr::from_str("str"), cons(intern("sym"), List::Nil)));
    assert_eq!(list.to_string(), r#"(0 "str" sym)"#);
}

#[test]
fn test_expr_from_list() {
    let inner = cons(num(1), cons(num(2), List::Nil));
    let list = cons(list_expr(inner), cons(num(3), cons(num(4), cons(intern("abc"), List::Nil))));
    assert_eq!(list_expr(list).to_string(), "((1 2) 3 4 abc)");
}

#[test]
fn test_expr_from_vec() {
    let v: Vec<Expr> = vec![num(1), num(2), list_expr(cons(num(3), cons(num(4), List::Nil)))];
    assert_eq!(Expr::from_vec(v).to_string(), "(1 2 (3 4))");
}

#[test]
fn test_expr_from_bool() {
    assert_eq!(Expr::from_bool(true), num(1));
    assert_eq!(Expr::from_bool(false), Expr::nil());
}

#[test]
fn test_list_nil() {
    assert_eq!(List::Nil.to_string(), "()");
}

#[test]
fn test_list_num() {
    assert_eq!(cons(num(1), List::Nil).to_string(), "(1)");
    assert_eq!(cons(num(1), cons(num(2), List::Nil)).to_string(), "(1 2)");
    let inner = list_expr(cons(num(3), cons(num(4), List::Nil)));
    assert_eq!(cons(num(1), cons(num(2), cons(inner, List::Nil))).to_string(), "(1 2 (3 4))");
}

#[test]
fn test_list_str() {
    assert_eq!(cons(Expr::from_str("str"), List::Nil).to_string(), "(\"str\")");
    assert_eq!(
        cons(Expr::from_str("str"), cons(Expr::from_str("str"), List::Nil)).to_string(),
        "(\"str\" \"str\")"
    );
}

#[test]
fn test_list_from_vec_len_get() {
    let list = List::from_vec(vec![num(5), intern("x"), Expr::from_str("s")]);
    assert_eq!(list.len(), 3);
    assert_eq!(list.get(0), Some(&num(5)));
    assert_eq!(list.get(1), Some(&intern("x")));
    assert_eq!(list.get(3), None);
    assert!(!list.is_nil());
    assert!(List::Nil.is_nil());
}

#[test]
fn test_expr_predicates() {
    assert!(Expr::nil().is_atom());
    assert!(Expr::nil().is_nil());
    assert!(!Expr::nil().is_truthy());
    assert!(num(0).is_truthy());
    let l = list_expr(cons(num(1), List::Nil));
    assert!(!l.is_atom());
    assert!(!l.is_nil());
    assert!(l.is_truthy());
}

#[test]
fn test_expr_equality() {
    assert_eq!(Expr::Num(Number::new("0".to_string()), None), Expr::Num(Number::new("-0".to_string()), None));
    assert_ne!(Expr::Num(Number::new("NaN".to_string()), None), Expr::Num(Number::new("NaN".to_string()), None));
    assert_ne!(intern("a"), Expr::from_str("a"));
    assert_eq!(
        list_expr(cons(num(1), cons(intern("a"), List::Nil))),
        list_expr(cons(num(1), cons(intern("a"), List::Nil)))
    );
    assert_ne!(list_expr(cons(num(1), List::Nil)), list_expr(cons(num(1), cons(num(2), List::Nil))));
}

#[test]
fn test_cons_cdar() {
    let list = cons(num(1), cons(num(2), List::Nil));
    match &list {
        List::Cons(c) => assert_eq!(c.cdar(), Some(&num(2))),
        List::Nil => panic!("a list of two"),
    }
    let single = cons(num(1), List::Nil);
    match &single {
        List::Cons(c) => assert_eq!(c.cdar(), None),
        List::Nil => panic!("a list of one"),
    }
}
