use rusche::builtin::quote::{
    quasiquote_result, quasiquote_template, site_value_items, unquote_sites, QUOTE, UNQUOTE,
    UNQUOTE_SPLICING,
};
use rusche::eval::EvalError;
use rusche::expr::{intern, Expr, List};

fn num(v: i32) -> Expr {
    Expr::from_i32(v)
}

fn lst(items: Vec<Expr>) -> Expr {
    Expr::from_vec(items)
}

/// A stand-in for the evaluator, enough for these templates: numbers evaluate to
/// themselves, `(quote x)` to `x`, `(+ a b)` to the sum of two integers.
fn eval(e: &Expr) -> Result<Expr, EvalError> {
    match e {
        Expr::Num(..) => Ok(e.clone()),
        Expr::List(List::Cons(c), _) => match c.car.as_ref() {
            Expr::Sym(name, _) if name == "quote" => Ok(c.cdar().unwrap().clone()),
            Expr::Sym(name, _) if name == "+" => {
                let mut sum = 0;
                let mut cur = c.cdr.as_ref();
                while let List::Cons(d) = cur {
                    match d.car.as_ref() {
                        Expr::Num(n, _) => sum += n.text().parse::<i32>().unwrap(),
                        _ => return Err(EvalError::from_message("+: not a number".into())),
                    }
                    cur = d.cdr.as_ref();
                }
                Ok(num(sum))
            }
            _ => Err(EvalError::from_message("not callable".into())),
        },
        _ => Err(EvalError::from_message("undefined".into())),
    }
}

/// `(quasiquote ...)` driven as the evaluator drives it.
fn quasiquote(args: List) -> Result<Expr, EvalError> {
    let template = quasiquote_template("quasiquote", &args)?;
    let (sites, err) = unquote_sites(template);
    let mut values = Vec::new();
    for site in &sites {
        let value = eval(&site.expr)?;
        values.push(site_value_items(site, value)?);
    }
    if let Some(e) = err {
        return Err(e);
    }
    quasiquote_result("quasiquote", template, &values)
}

fn args(items: Vec<Expr>) -> List {
    List::from_vec(items)
}

#[test]
fn quote_test_quasiquote() {
    // `(0 1 2) => (0 1 2)
    let result = quasiquote(args(vec![lst(vec![num(0), num(1), num(2)])]));
    assert_eq!(result, Ok(lst(vec![num(0), num(1), num(2)])));
}

#[test]
fn test_quasiquote_error() {
    // `,@'(1 2) => error
    let result = quasiquote(args(vec![lst(vec![
        intern(UNQUOTE_SPLICING),
        lst(vec![intern(QUOTE), lst(vec![num(1), num(2)])]),
    ])]));
    assert!(result.is_err());
    assert_eq!(result.unwrap_err().message, "quasiquote: expects only 1 argument");

    // (quasiquote 1 2) => error
    assert!(quasiquote(args(vec![num(1), num(2)])).is_err());
}

#[test]
fn quote_test_quasiquote_unquote() {
    // `(0 ,(+ 1 2) 4) => (0 3 4)
    let result = quasiquote(args(vec![lst(vec![
        num(0),
        lst(vec![intern("unquote"), lst(vec![intern("+"), num(1), num(2)])]),
        num(4),
    ])]));
    assert_eq!(result, Ok(lst(vec![num(0), num(3), num(4)])));
}

#[test]
fn test_quasiquote_unquote_error() {
    // `(0 (unquote) 4) => error
    let result = quasiquote(args(vec![lst(vec![num(0), lst(vec![intern("unquote")]), num(4)])]));
    assert!(result.is_err());
    assert_eq!(result.unwrap_err().message, "unquote: missing argument");
}

#[test]
fn quote_test_quasiquote_unquote_splicing() {
    // `(0 ,@'(1 2 3) 4) => (0 1 2 3 4)
    let result = quasiquote(args(vec![lst(vec![
        num(0),
        lst(vec![
            intern(UNQUOTE_SPLICING),
            lst(vec![intern(QUOTE), lst(vec![num(1), num(2), num(3)])]),
        ]),
        num(4),
    ])]));
    assert_eq!(result, Ok(lst(vec![num(0), num(1), num(2), num(3), num(4)])));
}

#[test]
fn test_quasiquote_unquote_splicing_error() {
    // `(0 ,@1 2) => error
    let result = quasiquote(args(vec![lst(vec![
        num(0),
        lst(vec![intern(UNQUOTE_SPLICING), lst(vec![intern(QUOTE), num(1)])]),
        num(2),
    ])]));
    assert!(result.is_err());
    assert_eq!(
        result.unwrap_err().message,
        "unquote-splicing: `(quote 1)` does not evaluate to a list"
    );

    // `(0 (unquote-splicing) 2) => error
    let result = quasiquote(args(vec![lst(vec![num(0), lst(vec![intern(UNQUOTE_SPLICING)]), num(2)])]));
    assert!(result.is_err());
    assert_eq!(result.unwrap_err().message, "unquote-splicing: argument missing");
}

#[test]
fn test_quasiquote_nested_and_order() {
    // `((,1) () x ,(+ 2 3)) => ((1) () x 5)
    let template = lst(vec![
        lst(vec![lst(vec![intern(UNQUOTE), num(1)])]),
        Expr::nil(),
        intern("x"),
        lst(vec![intern(UNQUOTE), lst(vec![intern("+"), num(2), num(3)])]),
    ]);
    let (sites, err) = unquote_sites(&template);
    assert!(err.is_none());
    assert_eq!(sites.len(), 2);
    assert_eq!(sites[0].expr, num(1));
    assert!(!sites[1].splicing);
    let result = quasiquote(args(vec![template]));
    assert_eq!(result.unwrap().to_string(), "((1) () x 5)");
}

#[test]
fn test_quasiquote_sites_stop_at_error() {
    // `(,1 (unquote) ,2): the walk stops at the missing argument
    let template = lst(vec![
        lst(vec![intern(UNQUOTE), num(1)]),
        lst(vec![intern(UNQUOTE)]),
        lst(vec![intern(UNQUOTE), num(2)]),
    ]);
    let (sites, err) = unquote_sites(&template);
    assert_eq!(sites.len(), 1);
    assert_eq!(err.unwrap().message, "unquote: missing argument");
}
