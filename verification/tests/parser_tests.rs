use rusche::expr::{cons, intern, Expr, List};
use rusche::lexer::tokenize;
use rusche::number::Number;
use rusche::parser::{ParseError, Parser};
use rusche::span::{Loc, Span};
use rusche::token::Token;

fn loc() -> Loc {
    Loc::new(1, 1)
}

fn sp() -> Span {
    Span::new(Loc::new(1, 1), Loc::new(1, 2))
}

fn tnum(v: i32) -> Token {
    Token::Num(Number::from_i32(v), sp())
}

fn num(v: i32) -> Expr {
    Expr::from_i32(v)
}

fn lst(items: Vec<Expr>) -> Expr {
    Expr::from_vec(items)
}

#[test]
fn test_parser() {
    // (add 1 2)
    let mut parser = Parser::with_tokens(vec![
        Token::OpenParen(loc()),
        Token::Sym(String::from("add"), sp()),
        tnum(1),
        tnum(2),
        Token::CloseParen(loc()),
    ]);

    let parsed_expr = parser.parse().unwrap().unwrap();
    let expected_expr = lst(vec![intern("add"), num(1), num(2)]);
    assert_eq!(parsed_expr, expected_expr);
}

#[test]
fn test_parser_reset() {
    let mut parser = Parser::new();

    // add "(1" -- incomplete expression
    parser.add_tokens(vec![Token::OpenParen(loc()), tnum(1)]);

    // error on incomplete expression
    assert_eq!(parser.parse(), Err(ParseError::NeedMoreToken));

    // cannot recover from previous error
    assert_eq!(parser.parse(), Err(ParseError::NeedMoreToken));

    // reset tokens and contexts
    parser.reset();

    // verify that parser is reset
    assert_eq!(parser.parse(), Ok(None));
}

#[test]
fn test_parser_quote_atom() {
    // '1
    let mut parser = Parser::with_tokens(vec![Token::Quote(loc()), tnum(1)]);

    let parsed_expr = parser.parse().unwrap().unwrap();
    let expected_expr = lst(vec![intern("quote"), num(1)]);
    assert_eq!(parsed_expr, expected_expr);
}

#[test]
fn test_parser_quote_list() {
    // '((1) 2)
    let mut parser = Parser::with_tokens(vec![
        Token::Quote(loc()),
        Token::OpenParen(loc()),
        Token::OpenParen(loc()),
        tnum(1),
        Token::CloseParen(loc()),
        tnum(2),
        Token::CloseParen(loc()),
    ]);

    let parsed_expr = parser.parse().unwrap().unwrap();
    let expected_expr = lst(vec![intern("quote"), lst(vec![lst(vec![num(1)]), num(2)])]);
    assert_eq!(parsed_expr, expected_expr);
}

#[test]
fn test_parser_other_quotes() {
    let mut parser = Parser::new();

    // `1
    parser.add_tokens(vec![Token::Quasiquote(loc()), tnum(1)]);
    let parsed_expr = parser.parse().unwrap().unwrap();
    assert_eq!(parsed_expr, lst(vec![intern("quasiquote"), num(1)]));

    // ,1
    parser.add_tokens(vec![Token::Unquote(loc()), tnum(1)]);
    let parsed_expr = parser.parse().unwrap().unwrap();
    assert_eq!(parsed_expr, lst(vec![intern("unquote"), num(1)]));

    // ,@1
    parser.add_tokens(vec![Token::UnquoteSplicing(loc()), tnum(1)]);
    let parsed_expr = parser.parse().unwrap().unwrap();
    assert_eq!(parsed_expr, lst(vec![intern("unquote-splicing"), num(1)]));
}

#[test]
fn test_parser_unexpected_close_paren() {
    let mut parser = Parser::with_tokens(vec![Token::CloseParen(loc())]);
    assert_eq!(parser.parse(), Err(ParseError::UnexpectedToken(Token::CloseParen(loc()))));
}

#[test]
fn test_parser_quote_before_close_paren() {
    // (')
    let mut parser = Parser::with_tokens(vec![
        Token::OpenParen(loc()),
        Token::Quote(loc()),
        Token::CloseParen(loc()),
    ]);
    assert_eq!(parser.parse(), Err(ParseError::UnexpectedToken(Token::CloseParen(loc()))));
}

#[test]
fn test_parser_incremental_and_spans() {
    let mut parser = Parser::new();
    parser.add_tokens(tokenize("(define x", Loc::default()).unwrap());
    assert_eq!(parser.parse(), Err(ParseError::NeedMoreToken));
    assert!(parser.is_parsing());

    let mut parser = Parser::new();
    parser.add_tokens(tokenize("(a (b)) c", Loc::default()).unwrap());
    let first = parser.parse().unwrap().unwrap();
    assert_eq!(first.to_string(), "(a (b))");
    assert_eq!(first.span(), Some(Span::new(Loc::new(0, 0), Loc::new(0, 7))));
    assert!(!parser.is_parsing());
    let second = parser.parse().unwrap().unwrap();
    assert_eq!(second, intern("c"));
    assert_eq!(second.span(), Some(Span::new(Loc::new(0, 8), Loc::new(0, 9))));
    assert_eq!(parser.parse(), Ok(None));
}

#[test]
fn test_parser_round_trip_of_printed_list() {
    let e = Expr::List(cons(intern("f"), cons(num(1), cons(Expr::from_str("s"), List::Nil))), None);
    let mut parser = Parser::with_tokens(tokenize(&e.to_string(), Loc::default()).unwrap());
    assert_eq!(parser.parse().unwrap().unwrap(), e);
    assert_eq!(parser.parse(), Ok(None));
}

#[test]
fn test_print_then_read_back() {
    let e = Expr::from_vec(vec![
        intern("define"),
        Expr::from_vec(vec![intern("f"), intern("x")]),
        Expr::from_str("a b"),
        Expr::Num(Number::new("-1.5".to_string()), None),
        Expr::from_vec(vec![]),
        Expr::from_vec(vec![intern("quote"), intern("-")]),
    ]);
    let text = e.to_string();
    assert_eq!(text, "(define (f x) \"a b\" -1.5 () (quote -))");
    let start = Loc::new(3, 4);
    let mut parser = Parser::with_tokens(tokenize(&text, start).unwrap());
    let read = parser.parse().unwrap().unwrap();
    assert_eq!(read, e);
    // the regions are those of the text, which stands on one line from `start`
    assert_eq!(read.span(), Some(Span::new(start, Loc::new(3, 4 + text.chars().count()))));
    assert_eq!(parser.parse(), Ok(None));
}
