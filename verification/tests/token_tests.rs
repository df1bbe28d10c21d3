use rusche::number::Number;
use rusche::span::{Loc, Span};
use rusche::token::Token;

#[test]
fn test_span_fixed_len() {
    let cases = [
        (1, Token::OpenParen(Loc::new(1, 1))),
        (1, Token::CloseParen(Loc::new(1, 1))),
        (1, Token::Quote(Loc::new(1, 1))),
        (1, Token::Quasiquote(Loc::new(1, 1))),
        (1, Token::Unquote(Loc::new(1, 1))),
        (2, Token::UnquoteSplicing(Loc::new(1, 1))),
    ];
    for (length, token) in cases {
        let span = token.span();
        assert_eq!(span.begin.line, span.end.line);
        assert_eq!(length, span.end.column - span.begin.column);
    }
}

#[test]
fn test_display() {
    let loc = Loc::new(1, 1);
    let sp = Span::new(Loc::new(1, 1), Loc::new(1, 2));
    let num = |t: &str| Token::Num(Number::new(t.to_string()), sp);
    assert_eq!(Token::CloseParen(loc).to_string(), ")");
    assert_eq!(Token::Quote(loc).to_string(), "'");
    assert_eq!(Token::Quasiquote(loc).to_string(), "`");
    assert_eq!(Token::Unquote(loc).to_string(), ",");
    assert_eq!(Token::UnquoteSplicing(loc).to_string(), ",@");
    assert_eq!(num("0").to_string(), "0");
    assert_eq!(num("0.5").to_string(), "0.5");
    assert_eq!(num("1").to_string(), "1");
    assert_eq!(num("123.456").to_string(), "123.456");
    assert_eq!(Token::Str("str".to_string(), sp).to_string(), "\"str\"");
    assert_eq!(Token::Sym("sym".to_string(), sp).to_string(), "sym");
}
