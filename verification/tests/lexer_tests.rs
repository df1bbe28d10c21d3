use rusche::lexer::{tokenize, LexError, Lexer};
use rusche::number::Number;
use rusche::span::{Loc, Span};
use rusche::token::Token;

fn lexer(src: &str) -> Lexer {
    Lexer::new(src.chars().collect(), Loc::default())
}

fn num(text: &str) -> Number {
    Number::new(text.to_string())
}

#[test]
fn lexer_test_read_string() {
    let token = lexer(r#""valid string""#).get_token().unwrap().unwrap();
    assert_eq!(token, Token::Str(String::from("valid string"), token.span()));

    let token = lexer(r#""an escaped\" string""#).get_token().unwrap().unwrap();
    assert_eq!(token, Token::Str(String::from("an escaped\" string"), token.span()));

    assert_eq!(
        lexer(r#""incomplete string"#).get_token(),
        Err(LexError::IncompleteString(Span::new(Loc::new(0, 0), Loc::new(0, 18))))
    );
}

#[test]
fn lexer_test_read_number() {
    for (source, expected) in [("0", "0"), ("1", "1"), ("1.1", "1.1"), ("-1", "-1")] {
        let token = lexer(source).get_token().unwrap().unwrap();
        assert_eq!(token, Token::Num(num(expected), token.span()));
    }

    assert!(lexer("123xya").get_token().is_err());
}

#[test]
fn lexer_test_scanner_eof() {
    assert_eq!(lexer("").get_token(), Ok(None));
    assert_eq!(lexer("    ").get_token(), Ok(None));
    assert_eq!(lexer("   ; comment").get_token(), Ok(None));

    let mut l = lexer("");
    assert_eq!(l.get_token(), Ok(None));
    assert_eq!(l.get_token(), Ok(None));
    assert_eq!(l.get_token(), Ok(None));
}

#[test]
fn lexer_test_scanner_parans() {
    let mut l = lexer("()(())(()())");
    let loc = Loc::new(1, 1); // the location does not take part in the comparison
    let expected = [
        Token::OpenParen(loc),
        Token::CloseParen(loc),
        Token::OpenParen(loc),
        Token::OpenParen(loc),
        Token::CloseParen(loc),
        Token::CloseParen(loc),
        Token::OpenParen(loc),
        Token::OpenParen(loc),
        Token::CloseParen(loc),
        Token::OpenParen(loc),
        Token::CloseParen(loc),
        Token::CloseParen(loc),
    ];
    for e in expected {
        assert_eq!(l.get_token().unwrap().unwrap(), e);
    }
    assert_eq!(l.get_token().unwrap(), None);
}

#[test]
fn lexer_test_scanner_all_tokens() {
    let all_tokens = r#"
            ; comment
            (add 1 2.34 (x y) "test" '(100 200 300))
            ; another comment
        "#;

    let mut l = lexer(all_tokens);
    let loc = Loc::new(1, 1);
    let sp = Span::new(Loc::new(1, 1), Loc::new(1, 2));
    let expected = [
        Token::OpenParen(loc),
        Token::Sym("add".into(), sp),
        Token::Num(num("1"), sp),
        Token::Num(num("2.34"), sp),
        Token::OpenParen(loc),
        Token::Sym("x".into(), sp),
        Token::Sym("y".into(), sp),
        Token::CloseParen(loc),
        Token::Str("test".into(), sp),
        Token::Quote(loc),
        Token::OpenParen(loc),
        Token::Num(num("100"), sp),
        Token::Num(num("200"), sp),
        Token::Num(num("300"), sp),
        Token::CloseParen(loc),
        Token::CloseParen(loc),
    ];
    for e in expected {
        assert_eq!(l.get_token().unwrap().unwrap(), e);
    }
    assert_eq!(l.get_token().unwrap(), None);
}

#[test]
fn test_span_factorial() {
    let src = r#"
            (define (factorial n)
                (if (= n 0)
                    1
                    (* n (factorial (- n 1)))))
        "#;

    let mut l = lexer(src);
    let spans = [
        Span::new(Loc::new(1, 12), Loc::new(1, 13)), // (
        Span::new(Loc::new(1, 13), Loc::new(1, 19)), // define
        Span::new(Loc::new(1, 20), Loc::new(1, 21)), // (
        Span::new(Loc::new(1, 21), Loc::new(1, 30)), // factorial
        Span::new(Loc::new(1, 31), Loc::new(1, 32)), // n
        Span::new(Loc::new(1, 32), Loc::new(1, 33)), // )
        Span::new(Loc::new(2, 16), Loc::new(2, 17)), // (
        Span::new(Loc::new(2, 17), Loc::new(2, 19)), // if
        Span::new(Loc::new(2, 20), Loc::new(2, 21)), // (
        Span::new(Loc::new(2, 21), Loc::new(2, 22)), // =
        Span::new(Loc::new(2, 23), Loc::new(2, 24)), // n
        Span::new(Loc::new(2, 25), Loc::new(2, 26)), // 0
        Span::new(Loc::new(2, 26), Loc::new(2, 27)), // )
        Span::new(Loc::new(3, 20), Loc::new(3, 21)), // 1
    ];
    for span in spans {
        let token = l.get_token().unwrap().unwrap();
        assert_eq!(span, token.span());
    }
}

#[test]
fn test_span_define_test() {
    let mut l = lexer(r#"(define test "test")"#);
    let spans = [
        Span::new(Loc::new(0, 0), Loc::new(0, 1)),   // (
        Span::new(Loc::new(0, 1), Loc::new(0, 7)),   // define
        Span::new(Loc::new(0, 8), Loc::new(0, 12)),  // test
        Span::new(Loc::new(0, 13), Loc::new(0, 19)), // "test"
        Span::new(Loc::new(0, 19), Loc::new(0, 20)), // )
    ];
    for span in spans {
        let token = l.get_token().unwrap().unwrap();
        assert_eq!(span, token.span());
    }
    assert_eq!(l.get_token().unwrap(), None);
}

#[test]
fn test_lexer_quotes_and_signs() {
    let tokens = tokenize("'a `b ,c ,@d +5 -x - +", Loc::default()).unwrap();
    let sp = Span::new(Loc::new(0, 0), Loc::new(0, 1));
    let loc = Loc::new(0, 0);
    let expected = vec![
        Token::Quote(loc),
        Token::Sym("a".into(), sp),
        Token::Quasiquote(loc),
        Token::Sym("b".into(), sp),
        Token::Unquote(loc),
        Token::Sym("c".into(), sp),
        Token::UnquoteSplicing(loc),
        Token::Sym("d".into(), sp),
        Token::Num(num("5"), sp),
        Token::Sym("-x".into(), sp),
        Token::Sym("-".into(), sp),
        Token::Sym("+".into(), sp),
    ];
    assert_eq!(tokens, expected);
}

#[test]
fn test_lexer_escapes_and_errors() {
    let tokens = tokenize(r#""a\tb\nc\\d""#, Loc::default()).unwrap();
    assert_eq!(tokens.len(), 1);
    assert_eq!(tokens[0], Token::Str("a\tb\nc\\d".into(), tokens[0].span()));

    // a line end inside a string literal
    assert_eq!(
        tokenize("\"abc\ndef\"", Loc::default()),
        Err(LexError::IncompleteString(Span::new(Loc::new(0, 0), Loc::new(1, 0))))
    );

    // an invalid number literal: the span covers the whole word
    assert_eq!(
        tokenize("(1x2)", Loc::default()),
        Err(LexError::InvalidNumber(Span::new(Loc::new(0, 1), Loc::new(0, 4))))
    );
}

#[test]
fn test_lexer_number_forms() {
    for good in ["12", "1.", "1.5", "1e3", "1.5E-3", "007"] {
        let t = tokenize(good, Loc::default()).unwrap();
        assert_eq!(t, vec![Token::Num(num(good), t[0].span())]);
    }
    for bad in ["1e", "1.2.3", "1e+", "12abc"] {
        assert!(matches!(tokenize(bad, Loc::default()), Err(LexError::InvalidNumber(_))));
    }
}

#[test]
fn test_lexer_start_location_and_comment_lines() {
    let tokens = tokenize("; c\n  x", Loc::new(5, 3)).unwrap();
    assert_eq!(tokens.len(), 1);
    assert_eq!(tokens[0].span(), Span::new(Loc::new(6, 2), Loc::new(6, 3)));
}

fn shifted(o: Loc, l: Loc) -> Loc {
    if l.line == 0 {
        Loc::new(o.line, o.column + l.column)
    } else {
        Loc::new(o.line + l.line, l.column)
    }
}

#[test]
fn test_tokenize_shift() {
    let src = "(define x\n  \"s\" ;c\n 12)";
    let here = tokenize(src, Loc::default()).unwrap();
    let o = Loc::new(4, 7);
    let there = tokenize(src, o).unwrap();
    assert_eq!(here.len(), there.len());
    for (a, b) in here.iter().zip(there.iter()) {
        assert_eq!(a, b);
        let (sa, sb) = (a.span(), b.span());
        assert_eq!(sb.begin, shifted(o, sa.begin));
        assert_eq!(sb.end, shifted(o, sa.end));
    }
    assert_eq!(
        tokenize("\n\"abc", o),
        Err(LexError::IncompleteString(Span::new(Loc::new(5, 0), Loc::new(5, 4))))
    );
}

#[test]
fn test_token_spans_ordered() {
    let tokens = tokenize("(a ,@b\n\"x y\" 12) ; end", Loc::new(2, 3)).unwrap();
    for pair in tokens.windows(2) {
        let (s1, s2) = (pair[0].span(), pair[1].span());
        assert!((s1.begin.line, s1.begin.column) < (s1.end.line, s1.end.column));
        assert!((s1.end.line, s1.end.column) <= (s2.begin.line, s2.begin.column));
    }
}

fn reads(src: &str, loc: Loc, n: usize) -> Vec<Result<Option<Token>, LexError>> {
    let mut lexer = Lexer::new(src.chars().collect(), loc);
    (0..n).map(|_| lexer.get_token()).collect()
}

#[test]
fn test_reads_shift_before_an_error() {
    // the tokens read before the error move with the start location, and so does the error
    let src = "(a\n 1 \"b";
    let o = Loc::new(3, 5);
    let here = reads(src, Loc::default(), 5);
    let there = reads(src, o, 5);
    assert_eq!(here[0], Ok(Some(Token::OpenParen(Loc::new(0, 0)))));
    assert_eq!(there[0], Ok(Some(Token::OpenParen(Loc::new(3, 5)))));
    assert_eq!(there[1], Ok(Some(Token::Sym("a".into(), Span::new(Loc::new(3, 6), Loc::new(3, 7))))));
    assert_eq!(here[2], Ok(Some(Token::Num(num("1"), Span::new(Loc::new(1, 1), Loc::new(1, 2))))));
    assert_eq!(there[2], Ok(Some(Token::Num(num("1"), Span::new(Loc::new(4, 1), Loc::new(4, 2))))));
    assert_eq!(here[3], Err(LexError::IncompleteString(Span::new(Loc::new(1, 3), Loc::new(1, 5)))));
    assert_eq!(there[3], Err(LexError::IncompleteString(Span::new(Loc::new(4, 3), Loc::new(4, 5)))));
    assert_eq!(here[4], Ok(None));
    assert_eq!(there[4], Ok(None));
}

#[test]
fn test_tokenize_is_successive_reads() {
    let src = "(f 'x \"s\")";
    let tokens = tokenize(src, Loc::default()).unwrap();
    let got = reads(src, Loc::default(), tokens.len() + 2);
    for (i, token) in tokens.iter().enumerate() {
        assert_eq!(got[i], Ok(Some(token.clone())));
    }
    assert_eq!(got[tokens.len()], Ok(None));
    assert_eq!(got[tokens.len() + 1], Ok(None));

    let bad = "(g 12x 3";
    let got = reads(bad, Loc::default(), 3);
    assert!(matches!(got[0], Ok(Some(_))));
    assert!(matches!(got[1], Ok(Some(_))));
    assert_eq!(tokenize(bad, Loc::default()), got[2].clone().map(|_| vec![]));
    assert!(got[2].is_err());
}
