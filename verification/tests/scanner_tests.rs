use rusche::number::Number;
use rusche::scanner::{ScanToken, Scanner, TokenError};
use rusche::span::Loc;

fn scanner(src: &str) -> Scanner {
    Scanner::new(src.chars().collect())
}

fn num(text: &str) -> ScanToken {
    ScanToken::Num(Loc::new(1, 0), Number::new(text.to_string()))
}

#[test]
fn scanner_test_read_string() {
    let loc = Loc::new(1, 0);
    for (source, expected) in [
        (r#""valid string""#, Ok(Some(ScanToken::Str(loc, "valid string".into())))),
        (r#""an escaped\" string""#, Ok(Some(ScanToken::Str(loc, String::from("an escaped\" string"))))),
        (r#""incomplete string"#, Err(TokenError::IncompleteString)),
    ] {
        let mut chars: Vec<char> = source.chars().collect();
        assert_eq!(chars.remove(0), '"');
        assert_eq!(Scanner::new(chars).read_string(), expected);
    }
}

#[test]
fn scanner_test_read_number() {
    for (source, negative, expected) in [("0", false, "0"), ("1", false, "1"), ("1.1", false, "1.1"), ("1", true, "-1")] {
        let mut chars: Vec<char> = source.chars().collect();
        let first = chars.remove(0);
        assert_eq!(Scanner::new(chars).read_number(first, negative), Ok(Some(num(expected))));
    }
}

#[test]
fn scanner_test_scanner_eof() {
    assert_eq!(scanner("").get_token(), Ok(None));
    assert_eq!(scanner("    ").get_token(), Ok(None));
    assert_eq!(scanner("   ; comment").get_token(), Ok(None));

    let mut s = scanner("");
    assert_eq!(s.get_token(), Ok(None));
    assert_eq!(s.get_token(), Ok(None));
    assert_eq!(s.get_token(), Ok(None));
}

#[test]
fn scanner_test_scanner_parans() {
    let mut s = scanner("()(())(()())");
    let opens = [true, false, true, true, false, false, true, true, false, true, false, false];
    for open in opens {
        let token = s.get_token().unwrap().unwrap();
        if open {
            assert_eq!(token, ScanToken::OpenParen(token.loc()));
        } else {
            assert_eq!(token, ScanToken::CloseParen(token.loc()));
        }
    }
    assert_eq!(s.get_token().unwrap(), None);
}

#[test]
fn scanner_test_scanner_all_tokens() {
    let all_tokens = r#"
            ; comment
            (add 1 2.34 (x y) "test" '(100 200 300))
            ; another comment
        "#;

    let mut s = scanner(all_tokens);
    let mut next = || s.get_token().unwrap().unwrap();
    let n = |t: &str| Number::new(t.to_string());

    let t = next();
    assert_eq!(t, ScanToken::OpenParen(t.loc()));
    let t = next();
    assert_eq!(t, ScanToken::Sym(t.loc(), "add".into()));
    let t = next();
    assert_eq!(t, ScanToken::Num(t.loc(), n("1")));
    let t = next();
    assert_eq!(t, ScanToken::Num(t.loc(), n("2.34")));
    let t = next();
    assert_eq!(t, ScanToken::OpenParen(t.loc()));
    let t = next();
    assert_eq!(t, ScanToken::Sym(t.loc(), "x".into()));
    let t = next();
    assert_eq!(t, ScanToken::Sym(t.loc(), "y".into()));
    let t = next();
    assert_eq!(t, ScanToken::CloseParen(t.loc()));
    let t = next();
    assert_eq!(t, ScanToken::Str(t.loc(), "test".into()));
    let t = next();
    assert_eq!(t, ScanToken::Quote(t.loc()));
    let t = next();
    assert_eq!(t, ScanToken::OpenParen(t.loc()));
    for v in ["100", "200", "300"] {
        let t = next();
        assert_eq!(t, ScanToken::Num(t.loc(), n(v)));
    }
    let t = next();
    assert_eq!(t, ScanToken::CloseParen(t.loc()));
    let t = next();
    assert_eq!(t, ScanToken::CloseParen(t.loc()));
    drop(next);
    assert_eq!(s.get_token().unwrap(), None);
}

#[test]
fn test_scanner_locations_and_forms() {
    let mut s = scanner("(a ,@b -2 .5 -x 3y)\n;c\n.");
    assert_eq!(s.get_token(), Ok(Some(ScanToken::OpenParen(Loc::new(1, 1)))));
    assert_eq!(s.get_token(), Ok(Some(ScanToken::Sym(Loc::new(1, 2), "a".into()))));
    assert_eq!(s.get_token(), Ok(Some(ScanToken::UnquoteSplicing(Loc::new(1, 5)))));
    assert_eq!(s.get_token(), Ok(Some(ScanToken::Sym(Loc::new(1, 6), "b".into()))));
    assert_eq!(s.get_token(), Ok(Some(ScanToken::Num(Loc::new(1, 9), Number::new("-2".into())))));
    assert_eq!(s.get_token(), Ok(Some(ScanToken::Num(Loc::new(1, 11), Number::new(".5".into())))));
    assert_eq!(s.get_token(), Ok(Some(ScanToken::Sym(Loc::new(1, 14), "-x".into()))));
    // a number ends at the first character that cannot continue it
    assert_eq!(s.get_token(), Ok(Some(ScanToken::Num(Loc::new(1, 17), Number::new("3".into())))));
    assert_eq!(s.get_token(), Ok(Some(ScanToken::Sym(Loc::new(1, 18), "y".into()))));
    assert_eq!(s.get_token(), Ok(Some(ScanToken::CloseParen(Loc::new(1, 19)))));
    // a point alone is not a number
    assert_eq!(s.get_token(), Err(TokenError::InvalidNumber));
    assert_eq!(TokenError::InvalidNumber.to_string(), "Invalid number");
    assert_eq!(TokenError::IncompleteString.to_string(), "Incomplete string");
}
