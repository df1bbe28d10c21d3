use rusche::span::{Loc, Span};

#[test]
fn test_span_display() {
    let span = Span::new(Loc::new(0, 1), Loc::new(0, 2));
    assert_eq!(span.to_string(), "1:2");

    let span = Span::new(Loc::new(0, 1), Loc::new(0, 3));
    assert_eq!(span.to_string(), "1:2-3");

    let span = Span::new(Loc::new(0, 9), Loc::new(2, 3));
    assert_eq!(span.to_string(), "1:10-3:3");
}

#[test]
fn test_loc_offset_and_span_to() {
    let loc = Loc::new(3, 4);
    assert_eq!(loc.with_column_offset(2), Loc::new(3, 6));
    let span = loc.span_to(Loc::new(3, 9));
    assert_eq!(span.begin, Loc::new(3, 4));
    assert_eq!(span.end, Loc::new(3, 9));
    assert_eq!(span.to_string(), "4:5-9");
}
