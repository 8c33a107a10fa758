use nexa::errors::{format_diagnostic, Diagnostic, Diagnostics, Span};

#[test]
fn span_constructors() {
    assert_eq!(Span::new(3, 7), Span { start: 3, end: 7 });
    assert_eq!(Span::point(5), Span { start: 5, end: 5 });
}

#[test]
fn cover_takes_lowest_start_and_highest_end() {
    let a = Span::new(4, 9);
    let b = Span::new(2, 6);
    assert_eq!(Span::cover(a, b), Span::new(2, 9));
    assert_eq!(Span::cover(b, a), Span::new(2, 9));
    assert_eq!(Span::cover(a, a), a);
    let c = Span::new(10, 12);
    assert_eq!(
        Span::cover(Span::cover(a, b), c),
        Span::cover(a, Span::cover(b, c))
    );
}

#[test]
fn diagnostics_grow_in_order() {
    let mut diags = Diagnostics::default();
    assert!(diags.is_empty());
    diags.error("first".to_string());
    diags.error_at(Span::new(1, 2), "second".to_string());
    diags.push(Diagnostic::spanned("third".to_string(), Span::point(0)));
    assert!(!diags.is_empty());
    let all = diags.iter();
    assert_eq!(all.len(), 3);
    assert_eq!(all[0].message, "first");
    assert_eq!(all[0].span, None);
    assert_eq!(all[1].message, "second");
    assert_eq!(all[1].span, Some(Span::new(1, 2)));
    assert_eq!(all[2].span, Some(Span::new(0, 0)));
    assert_eq!(diags.to_display_string(), "first\nsecond\nthird\n");
}

#[test]
fn format_without_span() {
    let d = Diagnostic::new("boom".to_string());
    assert_eq!(format_diagnostic("f.nxa", "fn main() {}", &d), "f.nxa: error: boom\n");
}

#[test]
fn format_with_span_shows_line_and_carets() {
    let src = "fn main() {\n  foo();\n}\n";
    let d = Diagnostic::spanned("boom".to_string(), Span::new(14, 17));
    assert_eq!(
        format_diagnostic("f.nxa", src, &d),
        "f.nxa:2:3: error: boom\n  foo();\n  ^^^\n"
    );
}

#[test]
fn format_empty_span_has_one_caret() {
    let src = "abc\ndef";
    let d = Diagnostic::spanned("here".to_string(), Span::point(5));
    assert_eq!(format_diagnostic("p", src, &d), "p:2:2: error: here\ndef\n ^\n");
}

#[test]
fn format_clips_carets_to_the_line() {
    let src = "fn main() {\n  foo();\n}\n";
    let d = Diagnostic::spanned("long".to_string(), Span::new(14, 100));
    assert_eq!(
        format_diagnostic("f.nxa", src, &d),
        "f.nxa:2:3: error: long\n  foo();\n  ^^^^^^\n"
    );
}

#[test]
fn format_span_past_end_falls_back() {
    let d = Diagnostic::spanned("late".to_string(), Span::new(50, 51));
    assert_eq!(format_diagnostic("f", "short", &d), "f: error: late\n");
}

#[test]
fn format_span_at_end_of_source() {
    let d = Diagnostic::spanned("eof".to_string(), Span::point(5));
    assert_eq!(format_diagnostic("f", "short", &d), "f:1:6: error: eof\nshort\n     \n");
}

#[test]
fn format_counts_columns_in_bytes() {
    // "é" takes two bytes, so `x` is at byte 3 and column 4.
    let src = "\"é\"x";
    let d = Diagnostic::spanned("x".to_string(), Span::new(4, 5));
    assert_eq!(format_diagnostic("f", src, &d), "f:1:5: error: x\n\"é\"x\n    ^\n");
}
