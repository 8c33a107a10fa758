use nexa::errors::Span;
use nexa::lexer::{Lexer, Token, TokenKind};

fn kinds(src: &str) -> Vec<TokenKind> {
    Lexer::new(src)
        .tokenize()
        .unwrap()
        .into_iter()
        .map(|t| t.kind)
        .collect()
}

fn tokens(src: &str) -> Vec<Token> {
    Lexer::new(src).tokenize().unwrap()
}

fn lex_error(src: &str) -> String {
    Lexer::new(src).tokenize().unwrap_err()
}

#[test]
fn keywords_punctuation_and_literals() {
    assert_eq!(
        kinds("fn f(a: Int, b: String) -> Void { return 12 + x * 3 - y / 2; }"),
        vec![
            TokenKind::Fn,
            TokenKind::Ident("f".to_string()),
            TokenKind::LParen,
            TokenKind::Ident("a".to_string()),
            TokenKind::Colon,
            TokenKind::Int,
            TokenKind::Comma,
            TokenKind::Ident("b".to_string()),
            TokenKind::Colon,
            TokenKind::String,
            TokenKind::RParen,
            TokenKind::Arrow,
            TokenKind::Void,
            TokenKind::LBrace,
            TokenKind::Return,
            TokenKind::IntLit(12),
            TokenKind::Plus,
            TokenKind::Ident("x".to_string()),
            TokenKind::Star,
            TokenKind::IntLit(3),
            TokenKind::Minus,
            TokenKind::Ident("y".to_string()),
            TokenKind::Slash,
            TokenKind::IntLit(2),
            TokenKind::Semicolon,
            TokenKind::RBrace,
            TokenKind::Eof,
        ]
    );
}

#[test]
fn identifiers_may_contain_keywords_digits_and_underscores() {
    assert_eq!(
        kinds("fnx _a1 Integer returns"),
        vec![
            TokenKind::Ident("fnx".to_string()),
            TokenKind::Ident("_a1".to_string()),
            TokenKind::Ident("Integer".to_string()),
            TokenKind::Ident("returns".to_string()),
            TokenKind::Eof,
        ]
    );
}

#[test]
fn minus_without_arrow() {
    assert_eq!(
        kinds("a-b"),
        vec![
            TokenKind::Ident("a".to_string()),
            TokenKind::Minus,
            TokenKind::Ident("b".to_string()),
            TokenKind::Eof,
        ]
    );
}

#[test]
fn empty_and_blank_sources_give_only_eof() {
    assert_eq!(kinds(""), vec![TokenKind::Eof]);
    let ts = tokens(" \t\r\n\x0C ");
    assert_eq!(ts.len(), 1);
    assert_eq!(ts[0].kind, TokenKind::Eof);
    assert_eq!(ts[0].span, Span::new(6, 6));
}

#[test]
fn spans_are_byte_ranges() {
    let ts = tokens("fn main");
    assert_eq!(ts[0].span, Span::new(0, 2));
    assert_eq!(ts[1].span, Span::new(3, 7));
    assert_eq!(ts[2].span, Span::new(7, 7));
    let ts = tokens("\"é\" x ->");
    assert_eq!(ts[0].kind, TokenKind::StringLit("é".to_string()));
    assert_eq!(ts[0].span, Span::new(0, 4));
    assert_eq!(ts[1].span, Span::new(5, 6));
    assert_eq!(ts[2].kind, TokenKind::Arrow);
    assert_eq!(ts[2].span, Span::new(7, 9));
}

#[test]
fn string_escapes() {
    assert_eq!(
        kinds(r#""a\n\t\"\\b""#),
        vec![TokenKind::StringLit("a\n\t\"\\b".to_string()), TokenKind::Eof]
    );
}

#[test]
fn largest_integer_literal() {
    assert_eq!(
        kinds("9223372036854775807 007"),
        vec![TokenKind::IntLit(i64::MAX), TokenKind::IntLit(7), TokenKind::Eof]
    );
}

#[test]
fn integer_literal_overflow() {
    assert_eq!(
        lex_error("fn 9223372036854775808"),
        "invalid integer literal \"9223372036854775808\""
    );
}

#[test]
fn unterminated_string() {
    assert_eq!(lex_error("\"abc"), "unterminated string literal");
}

#[test]
fn unterminated_escape() {
    assert_eq!(lex_error("\"ab\\"), "unterminated escape in string");
}

#[test]
fn unknown_escape() {
    assert_eq!(lex_error("\"\\q\""), "unknown escape \\q");
}

#[test]
fn unexpected_character() {
    assert_eq!(lex_error("fn @"), "unexpected character '@' at byte 3");
    assert_eq!(lex_error("é"), "unexpected character 'é' at byte 0");
    assert_eq!(lex_error("\x0B"), "unexpected character '\\u{b}' at byte 0");
}

#[test]
fn first_error_wins() {
    assert_eq!(lex_error("# \"open"), "unexpected character '#' at byte 0");
}

#[test]
fn exactly_one_eof_at_the_end() {
    let ts = tokens("fn main() { print(\"x\"); }");
    assert!(matches!(ts.last().unwrap().kind, TokenKind::Eof));
    assert_eq!(
        ts.iter().filter(|t| matches!(t.kind, TokenKind::Eof)).count(),
        1
    );
    for w in ts.windows(2) {
        assert!(w[0].span.start <= w[0].span.end);
        assert!(w[0].span.end <= w[1].span.start);
    }
}

#[test]
fn debug_text_matches_debug_format() {
    let ks = vec![
        TokenKind::Fn,
        TokenKind::Ident("x\"y".to_string()),
        TokenKind::IntLit(-5),
        TokenKind::StringLit("a\nb".to_string()),
        TokenKind::Semicolon,
        TokenKind::Eof,
    ];
    for k in ks {
        assert_eq!(k.debug_text(), format!("{:?}", k));
        assert_eq!(k.duplicate(), k);
    }
}
