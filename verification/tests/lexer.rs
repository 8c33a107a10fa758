use nexa::lexer::{Lexer, TokenKind};

#[test]
fn lexes_fn_main() {
    let src = r#"fn main() { print("hi"); }"#;
    let kinds: Vec<_> = Lexer::new(src)
        .tokenize()
        .unwrap()
        .into_iter()
        .map(|t| t.kind)
        .collect();
    assert!(matches!(kinds.first(), Some(TokenKind::Fn)));
    assert!(kinds.iter().any(|k| matches!(k, TokenKind::Ident(s) if s == "print")));
}
