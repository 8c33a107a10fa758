use nexa::ast::{BinOp, Expr, Item, Program, Stmt, TypeExpr};
use nexa::errors::{Diagnostics, Span};
use nexa::lexer::{Lexer, TokenKind};
use nexa::parser::{parse, token_eq};

fn parse_src(src: &str) -> (Option<Program>, Diagnostics) {
    let tokens = Lexer::new(src).tokenize().unwrap();
    let mut diags = Diagnostics::default();
    let p = parse(tokens, &mut diags);
    (p, diags)
}

fn parse_error(src: &str) -> (String, Option<Span>) {
    let (p, diags) = parse_src(src);
    assert!(p.is_none());
    let all = diags.iter();
    assert_eq!(all.len(), 1);
    (all[0].message.clone(), all[0].span)
}

fn first_fn(p: &Program) -> &nexa::ast::FnDef {
    match &p.items[0] {
        Item::Fn(f) => f,
    }
}

#[test]
fn parses_hello() {
    let (p, diags) = parse_src("fn main() { print(\"Hello NEXA\"); }");
    assert!(diags.is_empty());
    let p = p.unwrap();
    assert_eq!(p.items.len(), 1);
    let f = first_fn(&p);
    assert_eq!(f.name, "main");
    assert!(f.params.is_empty());
    assert_eq!(f.ret_ty, None);
    assert_eq!(f.span, Span::new(0, 34));
    assert_eq!(f.body.span, Span::new(10, 34));
    assert_eq!(f.body.stmts.len(), 1);
    match &f.body.stmts[0] {
        Stmt::Expr(Expr::Call { callee, args, span }) => {
            assert_eq!(callee, "print");
            assert_eq!(*span, Span::new(12, 31));
            assert!(matches!(&args[0], Expr::StringLit(s, sp) if s == "Hello NEXA" && *sp == Span::new(18, 30)));
        }
        _ => panic!("expected a call statement"),
    }
}

#[test]
fn parses_params_return_type_and_precedence() {
    let (p, _) = parse_src("fn f(a: Int, b: String) -> Int { return 1 + 2 * 3 - a; }");
    let p = p.unwrap();
    let f = first_fn(&p);
    assert_eq!(f.params.len(), 2);
    assert_eq!(f.params[0].name, "a");
    assert_eq!(f.params[0].ty, TypeExpr::Int);
    assert_eq!(f.params[0].span, Span::new(5, 6));
    assert_eq!(f.params[1].name, "b");
    assert_eq!(f.params[1].ty, TypeExpr::String);
    assert_eq!(f.ret_ty, Some(TypeExpr::Int));
    match &f.body.stmts[0] {
        Stmt::Return { expr, span } => {
            assert_eq!(*span, Span::new(33, 54));
            // ((1 + (2 * 3)) - a)
            match expr {
                Expr::Binary { op: BinOp::Sub, lhs, rhs, span } => {
                    assert_eq!(*span, Span::new(40, 53));
                    assert!(matches!(&**rhs, Expr::Ident(n, _) if n == "a"));
                    match &**lhs {
                        Expr::Binary { op: BinOp::Add, lhs, rhs, .. } => {
                            assert!(matches!(&**lhs, Expr::IntLit(1, _)));
                            assert!(matches!(&**rhs, Expr::Binary { op: BinOp::Mul, .. }));
                        }
                        _ => panic!("expected an addition"),
                    }
                }
                _ => panic!("expected a subtraction"),
            }
        }
        _ => panic!("expected a return"),
    }
}

#[test]
fn parentheses_and_call_arguments() {
    let (p, _) = parse_src("fn main() { f((1 + 2) * 3, g(), \"s\"); }");
    let p = p.unwrap();
    match &first_fn(&p).body.stmts[0] {
        Stmt::Expr(Expr::Call { callee, args, .. }) => {
            assert_eq!(callee, "f");
            assert_eq!(args.len(), 3);
            match &args[0] {
                Expr::Binary { op: BinOp::Mul, lhs, .. } => {
                    assert!(matches!(&**lhs, Expr::Binary { op: BinOp::Add, .. }));
                }
                _ => panic!("expected a product"),
            }
            assert!(matches!(&args[1], Expr::Call { callee, args, .. } if callee == "g" && args.is_empty()));
            assert_eq!(args[0].span(), Span::new(15, 25));
        }
        _ => panic!("expected a call"),
    }
}

#[test]
fn several_functions() {
    let (p, _) = parse_src("fn a() {} fn b() -> Void {} fn main() {}");
    let p = p.unwrap();
    assert_eq!(p.items.len(), 3);
}

#[test]
fn empty_program() {
    let (p, diags) = parse_src("");
    assert!(diags.is_empty());
    assert!(p.unwrap().items.is_empty());
}

#[test]
fn error_expected_fn() {
    assert_eq!(
        parse_error("main() {}"),
        ("expected `fn`, found Ident(\"main\")".to_string(), Some(Span::new(0, 4)))
    );
}

#[test]
fn error_expected_fn_at_end_of_tokens() {
    let mut diags = Diagnostics::default();
    assert!(parse(Vec::new(), &mut diags).is_none());
    let all = diags.iter();
    assert_eq!(all[0].message, "expected `fn`, found end of file");
    assert_eq!(all[0].span, None);
}

#[test]
fn error_expected_identifier() {
    assert_eq!(
        parse_error("fn () {}"),
        ("expected identifier, found LParen".to_string(), Some(Span::new(3, 4)))
    );
    assert_eq!(
        parse_error("fn main( {}"),
        ("expected identifier, found LBrace".to_string(), Some(Span::new(9, 10)))
    );
}

#[test]
fn error_expected_type() {
    assert_eq!(
        parse_error("fn main() -> Bool {}"),
        ("expected type Int, String, or Void, found Ident(\"Bool\")".to_string(), Some(Span::new(13, 17)))
    );
}

#[test]
fn error_unexpected_token_in_expression() {
    assert_eq!(
        parse_error("fn main() { 1 + ; }"),
        ("unexpected token in expression: Semicolon".to_string(), Some(Span::new(16, 17)))
    );
    assert_eq!(
        parse_error("fn main() { return"),
        ("unexpected token in expression: Eof".to_string(), Some(Span::new(18, 18)))
    );
}

#[test]
fn error_expected_token() {
    assert_eq!(
        parse_error("fn main() { print(\"x\") }"),
        ("expected Semicolon, found RBrace".to_string(), Some(Span::new(23, 24)))
    );
    assert_eq!(
        parse_error("fn main() {"),
        ("expected RBrace, found Eof".to_string(), Some(Span::new(11, 11)))
    );
    assert_eq!(
        parse_error("fn main(a Int) {}"),
        ("expected Colon, found Int".to_string(), Some(Span::new(10, 13)))
    );
}

#[test]
fn token_kinds_compare_by_variant_and_payload() {
    assert!(token_eq(&TokenKind::Fn, &TokenKind::Fn));
    assert!(!token_eq(&TokenKind::Fn, &TokenKind::Return));
    assert!(token_eq(&TokenKind::Ident("a".to_string()), &TokenKind::Ident("a".to_string())));
    assert!(!token_eq(&TokenKind::Ident("a".to_string()), &TokenKind::Ident("b".to_string())));
    assert!(!token_eq(&TokenKind::Ident("a".to_string()), &TokenKind::StringLit("a".to_string())));
    assert!(token_eq(&TokenKind::IntLit(3), &TokenKind::IntLit(3)));
    assert!(!token_eq(&TokenKind::IntLit(3), &TokenKind::IntLit(4)));
}
