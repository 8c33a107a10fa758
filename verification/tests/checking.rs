use nexa::errors::{Diagnostics, Span};
use nexa::lexer::Lexer;
use nexa::parser::parse;
use nexa::types::{check_program, Ty};
use nexa::ast::TypeExpr;

fn check(src: &str) -> (bool, Vec<(String, Option<Span>)>) {
    let tokens = Lexer::new(src).tokenize().unwrap();
    let mut diags = Diagnostics::default();
    let p = parse(tokens, &mut diags).unwrap();
    let ok = check_program(&p, &mut diags);
    let out = diags.iter().iter().map(|d| (d.message.clone(), d.span)).collect();
    (ok, out)
}

fn one_error(src: &str) -> (String, Option<Span>) {
    let (ok, diags) = check(src);
    assert!(!ok);
    assert_eq!(diags.len(), 1);
    diags[0].clone()
}

#[test]
fn accepts_well_typed_program() {
    let (ok, diags) = check(
        "fn add(a: Int, b: Int) -> Int { return a + b * 2; } \
         fn greet(s: String) { print(s); } \
         fn main() { greet(\"x\"); print(\"y\"); }",
    );
    assert!(ok);
    assert!(diags.is_empty());
}

#[test]
fn type_from_type_expr() {
    assert_eq!(Ty::from(&TypeExpr::Int), Ty::Int);
    assert_eq!(Ty::from(&TypeExpr::String), Ty::String);
    assert_eq!(Ty::from(&TypeExpr::Void), Ty::Void);
}

#[test]
fn duplicate_function() {
    let (ok, diags) = check("fn f() {} fn f() {} fn main() {}");
    assert!(!ok);
    assert_eq!(
        diags,
        vec![
            ("duplicate function `f`".to_string(), Some(Span::new(10, 19))),
            ("previous definition here".to_string(), Some(Span::new(0, 9))),
        ]
    );
}

#[test]
fn missing_main() {
    assert_eq!(one_error("fn f() {}"), ("program must define `fn main()`".to_string(), None));
}

#[test]
fn main_with_parameters() {
    assert_eq!(
        one_error("fn main(x: Int) {}"),
        ("`main` must take no parameters (MVP)".to_string(), Some(Span::new(0, 18)))
    );
}

#[test]
fn main_returning_int() {
    assert_eq!(
        one_error("fn main() -> Int { return 1; }"),
        ("`main` must return Void (MVP)".to_string(), Some(Span::new(0, 30)))
    );
}

#[test]
fn unknown_variable() {
    assert_eq!(
        one_error("fn main() { print(x); }"),
        ("unknown variable `x`".to_string(), Some(Span::new(18, 19)))
    );
}

#[test]
fn binary_operands_must_be_int() {
    assert_eq!(
        one_error("fn main() { print(\"a\" + 1); }"),
        ("binary operator Add requires Int operands (got String and Int)".to_string(), Some(Span::new(18, 25)))
    );
}

#[test]
fn print_arity_and_type() {
    assert_eq!(
        one_error("fn main() { print(); }"),
        ("`print` expects 1 argument, got 0".to_string(), Some(Span::new(12, 19)))
    );
    assert_eq!(
        one_error("fn main() { print(1); }"),
        ("`print` expects String, got Int".to_string(), Some(Span::new(12, 20)))
    );
}

#[test]
fn unknown_function() {
    assert_eq!(
        one_error("fn main() { foo(); }"),
        ("unknown function `foo`".to_string(), Some(Span::new(12, 17)))
    );
}

#[test]
fn argument_count_and_types() {
    assert_eq!(
        one_error("fn f(a: Int) {} fn main() { f(); }").0,
        "function `f` expects 1 arguments, got 0"
    );
    assert_eq!(
        one_error("fn f(a: Int) {} fn main() { f(\"s\"); }").0,
        "argument type mismatch for `a`: expected Int, got String"
    );
}

#[test]
fn return_type_mismatch() {
    assert_eq!(
        one_error("fn f() -> Int { return \"s\"; } fn main() {}"),
        ("return type mismatch: expected Int, found String".to_string(), Some(Span::new(16, 27)))
    );
}

#[test]
fn expression_statement_must_be_void() {
    assert_eq!(
        one_error("fn main() { 1; }"),
        ("expression statement has type Int; only Void calls are allowed (MVP)".to_string(), Some(Span::new(12, 13)))
    );
}

#[test]
fn every_function_and_statement_is_checked() {
    let (ok, diags) = check("fn a() { 1; x; } fn main() { 2; }");
    assert!(!ok);
    let msgs: Vec<String> = diags.into_iter().map(|d| d.0).collect();
    assert_eq!(
        msgs,
        vec![
            "expression statement has type Int; only Void calls are allowed (MVP)".to_string(),
            "unknown variable `x`".to_string(),
            "expression statement has type Int; only Void calls are allowed (MVP)".to_string(),
        ]
    );
}

#[test]
fn later_parameter_shadows_earlier() {
    let (ok, _) = check("fn f(a: Int, a: String) { print(a); } fn main() {}");
    assert!(ok);
}
