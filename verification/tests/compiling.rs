use nexa::ast::{Block, Expr, FnDef, Item, Param, Program as Ast, Stmt, TypeExpr};
use nexa::compile::compile;
use nexa::errors::{Diagnostic, Diagnostics, Span};
use nexa::lexer::Lexer;
use nexa::parser::parse;
use nexa::vm::Program;

fn ast_of(src: &str) -> Ast {
    let tokens = Lexer::new(src).tokenize().unwrap();
    let mut diags = Diagnostics::default();
    parse(tokens, &mut diags).unwrap()
}

fn compiled(src: &str) -> Program {
    Program::from_ast(&ast_of(src)).unwrap()
}

fn codegen_error(src: &str) -> Diagnostic {
    compile(&ast_of(src)).unwrap_err()
}

fn ops(p: &Program, i: usize) -> String {
    format!("{:?}", p.chunks[i].ops)
}

#[test]
fn hello_bytecode() {
    let p = compiled("fn main() { print(\"Hello NEXA\"); }");
    assert_eq!(p.entry, 0);
    assert_eq!(p.func_names, vec!["main".to_string()]);
    assert_eq!(p.chunks.len(), 1);
    assert_eq!(ops(&p, 0), "[PushStr(0), BuiltinPrint, PushUnit, Pop, Halt]");
    assert_eq!(p.chunks[0].strings, vec!["Hello NEXA".to_string()]);
}

#[test]
fn entry_is_index_of_main() {
    let p = compiled("fn f() {} fn main() { f(); }");
    assert_eq!(p.entry, 1);
    assert_eq!(p.func_names, vec!["f".to_string(), "main".to_string()]);
    assert_eq!(ops(&p, 0), "[PushUnit, Ret]");
    assert_eq!(ops(&p, 1), "[Call { func: 0, argc: 0 }, Pop, Halt]");
}

#[test]
fn strings_are_interned_once() {
    let p = compiled("fn main() { print(\"a\"); print(\"b\"); print(\"a\"); }");
    assert_eq!(p.chunks[0].strings, vec!["a".to_string(), "b".to_string()]);
    assert_eq!(
        ops(&p, 0),
        "[PushStr(0), BuiltinPrint, PushUnit, Pop, \
         PushStr(1), BuiltinPrint, PushUnit, Pop, \
         PushStr(0), BuiltinPrint, PushUnit, Pop, Halt]"
    );
}

#[test]
fn arithmetic_and_params() {
    let p = compiled("fn add(a: Int, b: Int) -> Int { return a + b * 2 - 6 / 3; } fn main() {}");
    assert_eq!(
        ops(&p, 0),
        "[LoadParam(0), LoadParam(1), PushInt(2), MulI64, AddI64, \
         PushInt(6), PushInt(3), DivI64, SubI64, Ret]"
    );
}

#[test]
fn implicit_returns() {
    // A function ending in `return` gets nothing more.
    let p = compiled("fn f() -> Int { return 1; } fn main() {}");
    assert_eq!(ops(&p, 0), "[PushInt(1), Ret]");
    // A void function that does not end in `return` returns unit.
    let p = compiled("fn g() -> Void { 1; } fn main() {}");
    assert_eq!(ops(&p, 0), "[PushInt(1), Pop, PushUnit, Ret]");
    // A non-void function that does not end in `return` gets a bare `Ret`.
    let p = compiled("fn h() -> Int { 1; } fn main() {}");
    assert_eq!(ops(&p, 0), "[PushInt(1), Pop, Ret]");
    // `main` ends with `Halt`, even after a `return`.
    let p = compiled("fn main() { return 0; }");
    assert_eq!(ops(&p, 0), "[PushInt(0), Ret, Halt]");
}

#[test]
fn call_with_arguments() {
    let p = compiled("fn f(a: Int, s: String) {} fn main() { f(1, \"x\"); }");
    assert_eq!(ops(&p, 1), "[PushInt(1), PushStr(0), Call { func: 0, argc: 2 }, Pop, Halt]");
}

#[test]
fn duplicate_names_call_the_last() {
    let p = compiled("fn f() {} fn f() {} fn main() { f(); }");
    assert_eq!(ops(&p, 2), "[Call { func: 1, argc: 0 }, Pop, Halt]");
}

#[test]
fn missing_main_in_codegen() {
    let d = codegen_error("fn f() {}");
    assert_eq!(d.message, "missing `main` (should be caught earlier)");
    assert_eq!(d.span, None);
}

#[test]
fn unknown_local_in_codegen() {
    let d = codegen_error("fn main() { x; }");
    assert_eq!(d.message, "unknown local `x` in codegen");
    assert_eq!(d.span, Some(Span::new(12, 13)));
}

#[test]
fn unknown_function_in_codegen() {
    let d = codegen_error("fn main() { g(); }");
    assert_eq!(d.message, "unknown function `g` in codegen");
    assert_eq!(d.span, Some(Span::new(12, 15)));
}

#[test]
fn print_arity_in_codegen() {
    let d = codegen_error("fn main() { print(\"a\", \"b\"); }");
    assert_eq!(d.message, "print arity mismatch");
    assert_eq!(d.span, Some(Span::new(12, 27)));
}

#[test]
fn first_codegen_error_wins() {
    let d = codegen_error("fn f() { a; } fn main() { b; }");
    assert_eq!(d.message, "unknown local `a` in codegen");
}

fn many_params(n: usize) -> Ast {
    let params = (0..n)
        .map(|i| Param { name: format!("p{i}"), ty: TypeExpr::Int, span: Span::new(0, 0) })
        .collect();
    let f = FnDef {
        name: "f".to_string(),
        params,
        ret_ty: None,
        body: Block { stmts: vec![], span: Span::new(0, 0) },
        span: Span::new(0, 0),
    };
    let main = FnDef {
        name: "main".to_string(),
        params: vec![],
        ret_ty: None,
        body: Block { stmts: vec![], span: Span::new(0, 0) },
        span: Span::new(0, 0),
    };
    Ast { items: vec![Item::Fn(f), Item::Fn(main)] }
}

#[test]
fn too_many_parameters() {
    let d = compile(&many_params(257)).unwrap_err();
    assert_eq!(d.message, "too many parameters (MVP limit 256)");
    assert_eq!(d.span, None);
}

#[test]
fn parameter_limit_is_inclusive() {
    let p = compile(&many_params(256)).unwrap();
    assert_eq!(ops(&p, 0), "[PushUnit, Ret]");
}

#[test]
fn call_argc_saturates() {
    let args: Vec<Expr> = (0..300).map(|i| Expr::IntLit(i, Span::new(0, 0))).collect();
    let call = Expr::Call { callee: "main".to_string(), args, span: Span::new(0, 0) };
    let main = FnDef {
        name: "main".to_string(),
        params: vec![],
        ret_ty: None,
        body: Block { stmts: vec![Stmt::Expr(call)], span: Span::new(0, 0) },
        span: Span::new(0, 0),
    };
    let p = compile(&Ast { items: vec![Item::Fn(main)] }).unwrap();
    let text = ops(&p, 0);
    assert!(text.ends_with("Call { func: 0, argc: 255 }, Pop, Halt]"));
}

#[test]
fn entry_beyond_sixteen_bits() {
    let mut items = Vec::new();
    for i in 0..70000 {
        items.push(Item::Fn(FnDef {
            name: format!("f{i}"),
            params: vec![],
            ret_ty: None,
            body: Block { stmts: vec![], span: Span::new(0, 0) },
            span: Span::new(0, 0),
        }));
    }
    items.push(Item::Fn(FnDef {
        name: "main".to_string(),
        params: vec![],
        ret_ty: None,
        body: Block { stmts: vec![], span: Span::new(0, 0) },
        span: Span::new(0, 0),
    }));
    let p = compile(&Ast { items }).unwrap();
    assert_eq!(p.entry, 70000);
    assert_eq!(p.func_names[p.entry], "main");
}
