use nexa::errors::Diagnostics;
use nexa::lexer::Lexer;
use nexa::parser::parse;
use nexa::types::check_program;
use nexa::vm::{Chunk, Op, Program, Step, Vm};

/// What a run printed, and its run-time error if it stopped on one.
fn run_program(program: Program) -> (Vec<String>, Option<String>) {
    let mut vm = Vm::new(program);
    vm.start();
    let mut out = Vec::new();
    loop {
        assert!(vm.can_step(), "the next step would overflow");
        match vm.step() {
            Ok(Step::Continue) => {}
            Ok(Step::Print(s)) => out.push(s),
            Ok(Step::Finished) => return (out, None),
            Err(d) => return (out, Some(d.message)),
        }
    }
}

fn run(src: &str) -> (Vec<String>, Option<String>) {
    let tokens = Lexer::new(src).tokenize().unwrap();
    let mut diags = Diagnostics::default();
    let ast = parse(tokens, &mut diags).unwrap();
    assert!(check_program(&ast, &mut diags));
    run_program(Program::from_ast(&ast).unwrap())
}

fn one_chunk(ops: Vec<Op>, strings: Vec<String>) -> Program {
    Program { chunks: vec![Chunk { ops, strings }], entry: 0, func_names: vec!["main".to_string()] }
}

#[test]
fn prints_hello() {
    assert_eq!(run("fn main() { print(\"Hello NEXA\"); }"), (vec!["Hello NEXA".to_string()], None));
}

#[test]
fn calls_and_returns_strings() {
    let src = "fn greet() -> String { return \"hi\"; } fn main() { print(greet()); print(\"bye\"); }";
    assert_eq!(run(src), (vec!["hi".to_string(), "bye".to_string()], None));
}

#[test]
fn passes_parameters() {
    let src = "fn echo(a: String, b: String) { print(b); print(a); } fn main() { echo(\"1\", \"2\"); }";
    assert_eq!(run(src), (vec!["2".to_string(), "1".to_string()], None));
}

#[test]
fn return_from_main_finishes() {
    let src = "fn main() { print(\"a\"); return print(\"c\"); print(\"b\"); }";
    assert_eq!(run(src), (vec!["a".to_string(), "c".to_string()], None));
}

#[test]
fn division_by_zero() {
    let (out, err) = run("fn f(x: Int) {} fn main() { f(1 / 0); }");
    assert!(out.is_empty());
    assert_eq!(err.as_deref(), Some("division by zero at runtime"));
}

#[test]
fn integer_arithmetic() {
    // -7 / 2 truncates toward zero; the result is checked through a hand-built program.
    let p = one_chunk(
        vec![Op::PushInt(-7), Op::PushInt(2), Op::DivI64, Op::BuiltinPrint],
        vec![],
    );
    assert_eq!(run_program(p), (vec![], Some("print expected string, got Int(-3)".to_string())));
    let p = one_chunk(
        vec![Op::PushInt(6), Op::PushInt(7), Op::MulI64, Op::PushInt(2), Op::SubI64, Op::PushInt(1), Op::AddI64, Op::BuiltinPrint],
        vec![],
    );
    assert_eq!(run_program(p), (vec![], Some("print expected string, got Int(41)".to_string())));
}

#[test]
fn print_expects_a_string() {
    let p = one_chunk(vec![Op::PushInt(1), Op::BuiltinPrint, Op::Halt], vec![]);
    assert_eq!(run_program(p), (vec![], Some("print expected string, got Int(1)".to_string())));
    let p = one_chunk(vec![Op::PushUnit, Op::BuiltinPrint, Op::Halt], vec![]);
    assert_eq!(run_program(p), (vec![], Some("print expected string, got Unit".to_string())));
}

#[test]
fn arithmetic_expects_ints() {
    let p = one_chunk(vec![Op::PushInt(1), Op::PushStr(0), Op::AddI64], vec!["a".to_string()]);
    assert_eq!(run_program(p), (vec![], Some("expected Int, got Str(\"a\")".to_string())));
}

#[test]
fn overflow_cannot_step() {
    let p = one_chunk(vec![Op::PushInt(i64::MAX), Op::PushInt(1), Op::AddI64], vec![]);
    let mut vm = Vm::new(p);
    vm.start();
    assert!(vm.can_step());
    assert!(matches!(vm.step(), Ok(Step::Continue)));
    assert!(vm.can_step());
    assert!(matches!(vm.step(), Ok(Step::Continue)));
    assert!(!vm.can_step());
}

#[test]
fn division_overflow_cannot_step() {
    let p = one_chunk(vec![Op::PushInt(i64::MIN), Op::PushInt(-1), Op::DivI64], vec![]);
    let mut vm = Vm::new(p);
    vm.start();
    vm.step().unwrap();
    vm.step().unwrap();
    assert!(!vm.can_step());
}

#[test]
fn instruction_pointer_out_of_bounds() {
    let p = one_chunk(vec![Op::PushUnit], vec![]);
    assert_eq!(
        run_program(p),
        (vec![], Some("instruction pointer out of bounds in function main".to_string()))
    );
    let p = Program { chunks: vec![Chunk { ops: vec![], strings: vec![] }], entry: 0, func_names: vec![] };
    assert_eq!(
        run_program(p),
        (vec![], Some("instruction pointer out of bounds in function ?".to_string()))
    );
}

#[test]
fn invalid_string_index() {
    let p = one_chunk(vec![Op::PushStr(3)], vec!["a".to_string()]);
    assert_eq!(run_program(p), (vec![], Some("invalid string constant index".to_string())));
}

#[test]
fn invalid_local_index() {
    let p = one_chunk(vec![Op::LoadParam(0)], vec![]);
    assert_eq!(run_program(p), (vec![], Some("invalid local index".to_string())));
}

#[test]
fn stack_underflow() {
    let p = one_chunk(vec![Op::BuiltinPrint], vec![]);
    assert_eq!(run_program(p), (vec![], Some("stack underflow".to_string())));
    let p = one_chunk(vec![Op::PushInt(1), Op::AddI64], vec![]);
    assert_eq!(run_program(p), (vec![], Some("stack underflow".to_string())));
}

#[test]
fn stack_underflow_at_call() {
    let p = one_chunk(vec![Op::PushInt(1), Op::Call { func: 0, argc: 2 }], vec![]);
    assert_eq!(run_program(p), (vec![], Some("stack underflow at call".to_string())));
}

#[test]
fn pop_on_empty_stack_is_harmless() {
    let p = one_chunk(vec![Op::Pop, Op::Halt], vec![]);
    assert_eq!(run_program(p), (vec![], None));
}

#[test]
fn no_frames_is_finished() {
    let mut vm = Vm::new(one_chunk(vec![Op::Halt], vec![]));
    assert!(vm.can_step());
    assert!(matches!(vm.step(), Ok(Step::Finished)));
}

#[test]
fn halt_finishes() {
    let p = one_chunk(vec![Op::Halt, Op::PushStr(9)], vec![]);
    assert_eq!(run_program(p), (vec![], None));
}

#[test]
fn ret_keeps_non_unit_values() {
    // f returns 5, main prints what is under it: the stack keeps the Int.
    let p = Program {
        chunks: vec![
            Chunk { ops: vec![Op::PushInt(5), Op::Ret], strings: vec![] },
            Chunk { ops: vec![Op::Call { func: 0, argc: 0 }, Op::BuiltinPrint], strings: vec![] },
        ],
        entry: 1,
        func_names: vec!["f".to_string(), "main".to_string()],
    };
    assert_eq!(run_program(p), (vec![], Some("print expected string, got Int(5)".to_string())));
}

#[test]
fn bad_function_index_cannot_step() {
    let p = Program { chunks: vec![], entry: 0, func_names: vec![] };
    let mut vm = Vm::new(p);
    vm.start();
    assert!(!vm.can_step());
}

#[test]
fn void_call_statement_keeps_pending_arguments() {
    let src = "fn g() { } fn h() -> String { g(); return \"ok\"; } \
               fn p(a: String, b: String) { print(a); print(b); } fn main() { p(\"x\", h()); }";
    assert_eq!(run(src), (vec!["x".to_string(), "ok".to_string()], None));
}

#[test]
fn ret_keeps_unit() {
    // f returns unit; main prints what is under it: the stack keeps the Unit.
    let p = Program {
        chunks: vec![
            Chunk { ops: vec![Op::PushUnit, Op::Ret], strings: vec![] },
            Chunk { ops: vec![Op::Call { func: 0, argc: 0 }, Op::BuiltinPrint], strings: vec![] },
        ],
        entry: 1,
        func_names: vec!["f".to_string(), "main".to_string()],
    };
    assert_eq!(run_program(p), (vec![], Some("print expected string, got Unit".to_string())));
}

#[test]
fn void_calls_in_sequence() {
    let src = "fn say(s: String) { print(s); } fn main() { say(\"a\"); say(\"b\"); print(\"c\"); }";
    assert_eq!(run(src), (vec!["a".to_string(), "b".to_string(), "c".to_string()], None));
}
