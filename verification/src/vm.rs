//! Stack VM and bytecode.

use vstd::prelude::*;

use crate::errors::{diag, Diagnostic, DiagnosticView};
use crate::text::{int_decimal, push_i64_decimal, push_str, str_debug, str_debug_text, string_of};

verus! {

#[derive(Clone, Debug, PartialEq)]
pub enum Value {
    Int(i64),
    Str(String),
    Unit,
}

/// The mathematical content of a [`Value`].
pub enum ValueView {
    Int(i64),
    Str(Seq<char>),
    Unit,
}

impl View for Value {
    type V = ValueView;

    open spec fn view(&self) -> ValueView {
        match self {
            Value::Int(n) => ValueView::Int(*n),
            Value::Str(s) => ValueView::Str(s@),
            Value::Unit => ValueView::Unit,
        }
    }
}

#[derive(Clone, Copy, Debug)]
pub enum Op {
    PushInt(i64),
    PushStr(usize),
    PushUnit,
    AddI64,
    SubI64,
    MulI64,
    DivI64,
    Pop,
    /// Load function parameter by index (0 = first param).
    LoadParam(u8),
    BuiltinPrint,
    Call { func: u16, argc: u8 },
    Ret,
    Halt,
}

/// The code of one function: its instructions and its string constants.
#[derive(Clone, Debug)]
pub struct Chunk {
    pub ops: Vec<Op>,
    pub strings: Vec<String>,
}

#[verifier::ext_equal]
pub struct ChunkView {
    pub ops: Seq<Op>,
    pub strings: Seq<Seq<char>>,
}

impl View for Chunk {
    type V = ChunkView;

    open spec fn view(&self) -> ChunkView {
        ChunkView { ops: self.ops@, strings: self.strings@.map_values(|s: String| s@) }
    }
}

impl Default for Chunk {
    fn default() -> (c: Chunk)
        ensures
            c@ == (ChunkView { ops: Seq::empty(), strings: Seq::empty() }),
    {
        let c = Chunk { ops: Vec::new(), strings: Vec::new() };
        assert(c@.strings =~= Seq::<Seq<char>>::empty());
        c
    }
}

/// A compiled program: one chunk per function.
#[derive(Clone, Debug)]
pub struct Program {
    pub chunks: Vec<Chunk>,
    /// Index of `main` in `chunks`.
    pub entry: usize,
    pub func_names: Vec<String>,
}

#[verifier::ext_equal]
pub struct BytecodeView {
    pub chunks: Seq<ChunkView>,
    pub entry: usize,
    pub func_names: Seq<Seq<char>>,
}

impl View for Program {
    type V = BytecodeView;

    open spec fn view(&self) -> BytecodeView {
        BytecodeView {
            chunks: self.chunks@.map_values(|c: Chunk| c@),
            entry: self.entry,
            func_names: self.func_names@.map_values(|s: String| s@),
        }
    }
}

} // verus!

verus! {

/// One activation of a function.
#[derive(Debug)]
struct Frame {
    func: usize,
    ip: usize,
    /// Slot for each parameter (params only).
    locals: Vec<Value>,
}

#[verifier::ext_equal]
pub struct FrameView {
    pub func: usize,
    pub ip: usize,
    pub locals: Seq<ValueView>,
}

impl View for Frame {
    type V = FrameView;

    closed spec fn view(&self) -> FrameView {
        FrameView { func: self.func, ip: self.ip, locals: values_view(self.locals@) }
    }
}

/// The views of a sequence of values.
pub open spec fn values_view(vs: Seq<Value>) -> Seq<ValueView> {
    vs.map_values(|v: Value| v@)
}

/// The state of the machine: operand stack, call frames and the program.
pub struct VmView {
    pub stack: Seq<ValueView>,
    pub frames: Seq<FrameView>,
    pub program: BytecodeView,
}

/// What one step of the machine asks of its driver.
pub enum Step {
    /// Nothing to do; step again.
    Continue,
    /// Print this line, then step again.
    Print(String),
    /// The program has finished.
    Finished,
}

pub enum StepView {
    Continue,
    Print(Seq<char>),
    Finished,
}

impl View for Step {
    type V = StepView;

    open spec fn view(&self) -> StepView {
        match self {
            Step::Continue => StepView::Continue,
            Step::Print(s) => StepView::Print(s@),
            Step::Finished => StepView::Finished,
        }
    }
}

/// A stack machine that runs a compiled program.
pub struct Vm {
    stack: Vec<Value>,
    frames: Vec<Frame>,
    program: Program,
}

impl View for Vm {
    type V = VmView;

    closed spec fn view(&self) -> VmView {
        VmView {
            stack: values_view(self.stack@),
            frames: self.frames@.map_values(|f: Frame| f@),
            program: self.program@,
        }
    }
}

/// The Debug rendering of a value.
pub open spec fn value_text(v: ValueView) -> Seq<char> {
    match v {
        ValueView::Int(n) => "Int("@ + int_decimal(n as int) + ")"@,
        ValueView::Str(s) => "Str("@ + str_debug_text(s) + ")"@,
        ValueView::Unit => "Unit"@,
    }
}

/// Rust's `/` on integers: the quotient rounded toward zero.
pub open spec fn trunc_div(a: int, b: int) -> int {
    if a == 0 {
        0
    } else if a > 0 && b > 0 {
        a / b
    } else if a < 0 && b < 0 {
        (a * -1) / (b * -1)
    } else if a < 0 {
        ((a * -1) / b) * -1
    } else {
        (a / (b * -1)) * -1
    }
}

/// The result of an integer operator, before the overflow check.
pub open spec fn arith(op: Op, a: int, b: int) -> int {
    match op {
        Op::AddI64 => a + b,
        Op::SubI64 => a - b,
        Op::MulI64 => a * b,
        _ => trunc_div(a, b),
    }
}

/// `s` with its top value popped: the popped value and the rest.
pub open spec fn pop_spec(s: Seq<ValueView>) -> (Option<ValueView>, Seq<ValueView>) {
    if s.len() == 0 {
        (None, s)
    } else {
        (Some(s.last()), s.drop_last())
    }
}

/// Pops an integer: the stack after the pop, and the integer or the error.
pub open spec fn pop_int_spec(s: Seq<ValueView>) -> (Seq<ValueView>, Result<i64, DiagnosticView>) {
    match pop_spec(s) {
        (None, rest) => (rest, Err(diag("stack underflow"@))),
        (Some(ValueView::Int(n)), rest) => (rest, Ok(n)),
        (Some(v), rest) => (rest, Err(diag("expected Int, got "@ + value_text(v)))),
    }
}

/// The operands of the binary operator at the top of the stack overflow no `i64` result.
pub open spec fn arith_defined(op: Op, s: Seq<ValueView>) -> bool {
    let (s1, b) = pop_int_spec(s);
    let (s2, a) = pop_int_spec(s1);
    match (a, b) {
        (Ok(a), Ok(b)) => (op is DivI64 && b == 0) || (i64::MIN <= arith(op, a as int, b as int)
            <= i64::MAX),
        _ => true,
    }
}

/// The machine can take its next step without a run-time panic: the current frame's function
/// exists, and an arithmetic instruction does not overflow.
pub open spec fn step_defined(s: VmView) -> bool {
    s.frames.len() > 0 ==> {
        let fr = s.frames.last();
        &&& fr.func < s.program.chunks.len()
        &&& fr.ip < s.program.chunks[fr.func as int].ops.len() ==> {
            let op = s.program.chunks[fr.func as int].ops[fr.ip as int];
            (op is AddI64 || op is SubI64 || op is MulI64 || op is DivI64) ==> arith_defined(op, s.stack)
        }
    }
}

/// The state with a new operand stack.
pub open spec fn with_stack(s: VmView, stack: Seq<ValueView>) -> VmView {
    VmView { stack, frames: s.frames, program: s.program }
}

/// The next state of the machine and what the step asks of its driver, or the run-time error.
pub open spec fn step_spec(s: VmView) -> (VmView, Result<StepView, DiagnosticView>) {
    if s.frames.len() == 0 {
        (s, Ok(StepView::Finished))
    } else {
        let fi = s.frames.len() - 1;
        let fr = s.frames[fi];
        let chunk = s.program.chunks[fr.func as int];
        if fr.ip >= chunk.ops.len() {
            let name = if fr.func < s.program.func_names.len() {
                s.program.func_names[fr.func as int]
            } else {
                "?"@
            };
            (s, Err(diag("instruction pointer out of bounds in function "@ + name)))
        } else {
            let s1 = VmView {
                stack: s.stack,
                frames: s.frames.update(fi, FrameView { func: fr.func, ip: (fr.ip + 1) as usize, locals: fr.locals }),
                program: s.program,
            };
            match chunk.ops[fr.ip as int] {
                Op::PushInt(n) => (with_stack(s1, s.stack.push(ValueView::Int(n))), Ok(StepView::Continue)),
                Op::PushUnit => (with_stack(s1, s.stack.push(ValueView::Unit)), Ok(StepView::Continue)),
                Op::PushStr(i) => if i < chunk.strings.len() {
                    (with_stack(s1, s.stack.push(ValueView::Str(chunk.strings[i as int]))), Ok(StepView::Continue))
                } else {
                    (s1, Err(diag("invalid string constant index"@)))
                },
                Op::Pop => (with_stack(s1, pop_spec(s.stack).1), Ok(StepView::Continue)),
                Op::LoadParam(i) => if (i as int) < fr.locals.len() {
                    (with_stack(s1, s.stack.push(fr.locals[i as int])), Ok(StepView::Continue))
                } else {
                    (s1, Err(diag("invalid local index"@)))
                },
                Op::BuiltinPrint => match pop_spec(s.stack) {
                    (None, _) => (s1, Err(diag("stack underflow"@))),
                    (Some(ValueView::Str(text)), rest) => (with_stack(s1, rest), Ok(StepView::Print(text))),
                    (Some(v), rest) => (with_stack(s1, rest), Err(diag("print expected string, got "@ + value_text(v)))),
                },
                Op::Call { func, argc } => if s.stack.len() < argc {
                    (s1, Err(diag("stack underflow at call"@)))
                } else {
                    let split = s.stack.len() - argc;
                    (
                        VmView {
                            stack: s.stack.take(split),
                            frames: s1.frames.push(FrameView { func: func as usize, ip: 0, locals: s.stack.skip(split) }),
                            program: s.program,
                        },
                        Ok(StepView::Continue),
                    )
                },
                Op::Ret => {
                    // The returned value, `Unit` included, stays on the stack for the caller,
                    // so the `Pop` after a call statement balances the call.
                    let frames = s1.frames.drop_last();
                    (
                        VmView { stack: s.stack, frames, program: s.program },
                        Ok(if frames.len() == 0 { StepView::Finished } else { StepView::Continue }),
                    )
                },
                Op::Halt => (s1, Ok(StepView::Finished)),
                op => {
                    let (s2, b) = pop_int_spec(s.stack);
                    match b {
                        Err(d) => (with_stack(s1, s2), Err(d)),
                        Ok(b) => {
                            let (s3, a) = pop_int_spec(s2);
                            match a {
                                Err(d) => (with_stack(s1, s3), Err(d)),
                                Ok(a) => if op is DivI64 && b == 0 {
                                    (with_stack(s1, s3), Err(diag("division by zero at runtime"@)))
                                } else {
                                    (
                                        with_stack(s1, s3.push(ValueView::Int(arith(op, a as int, b as int) as i64))),
                                        Ok(StepView::Continue),
                                    )
                                },
                            }
                        },
                    }
                },
            }
        }
    }
}

/// A copy of a value.
fn copy_value(v: &Value) -> (r: Value)
    ensures
        r@ == v@,
{
    match v {
        Value::Int(n) => Value::Int(*n),
        Value::Str(s) => Value::Str(s.clone()),
        Value::Unit => Value::Unit,
    }
}

/// The Debug rendering of a value.
fn value_debug(v: &Value) -> (r: String)
    ensures
        r@ == value_text(v@),
{
    match v {
        Value::Int(n) => {
            let mut r = string_of("Int(");
            push_i64_decimal(&mut r, *n);
            push_str(&mut r, ")");
            r
        },
        Value::Str(s) => {
            let mut r = string_of("Str(");
            let d = str_debug(s.as_str());
            push_str(&mut r, d.as_str());
            push_str(&mut r, ")");
            r
        },
        Value::Unit => string_of("Unit"),
    }
}

impl Vm {
    pub fn new(program: Program) -> (vm: Vm)
        ensures
            vm@ == (VmView { stack: Seq::empty(), frames: Seq::empty(), program: program@ }),
    {
        let vm = Vm { stack: Vec::new(), frames: Vec::new(), program };
        assert(vm@.stack =~= Seq::<ValueView>::empty());
        assert(vm@.frames =~= Seq::<FrameView>::empty());
        vm
    }

    /// Enters the program's entry function, with no arguments.
    pub fn start(&mut self)
        ensures
            final(self)@ == (VmView {
                stack: old(self)@.stack,
                frames: old(self)@.frames.push(FrameView { func: old(self)@.program.entry, ip: 0, locals: Seq::empty() }),
                program: old(self)@.program,
            }),
    {
        let f = Frame { func: self.program.entry, ip: 0, locals: Vec::new() };
        assert(f@.locals =~= Seq::<ValueView>::empty());
        self.frames.push(f);
        assert(self@.frames =~= old(self)@.frames.push(f@));
    }

    /// Whether the next step is free of run-time panics (see `step_defined`).
    pub fn can_step(&self) -> (b: bool)
        ensures
            b == step_defined(self@),
    {
        let n = self.frames.len();
        if n == 0 {
            return true;
        }
        let func = self.frames[n - 1].func;
        let ip = self.frames[n - 1].ip;
        proof {
            assert(self@.frames.last() == self.frames@[n - 1]@);
        }
        if func >= self.program.chunks.len() {
            return false;
        }
        let chunk = &self.program.chunks[func];
        proof {
            assert(self@.program.chunks[func as int] == chunk@);
        }
        if ip >= chunk.ops.len() {
            return true;
        }
        let op = chunk.ops[ip];
        match op {
            Op::AddI64 | Op::SubI64 | Op::MulI64 | Op::DivI64 => self.arith_ok(op),
            _ => true,
        }
    }

    /// Whether the binary operator `op` on the operands at the top of the stack has a result.
    fn arith_ok(&self, op: Op) -> (b: bool)
        requires
            op is AddI64 || op is SubI64 || op is MulI64 || op is DivI64,
        ensures
            b == arith_defined(op, self@.stack),
    {
        let n = self.stack.len();
        proof {
            assert(values_view(self.stack@).len() == n);
        }
        if n < 2 {
            return true;
        }
        let b = match &self.stack[n - 1] {
            Value::Int(b) => *b,
            _ => {
                return true;
            },
        };
        let a = match &self.stack[n - 2] {
            Value::Int(a) => *a,
            _ => {
                return true;
            },
        };
        proof {
            let s = self@.stack;
            assert(s.last() == self.stack@[n - 1]@);
            assert(s.drop_last().last() == self.stack@[n - 2]@);
        }
        match op {
            Op::AddI64 => a.checked_add(b).is_some(),
            Op::SubI64 => a.checked_sub(b).is_some(),
            Op::MulI64 => a.checked_mul(b).is_some(),
            _ => b == 0 || a.checked_div(b).is_some(),
        }
    }
}


impl Vm {
    /// Executes one instruction of the current frame and says what the driver should do next.
    #[verifier::rlimit(30)]
    pub fn step(&mut self) -> (r: Result<Step, Diagnostic>)
        requires
            step_defined(old(self)@),
        ensures
            final(self)@ == step_spec(old(self)@).0,
            match step_spec(old(self)@).1 {
                Ok(st) => r matches Ok(x) && x@ == st,
                Err(d) => r matches Err(x) && x@ == d,
            },
    {
        let ghost s0 = self@;
        let n = self.frames.len();
        if n == 0 {
            return Ok(Step::Finished);
        }
        let fi = n - 1;
        let func = self.frames[fi].func;
        let ip = self.frames[fi].ip;
        proof {
            assert(s0.frames[fi as int] == self.frames@[fi as int]@);
            assert(s0.program.chunks[func as int] == self.program.chunks@[func as int]@);
        }
        if ip >= self.program.chunks[func].ops.len() {
            let mut m = string_of("instruction pointer out of bounds in function ");
            if func < self.program.func_names.len() {
                push_str(&mut m, self.program.func_names[func].as_str());
            } else {
                push_str(&mut m, "?");
            }
            return Err(Diagnostic::new(m));
        }
        let op = self.program.chunks[func].ops[ip];
        self.set_ip(fi, ip + 1);
        let ghost s1 = self@;
        match op {
            Op::PushInt(v) => {
                self.stack.push(Value::Int(v));
                proof { assert(self@.stack =~= s0.stack.push(ValueView::Int(v))); }
                Ok(Step::Continue)
            },
            Op::PushUnit => {
                self.stack.push(Value::Unit);
                proof { assert(self@.stack =~= s0.stack.push(ValueView::Unit)); }
                Ok(Step::Continue)
            },
            Op::PushStr(i) => {
                if i < self.program.chunks[func].strings.len() {
                    let text = self.program.chunks[func].strings[i].clone();
                    self.stack.push(Value::Str(text));
                    proof { assert(self@.stack =~= s0.stack.push(ValueView::Str(s0.program.chunks[func as int].strings[i as int]))); }
                    Ok(Step::Continue)
                } else {
                    Err(Diagnostic::new(string_of("invalid string constant index")))
                }
            },
            Op::AddI64 | Op::SubI64 | Op::MulI64 => self.binop_i64(op),
            Op::DivI64 => {
                let b = match self.pop_int() {
                    Ok(b) => b,
                    Err(d) => {
                        return Err(d);
                    },
                };
                let a = match self.pop_int() {
                    Ok(a) => a,
                    Err(d) => {
                        return Err(d);
                    },
                };
                if b == 0 {
                    return Err(Diagnostic::new(string_of("division by zero at runtime")));
                }
                let q = match a.checked_div(b) {
                    Some(q) => q,
                    None => {
                        return Err(Diagnostic::new(string_of("division by zero at runtime")));
                    },
                };
                let ghost before = self@.stack;
                self.stack.push(Value::Int(q));
                proof { assert(self@.stack =~= before.push(ValueView::Int(q))); }
                Ok(Step::Continue)
            },
            Op::Pop => {
                self.stack.pop();
                proof { assert(self@.stack =~= pop_spec(s0.stack).1); }
                Ok(Step::Continue)
            },
            Op::LoadParam(i) => {
                let idx = i as usize;
                proof {
                    assert(self@.frames[fi as int] == self.frames@[fi as int]@);
                    assert(self@.frames[fi as int].locals == s0.frames[fi as int].locals);
                    assert(values_view(self.frames@[fi as int].locals@).len() == self.frames@[fi as int].locals@.len());
                }
                if idx < self.frames[fi].locals.len() {
                    let v = copy_value(&self.frames[fi].locals[idx]);
                    proof { assert(v@ == s0.frames[fi as int].locals[idx as int]); }
                    self.stack.push(v);
                    proof { assert(self@.stack =~= s0.stack.push(v@)); }
                    Ok(Step::Continue)
                } else {
                    Err(Diagnostic::new(string_of("invalid local index")))
                }
            },
            Op::BuiltinPrint => {
                let v = match self.stack.pop() {
                    Some(v) => v,
                    None => {
                        return Err(Diagnostic::new(string_of("stack underflow")));
                    },
                };
                proof { assert(self@.stack =~= s0.stack.drop_last()); }
                match v {
                    Value::Str(text) => Ok(Step::Print(text)),
                    other => {
                        let mut m = string_of("print expected string, got ");
                        let d = value_debug(&other);
                        push_str(&mut m, d.as_str());
                        Err(Diagnostic::new(m))
                    },
                }
            },
            Op::Call { func: callee, argc } => {
                let argc = argc as usize;
                if self.stack.len() < argc {
                    return Err(Diagnostic::new(string_of("stack underflow at call")));
                }
                let split = self.stack.len() - argc;
                let args = self.stack.split_off(split);
                let f = Frame { func: callee as usize, ip: 0, locals: args };
                self.frames.push(f);
                proof {
                    assert(self@.stack =~= s0.stack.take(split as int));
                    assert(f@.locals =~= s0.stack.skip(split as int));
                    assert(self@.frames =~= s1.frames.push(f@));
                }
                Ok(Step::Continue)
            },
            Op::Ret => {
                match self.frames.pop() {
                    Some(_finished) => {},
                    None => {
                        return Err(Diagnostic::new(string_of("return with no active frame")));
                    },
                }
                proof { assert(self@.frames =~= s1.frames.drop_last()); }
                if self.frames.len() == 0 {
                    return Ok(Step::Finished);
                }
                Ok(Step::Continue)
            },
            Op::Halt => Ok(Step::Finished),
        }
    }

    /// Sets the instruction pointer of frame `fi`.
    fn set_ip(&mut self, fi: usize, ip: usize)
        requires
            fi < old(self).frames@.len(),
        ensures
            final(self).stack == old(self).stack,
            final(self).program == old(self).program,
            final(self)@ == (VmView {
                stack: old(self)@.stack,
                frames: old(self)@.frames.update(fi as int, FrameView {
                    func: old(self)@.frames[fi as int].func,
                    ip,
                    locals: old(self)@.frames[fi as int].locals,
                }),
                program: old(self)@.program,
            }),
    {
        let ghost old_frames = self.frames@;
        let mut f = self.frames.remove(fi);
        f.ip = ip;
        self.frames.insert(fi, f);
        proof {
            assert(self.frames@ =~= old_frames.update(fi as int, f));
            assert(self@.frames =~= old(self)@.frames.update(fi as int, f@));
        }
    }

    /// Pops an integer operand.
    fn pop_int(&mut self) -> (r: Result<i64, Diagnostic>)
        ensures
            final(self)@ == with_stack(old(self)@, pop_int_spec(old(self)@.stack).0),
            match pop_int_spec(old(self)@.stack).1 {
                Ok(n) => r == Ok::<i64, Diagnostic>(n),
                Err(d) => r matches Err(x) && x@ == d,
            },
    {
        let ghost s = self@.stack;
        let r = match self.stack.pop() {
            Some(Value::Int(n)) => Ok(n),
            Some(other) => {
                let mut m = string_of("expected Int, got ");
                let d = value_debug(&other);
                push_str(&mut m, d.as_str());
                Err(Diagnostic::new(m))
            },
            None => Err(Diagnostic::new(string_of("stack underflow"))),
        };
        proof {
            assert(self@.stack =~= pop_spec(s).1);
        }
        r
    }

    /// Pops `b`, then `a`, and pushes `a op b` for an addition, subtraction or multiplication.
    fn binop_i64(&mut self, op: Op) -> (r: Result<Step, Diagnostic>)
        requires
            op is AddI64 || op is SubI64 || op is MulI64,
            arith_defined(op, old(self)@.stack),
        ensures
            ({
                let s = old(self)@;
                let (s2, b) = pop_int_spec(s.stack);
                match b {
                    Err(d) => final(self)@ == with_stack(s, s2) && (r matches Err(x) && x@ == d),
                    Ok(b) => {
                        let (s3, a) = pop_int_spec(s2);
                        match a {
                            Err(d) => final(self)@ == with_stack(s, s3) && (r matches Err(x) && x@ == d),
                            Ok(a) => final(self)@ == with_stack(s, s3.push(ValueView::Int(arith(op, a as int, b as int) as i64)))
                                && (r matches Ok(x) && x@ == StepView::Continue),
                        }
                    },
                }
            }),
    {
        let b = match self.pop_int() {
            Ok(b) => b,
            Err(d) => {
                return Err(d);
            },
        };
        let a = match self.pop_int() {
            Ok(a) => a,
            Err(d) => {
                return Err(d);
            },
        };
        let v = match op {
            Op::AddI64 => a + b,
            Op::SubI64 => a - b,
            _ => a * b,
        };
        let ghost before = self@.stack;
        self.stack.push(Value::Int(v));
        proof {
            assert(self@.stack =~= before.push(ValueView::Int(v)));
        }
        Ok(Step::Continue)
    }
}

impl Program {
    /// Lowers a syntax tree to bytecode (see `compile`).
    pub fn from_ast(program: &crate::ast::Program) -> (r: Result<Program, Diagnostic>)
        ensures
            match crate::compile::compile_spec(program@) {
                Ok(b) => r matches Ok(p) && p@ == b,
                Err(d) => r matches Err(x) && x@ == d,
            },
    {
        crate::compile::compile(program)
    }
}

/// The `Call` instructions among `ops` name function indices below `n`.
pub open spec fn calls_below(ops: Seq<Op>, n: int) -> bool {
    forall|k: int|
        #![trigger ops[k]]
        0 <= k < ops.len() ==> (ops[k] matches Op::Call { func, .. } ==> (func as int) < n)
}

/// Every `Call` of the program names one of its functions.
pub open spec fn calls_in_range(b: BytecodeView) -> bool {
    forall|f: int| 0 <= f < b.chunks.len() ==> calls_below(#[trigger] b.chunks[f].ops, b.chunks.len() as int)
}

/// Every frame of the machine runs one of the program's functions.
pub open spec fn frames_in_range(s: VmView) -> bool {
    forall|i: int| 0 <= i < s.frames.len() ==> (#[trigger] s.frames[i]).func < s.program.chunks.len()
}

/// The arithmetic instruction about to run, if any, has an `i64` result.
pub open spec fn arith_defined_at(s: VmView) -> bool {
    s.frames.len() > 0 ==> {
        let fr = s.frames.last();
        fr.ip < s.program.chunks[fr.func as int].ops.len() ==> {
            let op = s.program.chunks[fr.func as int].ops[fr.ip as int];
            (op is AddI64 || op is SubI64 || op is MulI64 || op is DivI64) ==> arith_defined(op, s.stack)
        }
    }
}

/// The machine of `Vm::new` on `b` after `Vm::start`: one frame, in the entry function.
pub open spec fn started(b: BytecodeView) -> VmView {
    VmView {
        stack: Seq::empty(),
        frames: seq![FrameView { func: b.entry, ip: 0, locals: Seq::empty() }],
        program: b,
    }
}

/// The lines printed by at most `fuel` steps from `s`, and how the run ended: `None` when the
/// fuel ran out, `Some(Ok(()))` when the program finished, `Some(Err(d))` on a run-time error.
pub open spec fn run_spec(s: VmView, fuel: nat) -> (Seq<Seq<char>>, Option<Result<(), DiagnosticView>>)
    decreases fuel,
{
    if fuel == 0 {
        (Seq::empty(), None)
    } else {
        let (s1, r) = step_spec(s);
        match r {
            Err(d) => (Seq::empty(), Some(Err(d))),
            Ok(StepView::Finished) => (Seq::empty(), Some(Ok(()))),
            Ok(StepView::Continue) => run_spec(s1, (fuel - 1) as nat),
            Ok(StepView::Print(t)) => {
                let (out, end) = run_spec(s1, (fuel - 1) as nat);
                (seq![t] + out, end)
            },
        }
    }
}

/// The machine after `n` steps from `s` (a step after the end leaves it finished).
pub open spec fn after_steps(s: VmView, n: nat) -> VmView
    decreases n,
{
    if n == 0 {
        s
    } else {
        after_steps(step_spec(s).0, (n - 1) as nat)
    }
}

/// Taking `a` steps and then `b` more is taking `a + b` steps.
pub proof fn lemma_after_steps_add(s: VmView, a: nat, b: nat)
    ensures
        after_steps(s, a + b) == after_steps(after_steps(s, a), b),
    decreases a,
{
    if a > 0 {
        lemma_after_steps_add(step_spec(s).0, (a - 1) as nat, b);
        assert((a + b - 1) as nat == (a - 1) as nat + b);
    }
}

/// On a program whose calls all name its own functions, a machine whose frames all run
/// functions of the program keeps doing so after a step; and in such a state the next step
/// is free of panics exactly when its arithmetic does not overflow `i64`.
pub proof fn lemma_steps_stay_defined(s: VmView)
    requires
        calls_in_range(s.program),
        frames_in_range(s),
    ensures
        frames_in_range(step_spec(s).0),
        calls_in_range(step_spec(s).0.program),
        step_defined(s) <==> arith_defined_at(s),
{
    let s2 = step_spec(s).0;
    if s.frames.len() > 0 {
        let fi = s.frames.len() - 1;
        let fr = s.frames[fi];
        assert(fr.func < s.program.chunks.len());
        let chunk = s.program.chunks[fr.func as int];
        if fr.ip < chunk.ops.len() {
            let op = chunk.ops[fr.ip as int];
            assert(calls_below(chunk.ops, s.program.chunks.len() as int));
            assert forall|i: int| 0 <= i < s2.frames.len() implies (#[trigger] s2.frames[i]).func < s2.program.chunks.len() by {
                if i < fi {
                    assert(s2.frames[i] == s.frames[i]);
                } else if i == fi {
                    assert(s2.frames[i].func == fr.func);
                } else {
                    assert(op is Call);
                }
            }
        }
    }
}

/// Started in one of its functions, a program whose calls all name its own functions runs
/// only its own functions, however many steps it takes; at each of them the next step is free
/// of panics exactly when its arithmetic does not overflow `i64`.
pub proof fn lemma_runs_stay_defined(s: VmView, n: nat)
    requires
        calls_in_range(s.program),
        frames_in_range(s),
    ensures
        frames_in_range(after_steps(s, n)),
        after_steps(s, n).program == s.program,
        step_defined(after_steps(s, n)) <==> arith_defined_at(after_steps(s, n)),
    decreases n,
{
    lemma_steps_stay_defined(s);
    if n > 0 {
        lemma_runs_stay_defined(step_spec(s).0, (n - 1) as nat);
    }
}

/// `trunc_div` is division rounded toward zero: the remainder `a - q * b` is smaller than
/// `b` in size and has the sign of `a` (or is zero).
pub proof fn lemma_trunc_div(a: int, b: int)
    requires
        b != 0,
    ensures
        ({
            let q = trunc_div(a, b);
            let r = a - q * b;
            &&& (if r < 0 { -r } else { r }) < (if b < 0 { -b } else { b })
            &&& r == 0 || (r < 0) == (a < 0)
        }),
{
    let q = trunc_div(a, b);
    if a > 0 && b > 0 {
        vstd::arithmetic::div_mod::lemma_fundamental_div_mod(a, b);
        vstd::arithmetic::div_mod::lemma_mod_bound(a, b);
        assert(a - q * b == a % b) by (nonlinear_arith)
            requires
                a == b * (a / b) + (a % b),
                q == a / b,
        ;
    } else if a < 0 && b < 0 {
        vstd::arithmetic::div_mod::lemma_fundamental_div_mod(-a, -b);
        vstd::arithmetic::div_mod::lemma_mod_bound(-a, -b);
        assert(a - q * b == -((-a) % (-b))) by (nonlinear_arith)
            requires
                -a == (-b) * ((-a) / (-b)) + ((-a) % (-b)),
                q == (-a) / (-b),
        ;
    } else if a < 0 {
        vstd::arithmetic::div_mod::lemma_fundamental_div_mod(-a, b);
        vstd::arithmetic::div_mod::lemma_mod_bound(-a, b);
        assert(a - q * b == -((-a) % b)) by (nonlinear_arith)
            requires
                -a == b * ((-a) / b) + ((-a) % b),
                q == -((-a) / b),
        ;
    } else if a > 0 {
        vstd::arithmetic::div_mod::lemma_fundamental_div_mod(a, -b);
        vstd::arithmetic::div_mod::lemma_mod_bound(a, -b);
        assert(a - q * b == a % (-b)) by (nonlinear_arith)
            requires
                a == (-b) * (a / (-b)) + (a % (-b)),
                q == -(a / (-b)),
        ;
    }
}

/// The arithmetic instructions pop the right operand `b`, then the left operand `a`, and push
/// the exact result: `a + b`, `a - b`, `a * b`, or for `/` the quotient rounded toward zero;
/// dividing by zero fails.
pub proof fn lemma_arith_steps(s: VmView, a: i64, b: i64)
    requires
        s.frames.len() > 0,
        s.frames.last().func < s.program.chunks.len(),
        s.frames.last().ip < s.program.chunks[s.frames.last().func as int].ops.len(),
        ({
            let op = s.program.chunks[s.frames.last().func as int].ops[s.frames.last().ip as int];
            op is AddI64 || op is SubI64 || op is MulI64 || op is DivI64
        }),
        s.stack.len() >= 2,
        s.stack.last() == ValueView::Int(b),
        s.stack.drop_last().last() == ValueView::Int(a),
        step_defined(s),
    ensures
        ({
            let op = s.program.chunks[s.frames.last().func as int].ops[s.frames.last().ip as int];
            let (s2, r) = step_spec(s);
            let rest = s.stack.drop_last().drop_last();
            if op is DivI64 && b == 0 {
                r is Err
            } else {
                &&& r == Ok::<StepView, DiagnosticView>(StepView::Continue)
                &&& s2.stack.len() == rest.len() + 1
                &&& s2.stack.drop_last() == rest
                &&& s2.stack.last() matches ValueView::Int(v) && {
                    &&& op is AddI64 ==> v == a + b
                    &&& op is SubI64 ==> v == a - b
                    &&& op is MulI64 ==> v == a * b
                    &&& op is DivI64 ==> {
                        let rm = a - v * b;
                        &&& (if rm < 0 { -rm } else { rm }) < (if b < 0 { -(b as int) } else { b as int })
                        &&& rm == 0 || (rm < 0) == (a < 0)
                    }
                }
            }
        }),
{
    if b != 0 {
        lemma_trunc_div(a as int, b as int);
    }
    let rest = s.stack.drop_last().drop_last();
    assert(pop_spec(s.stack).1.drop_last() == rest);
}

/// The instruction that the current frame is about to run.
pub open spec fn next_op(s: VmView) -> Op {
    s.program.chunks[s.frames.last().func as int].ops[s.frames.last().ip as int]
}

/// The current frame exists and has an instruction left to run.
pub open spec fn has_next_op(s: VmView) -> bool {
    &&& s.frames.len() > 0
    &&& s.frames.last().func < s.program.chunks.len()
    &&& s.frames.last().ip < s.program.chunks[s.frames.last().func as int].ops.len()
}

/// The simple instructions: `PushInt(n)` pushes `Int(n)`, `PushUnit` pushes `Unit`, `Pop`
/// drops the top value (if any), and `Halt` finishes the program; each moves the frame on by
/// one instruction. A frame whose instruction pointer is past its code is an error.
pub proof fn lemma_simple_steps(s: VmView)
    requires
        s.frames.len() > 0,
        s.frames.last().func < s.program.chunks.len(),
    ensures
        ({
            let (s2, r) = step_spec(s);
            let fr = s.frames.last();
            let ops = s.program.chunks[fr.func as int].ops;
            if fr.ip >= ops.len() {
                r is Err && s2 == s
            } else {
                &&& (ops[fr.ip as int] matches Op::PushInt(n) ==> r == Ok::<StepView, DiagnosticView>(StepView::Continue)
                    && s2.stack == s.stack.push(ValueView::Int(n)))
                &&& (ops[fr.ip as int] is PushUnit ==> r == Ok::<StepView, DiagnosticView>(StepView::Continue)
                    && s2.stack == s.stack.push(ValueView::Unit))
                &&& (ops[fr.ip as int] is Pop ==> r == Ok::<StepView, DiagnosticView>(StepView::Continue) && s2.stack == (
                if s.stack.len() == 0 { s.stack } else { s.stack.drop_last() }))
                &&& (ops[fr.ip as int] is Halt ==> r == Ok::<StepView, DiagnosticView>(StepView::Finished))
                &&& (!(ops[fr.ip as int] is Call) && !(ops[fr.ip as int] is Ret)) ==> s2.frames.len() == s.frames.len()
                    && s2.frames.last().func == fr.func && s2.frames.last().ip == (fr.ip + 1) as usize
                    && s2.frames.last().locals == fr.locals && s2.frames.drop_last() == s.frames.drop_last()
            }
        }),
{
    let fi = s.frames.len() - 1;
    let fr = s.frames[fi];
    let nf = FrameView { func: fr.func, ip: (fr.ip + 1) as usize, locals: fr.locals };
    assert(s.frames.update(fi, nf).drop_last() =~= s.frames.drop_last());
}

/// A call takes the top `argc` values off the stack and hands them, in the order they were
/// pushed (first argument first), to a new frame of function `func`, which starts at its first
/// instruction; the caller's frame resumes after the call. With fewer values on the stack the
/// call fails.
pub proof fn lemma_call_passes_arguments(s: VmView)
    requires
        has_next_op(s),
        next_op(s) is Call,
    ensures
        next_op(s) matches Op::Call { func, argc } && {
            let (s2, r) = step_spec(s);
            let n = s.stack.len();
            if n < argc {
                r is Err
            } else {
                &&& r == Ok::<StepView, DiagnosticView>(StepView::Continue)
                &&& s2.stack == s.stack.take(n - argc)
                &&& s2.frames.len() == s.frames.len() + 1
                &&& s2.frames.last().func == func as usize
                &&& s2.frames.last().ip == 0
                &&& s2.frames.last().locals.len() == argc
                &&& forall|k: int| 0 <= k < argc ==> #[trigger] s2.frames.last().locals[k] == s.stack[n - argc + k]
                &&& s2.frames[s.frames.len() - 1].ip == (s.frames.last().ip + 1) as usize
            }
        },
{
}

/// `LoadParam(k)` pushes the current frame's `k`-th argument (counting from the first), and
/// fails when there is none.
pub proof fn lemma_load_param(s: VmView)
    requires
        has_next_op(s),
        next_op(s) is LoadParam,
    ensures
        next_op(s) matches Op::LoadParam(k) && {
            let (s2, r) = step_spec(s);
            let locals = s.frames.last().locals;
            if (k as int) < locals.len() {
                r == Ok::<StepView, DiagnosticView>(StepView::Continue) && s2.stack == s.stack.push(locals[k as int])
            } else {
                r is Err
            }
        },
{
}

/// `PushStr(k)` pushes the current function's `k`-th string constant, and fails when there
/// is none.
pub proof fn lemma_push_string(s: VmView)
    requires
        has_next_op(s),
        next_op(s) is PushStr,
    ensures
        next_op(s) matches Op::PushStr(k) && {
            let (s2, r) = step_spec(s);
            let strings = s.program.chunks[s.frames.last().func as int].strings;
            if k < strings.len() {
                r == Ok::<StepView, DiagnosticView>(StepView::Continue) && s2.stack == s.stack.push(
                    ValueView::Str(strings[k as int]),
                )
            } else {
                r is Err
            }
        },
{
}

/// `Ret` leaves the stack as it is (the returned value stays on top for the caller) and
/// resumes the caller; returning from the last frame finishes the program.
pub proof fn lemma_ret_resumes_caller(s: VmView)
    requires
        has_next_op(s),
        next_op(s) is Ret,
    ensures
        ({
            let (s2, r) = step_spec(s);
            &&& s2.stack == s.stack
            &&& s2.frames == s.frames.drop_last()
            &&& r == Ok::<StepView, DiagnosticView>(
                if s.frames.len() == 1 { StepView::Finished } else { StepView::Continue },
            )
        }),
{
    let fi = s.frames.len() - 1;
    let s1f = s.frames.update(fi, FrameView { func: s.frames[fi].func, ip: (s.frames[fi].ip + 1) as usize, locals: s.frames[fi].locals });
    assert(s1f.drop_last() =~= s.frames.drop_last());
}

/// `BuiltinPrint` with a string on top of the stack pops it and asks the driver to print
/// exactly that text, whatever it is (the empty text included); on any other value it fails.
pub proof fn lemma_print_prints_its_string(s: VmView)
    requires
        s.frames.len() > 0,
        s.frames.last().func < s.program.chunks.len(),
        s.frames.last().ip < s.program.chunks[s.frames.last().func as int].ops.len(),
        s.program.chunks[s.frames.last().func as int].ops[s.frames.last().ip as int] == Op::BuiltinPrint,
        s.stack.len() > 0,
    ensures
        step_spec(s).0.stack == s.stack.drop_last(),
        step_spec(s).0.frames.len() == s.frames.len(),
        step_spec(s).0.frames.last().ip == (s.frames.last().ip + 1) as usize,
        s.stack.last() matches ValueView::Str(t) ==> step_spec(s).1 == Ok::<StepView, DiagnosticView>(StepView::Print(t)),
        !(s.stack.last() is Str) ==> step_spec(s).1 is Err,
{
}

/// A step never changes the program, and a machine with no frames stays finished.
pub proof fn lemma_step_keeps_program(s: VmView)
    ensures
        step_spec(s).0.program == s.program,
        s.frames.len() == 0 ==> step_spec(s) == (s, Ok::<StepView, DiagnosticView>(StepView::Finished)),
{
}

} // verus!
