//! Lowering of the syntax tree to bytecode.

use vstd::prelude::*;

use crate::ast::{
    exprs_view, lemma_exprs_view, BinOp, Block, Expr, ExprView, FnDef, FnDefView, Item, ParamView,
    Program, ProgramView, Stmt, StmtView, TypeExpr,
};
use crate::errors::{diag, diag_at, Diagnostic, DiagnosticView, Span};
use crate::text::{push_str, string_of};
use crate::types::fns_view;
use crate::vm::{after_steps, lemma_after_steps_add, run_spec, StepView, lemma_trunc_div, trunc_div, step_spec, FrameView, ValueView, VmView, arith_defined_at, calls_below, calls_in_range, frames_in_range, lemma_runs_stay_defined, started, step_defined, BytecodeView, Chunk, ChunkView, Op, Program as VmProgram};

verus! {

/// The index of the last occurrence of `name` in `names` (a later entry hides an earlier one).
pub open spec fn last_index(names: Seq<Seq<char>>, name: Seq<char>) -> Option<int>
    decreases names.len(),
{
    if names.len() == 0 {
        None
    } else if names.last() == name {
        Some(names.len() - 1)
    } else {
        last_index(names.drop_last(), name)
    }
}

/// The names of some parameters, in order.
pub open spec fn param_names(params: Seq<ParamView>) -> Seq<Seq<char>> {
    params.map_values(|p: ParamView| p.name)
}

/// The names of some functions, in order.
pub open spec fn fn_names(fs: Seq<FnDefView>) -> Seq<Seq<char>> {
    fs.map_values(|f: FnDefView| f.name)
}

/// The index of the first string constant equal to `s`.
pub open spec fn string_index(strings: Seq<Seq<char>>, s: Seq<char>) -> Option<int>
    decreases strings.len(),
{
    if strings.len() == 0 {
        None
    } else if strings[0] == s {
        Some(0)
    } else {
        match string_index(strings.drop_first(), s) {
            Some(k) => Some(k + 1),
            None => None,
        }
    }
}

/// The chunk with `s` among its constants, and the index of `s` there.
pub open spec fn intern_spec(c: ChunkView, s: Seq<char>) -> (ChunkView, int) {
    match string_index(c.strings, s) {
        Some(i) => (c, i),
        None => (ChunkView { ops: c.ops, strings: c.strings.push(s) }, c.strings.len() as int),
    }
}

/// `c` with `op` appended.
pub open spec fn emit(c: ChunkView, op: Op) -> ChunkView {
    ChunkView { ops: c.ops.push(op), strings: c.strings }
}

/// The opcode of a binary operator.
pub open spec fn binop_code(op: BinOp) -> Op {
    match op {
        BinOp::Add => Op::AddI64,
        BinOp::Sub => Op::SubI64,
        BinOp::Mul => Op::MulI64,
        BinOp::Div => Op::DivI64,
    }
}

/// `c` after appending the code of `e`, or the first code generation error.
pub open spec fn compile_expr_spec(c: ChunkView, e: ExprView, pnames: Seq<Seq<char>>, fnames: Seq<Seq<char>>) -> Result<
    ChunkView,
    DiagnosticView,
>
    decreases e, 0int,
{
    match e {
        ExprView::IntLit(n, _) => Ok(emit(c, Op::PushInt(n))),
        ExprView::StringLit(s, _) => {
            let (c2, i) = intern_spec(c, s);
            Ok(emit(c2, Op::PushStr(i as usize)))
        },
        ExprView::Ident(name, span) => match last_index(pnames, name) {
            Some(i) => Ok(emit(c, Op::LoadParam(i as u8))),
            None => Err(diag_at("unknown local `"@ + name + "` in codegen"@, span)),
        },
        ExprView::Binary { op, lhs, rhs, .. } => match compile_expr_spec(c, *lhs, pnames, fnames) {
            Err(d) => Err(d),
            Ok(c1) => match compile_expr_spec(c1, *rhs, pnames, fnames) {
                Err(d) => Err(d),
                Ok(c2) => Ok(emit(c2, binop_code(op))),
            },
        },
        ExprView::Call { callee, args, span } => compile_call_spec(c, callee, args, span, pnames, fnames),
    }
}

/// `c` after appending the code of a call.
pub open spec fn compile_call_spec(
    c: ChunkView,
    callee: Seq<char>,
    args: Seq<ExprView>,
    span: Span,
    pnames: Seq<Seq<char>>,
    fnames: Seq<Seq<char>>,
) -> Result<ChunkView, DiagnosticView>
    decreases args, args.len() + 1,
{
    if callee == "print"@ {
        if args.len() != 1 {
            Err(diag_at("print arity mismatch"@, span))
        } else {
            match compile_expr_spec(c, args[0], pnames, fnames) {
                Err(d) => Err(d),
                Ok(c1) => Ok(emit(emit(c1, Op::BuiltinPrint), Op::PushUnit)),
            }
        }
    } else {
        match last_index(fnames, callee) {
            None => Err(diag_at("unknown function `"@ + callee + "` in codegen"@, span)),
            Some(fid) => match compile_args_spec(c, args, 0, pnames, fnames) {
                Err(d) => Err(d),
                Ok(c1) => Ok(emit(
                    c1,
                    Op::Call {
                        func: fid as u16,
                        argc: if args.len() < 255 { args.len() as u8 } else { 255u8 },
                    },
                )),
            },
        }
    }
}

/// `c` after appending the code of the arguments from index `k` on, in order.
pub open spec fn compile_args_spec(c: ChunkView, args: Seq<ExprView>, k: int, pnames: Seq<Seq<char>>, fnames: Seq<Seq<char>>) -> Result<
    ChunkView,
    DiagnosticView,
>
    decreases args, args.len() - k,
{
    if k < 0 || k >= args.len() {
        Ok(c)
    } else {
        match compile_expr_spec(c, args[k], pnames, fnames) {
            Err(d) => Err(d),
            Ok(c1) => compile_args_spec(c1, args, k + 1, pnames, fnames),
        }
    }
}

/// `c` after appending the code of a statement.
pub open spec fn compile_stmt_spec(c: ChunkView, s: StmtView, pnames: Seq<Seq<char>>, fnames: Seq<Seq<char>>) -> Result<
    ChunkView,
    DiagnosticView,
> {
    match s {
        StmtView::Expr(e) => match compile_expr_spec(c, e, pnames, fnames) {
            Err(d) => Err(d),
            Ok(c1) => Ok(emit(c1, Op::Pop)),
        },
        StmtView::Return { expr, .. } => match compile_expr_spec(c, expr, pnames, fnames) {
            Err(d) => Err(d),
            Ok(c1) => Ok(emit(c1, Op::Ret)),
        },
    }
}

/// `c` after appending the code of the statements, in order.
pub open spec fn compile_stmts_spec(c: ChunkView, stmts: Seq<StmtView>, pnames: Seq<Seq<char>>, fnames: Seq<Seq<char>>) -> Result<
    ChunkView,
    DiagnosticView,
>
    decreases stmts.len(),
{
    if stmts.len() == 0 {
        Ok(c)
    } else {
        match compile_stmts_spec(c, stmts.drop_last(), pnames, fnames) {
            Err(d) => Err(d),
            Ok(c1) => compile_stmt_spec(c1, stmts.last(), pnames, fnames),
        }
    }
}

/// The chunk of one function: its body, then `Halt` for `main`, or an implicit return when
/// the body does not end with `return`.
pub open spec fn compile_fn_spec(f: FnDefView, fnames: Seq<Seq<char>>) -> Result<ChunkView, DiagnosticView> {
    if f.params.len() > 256 {
        Err(diag("too many parameters (MVP limit 256)"@))
    } else {
        match compile_stmts_spec(ChunkView { ops: Seq::empty(), strings: Seq::empty() }, f.body.stmts, param_names(f.params), fnames) {
            Err(d) => Err(d),
            Ok(c) => {
                let ends_return = f.body.stmts.len() > 0 && f.body.stmts.last() is Return;
                if f.name == "main"@ {
                    Ok(emit(c, Op::Halt))
                } else if !ends_return {
                    let void_ret = match f.ret_ty {
                        Some(t) => t == TypeExpr::Void,
                        None => true,
                    };
                    if void_ret {
                        Ok(emit(emit(c, Op::PushUnit), Op::Ret))
                    } else {
                        Ok(emit(c, Op::Ret))
                    }
                } else {
                    Ok(c)
                }
            },
        }
    }
}

/// The chunks of the functions `fs`, in order, or the first error.
pub open spec fn compile_fns_spec(fs: Seq<FnDefView>, fnames: Seq<Seq<char>>) -> Result<Seq<ChunkView>, DiagnosticView>
    decreases fs.len(),
{
    if fs.len() == 0 {
        Ok(Seq::empty())
    } else {
        match compile_fns_spec(fs.drop_last(), fnames) {
            Err(d) => Err(d),
            Ok(cs) => match compile_fn_spec(fs.last(), fnames) {
                Err(d) => Err(d),
                Ok(c) => Ok(cs.push(c)),
            },
        }
    }
}

/// The bytecode of a program, or the first code generation error.
pub open spec fn compile_spec(p: ProgramView) -> Result<BytecodeView, DiagnosticView> {
    let fs = p.items;
    match last_index(fn_names(fs), "main"@) {
        None => Err(diag("missing `main` (should be caught earlier)"@)),
        Some(m) => match compile_fns_spec(fs, fn_names(fs)) {
            Err(d) => Err(d),
            Ok(chunks) => Ok(BytecodeView {
                chunks,
                entry: m as usize,
                func_names: fn_names(fs),
            }),
        },
    }
}

} // verus!

verus! {

/// The names of a lookup table, in order.
pub open spec fn table_names<T>(table: Seq<(String, T)>) -> Seq<Seq<char>> {
    table.map_values(|e: (String, T)| e.0@)
}

/// The value of the last entry of `table` named `name`.
fn lookup_last<T: Copy>(table: &Vec<(String, T)>, name: &String) -> (r: Option<T>)
    ensures
        match last_index(table_names(table@), name@) {
            Some(i) => 0 <= i < table@.len() && r == Some(table@[i].1),
            None => r is None,
        },
{
    let ghost names = table_names(table@);
    let mut i: usize = table.len();
    proof {
        assert(names.take(i as int) =~= names);
    }
    while i > 0
        invariant
            i <= table@.len(),
            names == table_names(table@),
            last_index(names, name@) == last_index(names.take(i as int), name@),
        decreases i,
    {
        proof {
            assert(names.take(i as int).drop_last() =~= names.take(i - 1));
            assert(names.take(i as int).last() == names[i - 1]);
        }
        if table[i - 1].0 == *name {
            return Some(table[i - 1].1);
        }
        i = i - 1;
    }
    None
}

/// Lowers `program` to bytecode, or gives the first code generation error.
#[verifier::loop_isolation(false)]
pub fn compile(program: &Program) -> (r: Result<VmProgram, Diagnostic>)
    ensures
        match compile_spec(program@) {
            Ok(b) => r matches Ok(p) && p@ == b,
            Err(d) => r matches Err(x) && x@ == d,
        },
{
    let funcs = crate::types::program_fns(program);
    let ghost fs = program@.items;
    let ghost fnames = fn_names(fs);
    let n = funcs.len();

    let mut indices: Vec<(String, usize)> = Vec::new();
    let mut i: usize = 0;
    while i < n
        invariant
            i <= n == funcs@.len(),
            fns_view(funcs@) == fs,
            fnames == fn_names(fs),
            indices@.len() == i,
            fnames.len() == n,
            table_names(indices@) == fnames.take(i as int),
            forall|j: int| 0 <= j < indices@.len() ==> #[trigger] indices@[j].1 == j as usize,
        decreases n - i,
    {
        let f = funcs[i];
        proof {
            assert(f@ == fs[i as int]);
        }
        let ghost old_ind = indices@;
        let nm = f.name.clone();
        assert(nm@ == fs[i as int].name);
        indices.push((nm, i));
        assert(indices@ == old_ind.push((nm, i)));
        assert(table_names(indices@).len() == i + 1);
        assert(table_names(indices@)[i as int] == nm@);
        assert(fnames[i as int] == fs[i as int].name);
        assert(table_names(indices@) =~= fnames.take(i + 1));
        i = i + 1;
    }
    proof {
        assert(fnames.take(n as int) =~= fnames);
    }
    let main_name = string_of("main");
    let entry = match lookup_last(&indices, &main_name) {
        Some(m) => m,
        None => {
            return Err(Diagnostic::new(string_of("missing `main` (should be caught earlier)")));
        },
    };

    let mut chunks: Vec<Chunk> = Vec::new();
    let mut names: Vec<String> = Vec::new();
    let mut k: usize = 0;
    proof {
        assert(fs.take(0) =~= Seq::<FnDefView>::empty());
        assert(chunks@.map_values(|c: Chunk| c@) =~= Seq::<ChunkView>::empty());
        assert(names@.map_values(|s: String| s@) =~= Seq::<Seq<char>>::empty());
    }
    while k < n
        invariant
            k <= n == funcs@.len(),
            fns_view(funcs@) == fs,
            fnames == fn_names(fs),
            table_names(indices@) == fnames,
            forall|j: int| 0 <= j < indices@.len() ==> #[trigger] indices@[j].1 == j as usize,
            compile_fns_spec(fs.take(k as int), fnames) == Ok::<Seq<ChunkView>, DiagnosticView>(chunks@.map_values(|c: Chunk| c@)),
            names@.map_values(|s: String| s@) == fnames.take(k as int),
            names@.len() == k,
            chunks@.len() == k,
            fnames.len() == n,
        decreases n - k,
    {
        let f = funcs[k];
        proof {
            assert(f@ == fs[k as int]);
            assert(fs.take(k + 1).drop_last() =~= fs.take(k as int));
        }
        names.push(f.name.clone());
        let c = match compile_function(f, &indices) {
            Ok(c) => c,
            Err(d) => {
                proof {
                    assert(fs.take(k + 1).last() == fs[k as int]);
                    lemma_compile_fns_error_prefix(fs, fnames, k + 1);
                }
                return Err(d);
            },
        };
        chunks.push(c);
        proof {
            assert(chunks@.map_values(|c: Chunk| c@) =~= compile_fns_spec(fs.take(k as int), fnames)->Ok_0.push(c@));
            assert(names@.map_values(|s: String| s@) =~= fnames.take(k + 1));
        }
        k = k + 1;
    }
    proof {
        assert(fs.take(n as int) =~= fs);
        assert(fnames.take(n as int) =~= fnames);
    }
    Ok(VmProgram { chunks, entry, func_names: names })
}

/// When the functions up to `k` fail to compile, so do all of them, with the same error.
proof fn lemma_compile_fns_error_prefix(fs: Seq<FnDefView>, fnames: Seq<Seq<char>>, k: int)
    requires
        0 <= k <= fs.len(),
        compile_fns_spec(fs.take(k), fnames) is Err,
    ensures
        compile_fns_spec(fs, fnames) == compile_fns_spec(fs.take(k), fnames),
    decreases fs.len() - k,
{
    if k < fs.len() {
        assert(fs.take(k + 1).drop_last() =~= fs.take(k));
        lemma_compile_fns_error_prefix(fs, fnames, k + 1);
    } else {
        assert(fs.take(k) =~= fs);
    }
}

/// The chunk of one function.
fn compile_function(f: &FnDef, indices: &Vec<(String, usize)>) -> (r: Result<Chunk, Diagnostic>)
    requires
        forall|j: int| 0 <= j < indices@.len() ==> #[trigger] indices@[j].1 == j as usize,
    ensures
        match compile_fn_spec(f@, table_names(indices@)) {
            Ok(c) => r matches Ok(x) && x@ == c,
            Err(d) => r matches Err(x) && x@ == d,
        },
{
    let ghost pnames = param_names(f@.params);
    let mut env: Vec<(String, u8)> = Vec::new();
    let mut i: usize = 0;
    while i < f.params.len()
        invariant
            i <= f.params@.len(),
            i <= 256,
            pnames == param_names(f@.params),
            env@.len() == i,
            pnames.len() == f.params@.len(),
            table_names(env@) == pnames.take(i as int),
            forall|j: int| 0 <= j < env@.len() ==> #[trigger] env@[j].1 == j as u8,
        decreases f.params@.len() - i,
    {
        if i > 255 {
            return Err(Diagnostic::new(string_of("too many parameters (MVP limit 256)")));
        }
        env.push((f.params[i].name.clone(), i as u8));
        assert(table_names(env@) =~= pnames.take(i + 1));
        i = i + 1;
    }
    proof {
        assert(pnames.take(i as int) =~= pnames);
    }
    let mut c = Chunk::default();
    match compile_block(&mut c, &f.body, &env, indices) {
        Ok(()) => {},
        Err(d) => {
            return Err(d);
        },
    }
    let len = f.body.stmts.len();
    let ends_return = len > 0 && matches!(f.body.stmts[len - 1], Stmt::Return { .. });
    let main_name = string_of("main");
    if f.name == main_name {
        c.ops.push(Op::Halt);
    } else if !ends_return {
        let void_ret = match &f.ret_ty {
            Some(t) => matches!(t, TypeExpr::Void),
            None => true,
        };
        if void_ret {
            c.ops.push(Op::PushUnit);
        }
        c.ops.push(Op::Ret);
    }
    Ok(c)
}

fn compile_block(chunk: &mut Chunk, block: &Block, env: &Vec<(String, u8)>, funcs: &Vec<(String, usize)>) -> (r: Result<(), Diagnostic>)
    requires
        forall|j: int| 0 <= j < env@.len() ==> #[trigger] env@[j].1 == j as u8,
        forall|j: int| 0 <= j < funcs@.len() ==> #[trigger] funcs@[j].1 == j as usize,
    ensures
        match compile_stmts_spec(old(chunk)@, block@.stmts, table_names(env@), table_names(funcs@)) {
            Ok(c) => r is Ok && final(chunk)@ == c,
            Err(d) => r matches Err(x) && x@ == d,
        },
{
    let ghost stmts = block@.stmts;
    let ghost pn = table_names(env@);
    let ghost fnm = table_names(funcs@);
    let mut i: usize = 0;
    proof {
        assert(stmts.take(0) =~= Seq::<StmtView>::empty());
    }
    while i < block.stmts.len()
        invariant
            i <= block.stmts@.len(),
            stmts == block@.stmts,
            pn == table_names(env@),
            fnm == table_names(funcs@),
            forall|j: int| 0 <= j < env@.len() ==> #[trigger] env@[j].1 == j as u8,
            forall|j: int| 0 <= j < funcs@.len() ==> #[trigger] funcs@[j].1 == j as usize,
            compile_stmts_spec(old(chunk)@, stmts.take(i as int), pn, fnm) == Ok::<ChunkView, DiagnosticView>(chunk@),
        decreases block.stmts@.len() - i,
    {
        proof {
            assert(stmts.take(i + 1).drop_last() =~= stmts.take(i as int));
            assert(stmts[i as int] == block.stmts@[i as int]@);
        }
        match compile_stmt(chunk, &block.stmts[i], env, funcs) {
            Ok(()) => {},
            Err(d) => {
                proof {
                    lemma_compile_stmts_error_prefix(old(chunk)@, stmts, pn, fnm, i + 1);
                }
                return Err(d);
            },
        }
        i = i + 1;
    }
    proof {
        assert(stmts.take(i as int) =~= stmts);
    }
    Ok(())
}

proof fn lemma_compile_stmts_error_prefix(c: ChunkView, stmts: Seq<StmtView>, pn: Seq<Seq<char>>, fnm: Seq<Seq<char>>, k: int)
    requires
        0 <= k <= stmts.len(),
        compile_stmts_spec(c, stmts.take(k), pn, fnm) is Err,
    ensures
        compile_stmts_spec(c, stmts, pn, fnm) == compile_stmts_spec(c, stmts.take(k), pn, fnm),
    decreases stmts.len() - k,
{
    if k < stmts.len() {
        assert(stmts.take(k + 1).drop_last() =~= stmts.take(k));
        lemma_compile_stmts_error_prefix(c, stmts, pn, fnm, k + 1);
    } else {
        assert(stmts.take(k) =~= stmts);
    }
}

fn compile_stmt(chunk: &mut Chunk, stmt: &Stmt, env: &Vec<(String, u8)>, funcs: &Vec<(String, usize)>) -> (r: Result<(), Diagnostic>)
    requires
        forall|j: int| 0 <= j < env@.len() ==> #[trigger] env@[j].1 == j as u8,
        forall|j: int| 0 <= j < funcs@.len() ==> #[trigger] funcs@[j].1 == j as usize,
    ensures
        match compile_stmt_spec(old(chunk)@, stmt@, table_names(env@), table_names(funcs@)) {
            Ok(c) => r is Ok && final(chunk)@ == c,
            Err(d) => r matches Err(x) && x@ == d,
        },
{
    match stmt {
        Stmt::Expr(e) => {
            match compile_expr(chunk, e, env, funcs) {
                Ok(()) => {},
                Err(d) => {
                    return Err(d);
                },
            }
            chunk.ops.push(Op::Pop);
            Ok(())
        },
        Stmt::Return { expr, .. } => {
            match compile_expr(chunk, expr, env, funcs) {
                Ok(()) => {},
                Err(d) => {
                    return Err(d);
                },
            }
            chunk.ops.push(Op::Ret);
            Ok(())
        },
    }
}

fn compile_expr(chunk: &mut Chunk, expr: &Expr, env: &Vec<(String, u8)>, funcs: &Vec<(String, usize)>) -> (r: Result<(), Diagnostic>)
    requires
        forall|j: int| 0 <= j < env@.len() ==> #[trigger] env@[j].1 == j as u8,
        forall|j: int| 0 <= j < funcs@.len() ==> #[trigger] funcs@[j].1 == j as usize,
    ensures
        match compile_expr_spec(old(chunk)@, expr@, table_names(env@), table_names(funcs@)) {
            Ok(c) => r is Ok && final(chunk)@ == c,
            Err(d) => r matches Err(x) && x@ == d,
        },
    decreases expr, 0int,
{
    match expr {
        Expr::IntLit(n, _) => {
            chunk.ops.push(Op::PushInt(*n));
        },
        Expr::StringLit(s, _) => {
            let idx = intern_string(chunk, s);
            chunk.ops.push(Op::PushStr(idx));
        },
        Expr::Ident(name, span) => {
            let slot = match lookup_last(env, name) {
                Some(slot) => slot,
                None => {
                    let mut m = string_of("unknown local `");
                    push_str(&mut m, name.as_str());
                    push_str(&mut m, "` in codegen");
                    return Err(Diagnostic::spanned(m, *span));
                },
            };
            chunk.ops.push(Op::LoadParam(slot));
        },
        Expr::Binary { op, lhs, rhs, .. } => {
            match compile_expr(chunk, lhs, env, funcs) {
                Ok(()) => {},
                Err(d) => {
                    return Err(d);
                },
            }
            match compile_expr(chunk, rhs, env, funcs) {
                Ok(()) => {},
                Err(d) => {
                    return Err(d);
                },
            }
            match op {
                BinOp::Add => chunk.ops.push(Op::AddI64),
                BinOp::Sub => chunk.ops.push(Op::SubI64),
                BinOp::Mul => chunk.ops.push(Op::MulI64),
                BinOp::Div => chunk.ops.push(Op::DivI64),
            }
        },
        Expr::Call { callee, args, span } => {
            return compile_call(chunk, callee, args, *span, env, funcs);
        },
    }
    Ok(())
}

#[verifier::loop_isolation(false)]
fn compile_call(
    chunk: &mut Chunk,
    callee: &String,
    args: &Vec<Expr>,
    span: Span,
    env: &Vec<(String, u8)>,
    funcs: &Vec<(String, usize)>,
) -> (r: Result<(), Diagnostic>)
    requires
        forall|j: int| 0 <= j < env@.len() ==> #[trigger] env@[j].1 == j as u8,
        forall|j: int| 0 <= j < funcs@.len() ==> #[trigger] funcs@[j].1 == j as usize,
    ensures
        match compile_call_spec(old(chunk)@, callee@, exprs_view(args@), span, table_names(env@), table_names(funcs@)) {
            Ok(c) => r is Ok && final(chunk)@ == c,
            Err(d) => r matches Err(x) && x@ == d,
        },
    decreases *args, args@.len() + 1,
{
    let ghost av = exprs_view(args@);
    let ghost pn = table_names(env@);
    let ghost fnm = table_names(funcs@);
    proof {
        lemma_exprs_view(args@);
    }
    let print = string_of("print");
    if *callee == print {
        if args.len() != 1 {
            return Err(Diagnostic::spanned(string_of("print arity mismatch"), span));
        }
        match compile_expr(chunk, &args[0], env, funcs) {
            Ok(()) => {},
            Err(d) => {
                return Err(d);
            },
        }
        chunk.ops.push(Op::BuiltinPrint);
        chunk.ops.push(Op::PushUnit);
        return Ok(());
    }
    let fid = match lookup_last(funcs, callee) {
        Some(fid) => {
            fid
        },
        None => {
            let mut m = string_of("unknown function `");
            push_str(&mut m, callee.as_str());
            push_str(&mut m, "` in codegen");
            return Err(Diagnostic::spanned(m, span));
        },
    };
    let nf = funcs.len();
    proof {
        let i = last_index(fnm, callee@)->0;
        assert(0 <= i < nf);
        assert(funcs@[i].1 == i as usize);
    }
    let ghost c0 = chunk@;
    let mut k: usize = 0;
    while k < args.len()
        invariant
            fid == last_index(fnm, callee@)->0,
            k <= args@.len(),
            av == exprs_view(args@),
            av.len() == args@.len(),
            forall|i: int| 0 <= i < args@.len() ==> #[trigger] av[i] == args@[i]@,
            pn == table_names(env@),
            fnm == table_names(funcs@),
            forall|j: int| 0 <= j < env@.len() ==> #[trigger] env@[j].1 == j as u8,
            forall|j: int| 0 <= j < funcs@.len() ==> #[trigger] funcs@[j].1 == j as usize,
            compile_args_spec(c0, av, 0, pn, fnm) == compile_args_spec(chunk@, av, k as int, pn, fnm),
        decreases args@.len() - k,
    {
        match compile_expr(chunk, &args[k], env, funcs) {
            Ok(()) => {},
            Err(d) => {
                return Err(d);
            },
        }
        k = k + 1;
    }
    let argc: u8 = if args.len() < 255 { args.len() as u8 } else { 255 };
    chunk.ops.push(Op::Call { func: fid as u16, argc });
    Ok(())
}

/// The index of `s` among the chunk's string constants, adding it when it is new.
fn intern_string(chunk: &mut Chunk, s: &String) -> (i: usize)
    ensures
        (final(chunk)@, i as int) == intern_spec(old(chunk)@, s@),
{
    let ghost strs = chunk@.strings;
    let mut k: usize = 0;
    while k < chunk.strings.len()
        invariant
            k <= chunk.strings@.len(),
            strs == chunk@.strings,
            chunk@ == old(chunk)@,
            forall|j: int| 0 <= j < k ==> strs[j] != s@,
        decreases chunk.strings@.len() - k,
    {
        if chunk.strings[k] == *s {
            proof {
                lemma_string_index_first(strs, s@, k as int);
            }
            return k;
        }
        k = k + 1;
    }
    proof {
        lemma_string_index_none(strs, s@);
    }
    let i = chunk.strings.len();
    chunk.strings.push(s.clone());
    assert(chunk@.strings =~= strs.push(s@));
    i
}

proof fn lemma_string_index_first(strs: Seq<Seq<char>>, s: Seq<char>, k: int)
    requires
        0 <= k < strs.len(),
        strs[k] == s,
        forall|j: int| 0 <= j < k ==> strs[j] != s,
    ensures
        string_index(strs, s) == Some(k),
    decreases k,
{
    if k > 0 {
        lemma_string_index_first(strs.drop_first(), s, k - 1);
    }
}

proof fn lemma_string_index_none(strs: Seq<Seq<char>>, s: Seq<char>)
    requires
        forall|j: int| 0 <= j < strs.len() ==> strs[j] != s,
    ensures
        string_index(strs, s) is None,
    decreases strs.len(),
{
    if strs.len() > 0 {
        lemma_string_index_none(strs.drop_first(), s);
    }
}

} // verus!

verus! {

use crate::types::{
    check_args_spec, check_call_spec, check_expr_spec, check_fn_spec, check_fns_spec,
    check_program_spec, check_stmt_spec, check_stmts_spec, env_lookup, env_of, find_fn, first_dup,
    lemma_find_fn, ret_ty_of,
};

proof fn lemma_last_index_none(names: Seq<Seq<char>>, name: Seq<char>)
    ensures
        last_index(names, name) is None <==> forall|j: int| 0 <= j < names.len() ==> names[j] != name,
    decreases names.len(),
{
    if names.len() > 0 {
        lemma_last_index_none(names.drop_last(), name);
        if last_index(names, name) is None {
            assert forall|j: int| 0 <= j < names.len() implies names[j] != name by {
                if j < names.len() - 1 {
                    assert(names[j] == names.drop_last()[j]);
                }
            }
        }
    }
}

/// A variable that the type checker finds among the parameters has a slot.
proof fn lemma_env_lookup_slot(params: Seq<ParamView>, name: Seq<char>)
    ensures
        env_lookup(env_of(params), name) is Some <==> last_index(param_names(params), name) is Some,
    decreases params.len(),
{
    if params.len() > 0 {
        assert(env_of(params).drop_last() =~= env_of(params.drop_last()));
        assert(param_names(params).drop_last() =~= param_names(params.drop_last()));
        lemma_env_lookup_slot(params.drop_last(), name);
    }
}

/// A function that the type checker finds has an index.
proof fn lemma_find_fn_index(fs: Seq<FnDefView>, name: Seq<char>)
    ensures
        find_fn(fs, name) is Some ==> last_index(fn_names(fs), name) is Some,
{
    lemma_find_fn(fs, name);
    lemma_last_index_none(fn_names(fs), name);
    if let Some(k) = find_fn(fs, name) {
        assert(fn_names(fs)[k] == name);
    }
}

/// An expression that type-checks compiles, whatever chunk it is appended to.
pub proof fn lemma_checked_expr_compiles(c: ChunkView, e: ExprView, params: Seq<ParamView>, fs: Seq<FnDefView>)
    requires
        check_expr_spec(e, env_of(params), fs).0 is Some,
    ensures
        compile_expr_spec(c, e, param_names(params), fn_names(fs)) is Ok,
    decreases e, 0int,
{
    match e {
        ExprView::Ident(name, _) => {
            lemma_env_lookup_slot(params, name);
        },
        ExprView::Binary { op, lhs, rhs, .. } => {
            lemma_checked_expr_compiles(c, *lhs, params, fs);
            let c1 = compile_expr_spec(c, *lhs, param_names(params), fn_names(fs))->Ok_0;
            lemma_checked_expr_compiles(c1, *rhs, params, fs);
        },
        ExprView::Call { callee, args, span } => {
            lemma_checked_call_compiles(c, callee, args, span, params, fs);
        },
        _ => {},
    }
}

/// A call that type-checks compiles.
pub proof fn lemma_checked_call_compiles(
    c: ChunkView,
    callee: Seq<char>,
    args: Seq<ExprView>,
    span: Span,
    params: Seq<ParamView>,
    fs: Seq<FnDefView>,
)
    requires
        check_call_spec(callee, args, span, env_of(params), fs).0 is Some,
    ensures
        compile_call_spec(c, callee, args, span, param_names(params), fn_names(fs)) is Ok,
    decreases args, args.len() + 1,
{
    if callee == "print"@ {
        lemma_checked_expr_compiles(c, args[0], params, fs);
    } else {
        lemma_find_fn_index(fs, callee);
        let k = find_fn(fs, callee)->0;
        lemma_checked_args_compile(c, args, fs[k].params, 0, span, params, fs);
    }
}

/// Arguments that type-check compile.
pub proof fn lemma_checked_args_compile(
    c: ChunkView,
    args: Seq<ExprView>,
    fparams: Seq<ParamView>,
    k: int,
    span: Span,
    params: Seq<ParamView>,
    fs: Seq<FnDefView>,
)
    requires
        0 <= k,
        args.len() == fparams.len(),
        check_args_spec(args, fparams, k, span, env_of(params), fs).0,
    ensures
        compile_args_spec(c, args, k, param_names(params), fn_names(fs)) is Ok,
    decreases args, args.len() - k,
{
    if k < args.len() {
        lemma_checked_expr_compiles(c, args[k], params, fs);
        let c1 = compile_expr_spec(c, args[k], param_names(params), fn_names(fs))->Ok_0;
        lemma_checked_args_compile(c1, args, fparams, k + 1, span, params, fs);
    }
}

proof fn lemma_checked_stmts_compile(c: ChunkView, stmts: Seq<StmtView>, f: FnDefView, fs: Seq<FnDefView>)
    requires
        check_stmts_spec(stmts, ret_ty_of(f), env_of(f.params), fs).0,
    ensures
        compile_stmts_spec(c, stmts, param_names(f.params), fn_names(fs)) is Ok,
    decreases stmts.len(),
{
    if stmts.len() > 0 {
        lemma_checked_stmts_compile(c, stmts.drop_last(), f, fs);
        let c1 = compile_stmts_spec(c, stmts.drop_last(), param_names(f.params), fn_names(fs))->Ok_0;
        match stmts.last() {
            StmtView::Return { expr, .. } => lemma_checked_expr_compiles(c1, expr, f.params, fs),
            StmtView::Expr(e) => lemma_checked_expr_compiles(c1, e, f.params, fs),
        }
    }
}

proof fn lemma_checked_fns_compile(pre: Seq<FnDefView>, fs: Seq<FnDefView>)
    requires
        check_fns_spec(pre, fs).0,
        forall|j: int| 0 <= j < pre.len() ==> #[trigger] pre[j].params.len() <= 256,
    ensures
        compile_fns_spec(pre, fn_names(fs)) is Ok,
        compile_fns_spec(pre, fn_names(fs)) matches Ok(cs) && cs.len() == pre.len(),
    decreases pre.len(),
{
    if pre.len() > 0 {
        assert forall|j: int| 0 <= j < pre.drop_last().len() implies #[trigger] pre.drop_last()[j].params.len() <= 256 by {
            assert(pre.drop_last()[j] == pre[j]);
        }
        lemma_checked_fns_compile(pre.drop_last(), fs);
        let f = pre.last();
        assert(f.params.len() <= 256);
        lemma_checked_stmts_compile(ChunkView { ops: Seq::empty(), strings: Seq::empty() }, f.body.stmts, f, fs);
    }
}

/// A program that type-checks compiles, unless one of its functions has more than 256
/// parameters; it then has one chunk per function, and its entry is the function `main`.
pub proof fn lemma_checked_program_compiles(p: ProgramView)
    requires
        check_program_spec(p).0,
        forall|j: int| 0 <= j < p.items.len() ==> #[trigger] p.items[j].params.len() <= 256,
        p.items.len() <= usize::MAX,
    ensures
        compile_spec(p) matches Ok(b) && {
            &&& b.chunks.len() == p.items.len()
            &&& b.entry < p.items.len() && p.items[b.entry as int].name == "main"@
        },
{
    let fs = p.items;
    lemma_find_fn(fs, "main"@);
    lemma_find_fn_index(fs, "main"@);
    lemma_checked_fns_compile(fs, fs);
    lemma_last_index_bounds(fn_names(fs), "main"@);
    let m = last_index(fn_names(fs), "main"@)->0;
    assert(fn_names(fs)[m] == fs[m].name);
}

proof fn lemma_last_index_bounds(names: Seq<Seq<char>>, name: Seq<char>)
    ensures
        last_index(names, name) matches Some(i) ==> 0 <= i < names.len() && names[i] == name,
    decreases names.len(),
{
    if names.len() > 0 && names.last() != name {
        lemma_last_index_bounds(names.drop_last(), name);
    }
}

} // verus!

verus! {

/// No string constant occurs twice.
pub open spec fn distinct_strings(strs: Seq<Seq<char>>) -> bool {
    forall|a: int, b: int| 0 <= a < b < strs.len() ==> strs[a] != strs[b]
}

proof fn lemma_string_index_found(strs: Seq<Seq<char>>, s: Seq<char>)
    ensures
        string_index(strs, s) matches Some(i) ==> 0 <= i < strs.len() && strs[i] == s,
        string_index(strs, s) is None ==> forall|j: int| 0 <= j < strs.len() ==> strs[j] != s,
    decreases strs.len(),
{
    if strs.len() > 0 {
        lemma_string_index_found(strs.drop_first(), s);
        if strs[0] != s {
            assert forall|j: int| 1 <= j < strs.len() implies strs[j] == strs.drop_first()[j - 1] by {}
        }
    }
}

/// Interning gives the index of a constant equal to `s`, keeps the constants distinct, and
/// interning the same text again changes nothing and gives the same index.
pub proof fn lemma_intern_laws(c: ChunkView, s: Seq<char>)
    ensures
        ({
            let (c1, i) = intern_spec(c, s);
            &&& 0 <= i < c1.strings.len()
            &&& c1.strings[i] == s
            &&& c1.ops == c.ops
            &&& c.strings.is_prefix_of(c1.strings)
            &&& distinct_strings(c.strings) ==> distinct_strings(c1.strings)
            &&& intern_spec(c1, s) == (c1, i)
        }),
{
    lemma_string_index_found(c.strings, s);
    let (c1, i) = intern_spec(c, s);
    match string_index(c.strings, s) {
        Some(k) => {
            assert(c.strings.is_prefix_of(c1.strings));
        },
        None => {
            assert(c1.strings[i] == s);
            assert(c.strings.is_prefix_of(c1.strings)) by {
                assert forall|j: int| 0 <= j < c.strings.len() implies c.strings[j] == c1.strings[j] by {}
            }
            assert forall|j: int| 0 <= j < i implies c1.strings[j] != s by {
                assert(c1.strings[j] == c.strings[j]);
            }
            lemma_string_index_first(c1.strings, s, i);
        },
    }
}

} // verus!

verus! {

/// Appending an instruction that is no `Call` beyond `n` keeps all calls below `n`.
proof fn lemma_emit_calls_below(c: ChunkView, op: Op, n: int)
    requires
        calls_below(c.ops, n),
        op matches Op::Call { func, .. } ==> (func as int) < n,
    ensures
        calls_below(emit(c, op).ops, n),
{
    let ops = emit(c, op).ops;
    assert forall|k: int| #![trigger ops[k]] 0 <= k < ops.len() implies (ops[k] matches Op::Call { func, .. } ==> (func as int)
        < n) by {
        if k < c.ops.len() {
            assert(ops[k] == c.ops[k]);
        }
    }
}

/// Code generated for an expression calls only the functions it is given.
proof fn lemma_expr_calls_below(c: ChunkView, e: ExprView, pnames: Seq<Seq<char>>, fnames: Seq<Seq<char>>)
    requires
        calls_below(c.ops, fnames.len() as int),
    ensures
        compile_expr_spec(c, e, pnames, fnames) matches Ok(c2) ==> calls_below(c2.ops, fnames.len() as int),
    decreases e, 0int,
{
    let n = fnames.len() as int;
    match e {
        ExprView::IntLit(v, _) => lemma_emit_calls_below(c, Op::PushInt(v), n),
        ExprView::StringLit(s, _) => {
            let (c2, i) = intern_spec(c, s);
            lemma_emit_calls_below(c2, Op::PushStr(i as usize), n);
        },
        ExprView::Ident(name, _) => {
            if let Some(i) = last_index(pnames, name) {
                lemma_emit_calls_below(c, Op::LoadParam(i as u8), n);
            }
        },
        ExprView::Binary { op, lhs, rhs, .. } => {
            lemma_expr_calls_below(c, *lhs, pnames, fnames);
            if let Ok(c1) = compile_expr_spec(c, *lhs, pnames, fnames) {
                lemma_expr_calls_below(c1, *rhs, pnames, fnames);
                if let Ok(c2) = compile_expr_spec(c1, *rhs, pnames, fnames) {
                    lemma_emit_calls_below(c2, binop_code(op), n);
                }
            }
        },
        ExprView::Call { callee, args, span } => lemma_call_calls_below(c, callee, args, span, pnames, fnames),
    }
}

/// Code generated for a call calls only the functions it is given.
proof fn lemma_call_calls_below(
    c: ChunkView,
    callee: Seq<char>,
    args: Seq<ExprView>,
    span: Span,
    pnames: Seq<Seq<char>>,
    fnames: Seq<Seq<char>>,
)
    requires
        calls_below(c.ops, fnames.len() as int),
    ensures
        compile_call_spec(c, callee, args, span, pnames, fnames) matches Ok(c2) ==> calls_below(c2.ops, fnames.len() as int),
    decreases args, args.len() + 1,
{
    let n = fnames.len() as int;
    if callee == "print"@ {
        if args.len() == 1 {
            lemma_expr_calls_below(c, args[0], pnames, fnames);
            if let Ok(c1) = compile_expr_spec(c, args[0], pnames, fnames) {
                lemma_emit_calls_below(c1, Op::BuiltinPrint, n);
                lemma_emit_calls_below(emit(c1, Op::BuiltinPrint), Op::PushUnit, n);
            }
        }
    } else {
        lemma_last_index_bounds(fnames, callee);
        if let Some(fid) = last_index(fnames, callee) {
            lemma_args_calls_below(c, args, 0, pnames, fnames);
            if let Ok(c1) = compile_args_spec(c, args, 0, pnames, fnames) {
                let argc: u8 = if args.len() < 255 { args.len() as u8 } else { 255u8 };
                if fid >= 65536 {
                    assert((fid as u16) < 65536);
                }
                lemma_emit_calls_below(c1, Op::Call { func: fid as u16, argc }, n);
            }
        }
    }
}

/// Code generated for arguments calls only the functions it is given.
proof fn lemma_args_calls_below(c: ChunkView, args: Seq<ExprView>, k: int, pnames: Seq<Seq<char>>, fnames: Seq<Seq<char>>)
    requires
        calls_below(c.ops, fnames.len() as int),
    ensures
        compile_args_spec(c, args, k, pnames, fnames) matches Ok(c2) ==> calls_below(c2.ops, fnames.len() as int),
    decreases args, args.len() - k,
{
    if 0 <= k < args.len() {
        lemma_expr_calls_below(c, args[k], pnames, fnames);
        if let Ok(c1) = compile_expr_spec(c, args[k], pnames, fnames) {
            lemma_args_calls_below(c1, args, k + 1, pnames, fnames);
        }
    }
}

/// Code generated for statements calls only the functions it is given.
proof fn lemma_stmts_calls_below(c: ChunkView, stmts: Seq<StmtView>, pnames: Seq<Seq<char>>, fnames: Seq<Seq<char>>)
    requires
        calls_below(c.ops, fnames.len() as int),
    ensures
        compile_stmts_spec(c, stmts, pnames, fnames) matches Ok(c2) ==> calls_below(c2.ops, fnames.len() as int),
    decreases stmts.len(),
{
    let n = fnames.len() as int;
    if stmts.len() > 0 {
        lemma_stmts_calls_below(c, stmts.drop_last(), pnames, fnames);
        if let Ok(c1) = compile_stmts_spec(c, stmts.drop_last(), pnames, fnames) {
            match stmts.last() {
                StmtView::Expr(e) => {
                    lemma_expr_calls_below(c1, e, pnames, fnames);
                    if let Ok(c2) = compile_expr_spec(c1, e, pnames, fnames) {
                        lemma_emit_calls_below(c2, Op::Pop, n);
                    }
                },
                StmtView::Return { expr, .. } => {
                    lemma_expr_calls_below(c1, expr, pnames, fnames);
                    if let Ok(c2) = compile_expr_spec(c1, expr, pnames, fnames) {
                        lemma_emit_calls_below(c2, Op::Ret, n);
                    }
                },
            }
        }
    }
}

/// The chunks of some functions are one per function and call only the functions given.
proof fn lemma_fns_calls_below(pre: Seq<FnDefView>, fnames: Seq<Seq<char>>)
    ensures
        compile_fns_spec(pre, fnames) matches Ok(cs) ==> cs.len() == pre.len() && forall|j: int|
            0 <= j < cs.len() ==> calls_below(#[trigger] cs[j].ops, fnames.len() as int),
    decreases pre.len(),
{
    let n = fnames.len() as int;
    if pre.len() > 0 {
        lemma_fns_calls_below(pre.drop_last(), fnames);
        let f = pre.last();
        if f.params.len() <= 256 {
            let empty = ChunkView { ops: Seq::empty(), strings: Seq::empty() };
            lemma_stmts_calls_below(empty, f.body.stmts, param_names(f.params), fnames);
            if let Ok(c) = compile_stmts_spec(empty, f.body.stmts, param_names(f.params), fnames) {
                lemma_emit_calls_below(c, Op::Halt, n);
                lemma_emit_calls_below(c, Op::PushUnit, n);
                lemma_emit_calls_below(emit(c, Op::PushUnit), Op::Ret, n);
                lemma_emit_calls_below(c, Op::Ret, n);
            }
        }
        if let Ok(cs) = compile_fns_spec(pre, fnames) {
            let cs0 = compile_fns_spec(pre.drop_last(), fnames)->Ok_0;
            assert forall|j: int| 0 <= j < cs.len() implies calls_below(#[trigger] cs[j].ops, n) by {
                if j < cs0.len() {
                    assert(cs[j] == cs0[j]);
                }
            }
        }
    }
}

/// Compiled bytecode only ever calls its own functions, and its entry is one of them: started
/// on it, the machine runs only functions of the program (see `lemma_runs_stay_defined`).
pub proof fn lemma_compiled_calls_in_range(p: ProgramView)
    requires
        p.items.len() <= usize::MAX,
    ensures
        compile_spec(p) matches Ok(b) ==> calls_in_range(b) && b.entry < b.chunks.len() && frames_in_range(
            started(b),
        ),
        compile_spec(p) matches Ok(b) ==> forall|n: nat|
            #![trigger after_steps(started(b), n)]
            step_defined(after_steps(started(b), n)) <==> arith_defined_at(after_steps(started(b), n)),
{
    let fs = p.items;
    lemma_fns_calls_below(fs, fn_names(fs));
    lemma_last_index_bounds(fn_names(fs), "main"@);
    if let Ok(b) = compile_spec(p) {
        assert(b.chunks.len() == fs.len());
        assert(started(b).frames[0].func == b.entry);
        assert forall|n: nat| step_defined(#[trigger] after_steps(started(b), n)) <==> arith_defined_at(
            after_steps(started(b), n),
        ) by {
            lemma_runs_stay_defined(started(b), n);
        }
    }
}

} // verus!

verus! {

/// The value of `e` in a function whose parameters are named `pnames` and hold `locals`, when
/// `e` has one without calls: literals are themselves, a name is the last parameter with that
/// name, and arithmetic is exact on `i64` (division rounds toward zero), with no value on a
/// division by zero or an overflow.
pub open spec fn eval_expr(e: ExprView, pnames: Seq<Seq<char>>, locals: Seq<ValueView>) -> Option<ValueView>
    decreases e,
{
    match e {
        ExprView::IntLit(n, _) => Some(ValueView::Int(n)),
        ExprView::StringLit(s, _) => Some(ValueView::Str(s)),
        ExprView::Ident(name, _) => match last_index(pnames, name) {
            Some(i) => if i < locals.len() {
                Some(locals[i])
            } else {
                None
            },
            None => None,
        },
        ExprView::Binary { op, lhs, rhs, .. } => match (eval_expr(*lhs, pnames, locals), eval_expr(*rhs, pnames, locals)) {
            (Some(ValueView::Int(a)), Some(ValueView::Int(b))) => {
                let v: int = match op {
                    BinOp::Add => a + b,
                    BinOp::Sub => a - b,
                    BinOp::Mul => a * b,
                    BinOp::Div => trunc_div(a as int, b as int),
                };
                if (op == BinOp::Div && b == 0) || v < i64::MIN || v > i64::MAX {
                    None
                } else {
                    Some(ValueView::Int(v as i64))
                }
            },
            _ => None,
        },
        ExprView::Call { .. } => None,
    }
}

/// The machine `s` with `v` pushed and its current frame moved on to instruction `ip`.
pub open spec fn pushed_at(s: VmView, v: ValueView, ip: usize) -> VmView {
    let fi = s.frames.len() - 1;
    VmView {
        stack: s.stack.push(v),
        frames: s.frames.update(fi, FrameView { func: s.frames[fi].func, ip, locals: s.frames[fi].locals }),
        program: s.program,
    }
}

/// Compiling an expression that has a value (so has no calls) only appends to the chunk.
proof fn lemma_expr_code_appends(
    c: ChunkView,
    e: ExprView,
    pnames: Seq<Seq<char>>,
    fnames: Seq<Seq<char>>,
    locals: Seq<ValueView>,
)
    requires
        eval_expr(e, pnames, locals) is Some,
    ensures
        compile_expr_spec(c, e, pnames, fnames) matches Ok(c2) ==> c.ops.is_prefix_of(c2.ops) && c.strings.is_prefix_of(
            c2.strings,
        ) && c.ops.len() < c2.ops.len(),
    decreases e,
{
    assert(c.strings.is_prefix_of(c.strings));
    match e {
        ExprView::StringLit(t, _) => {
            lemma_intern_laws(c, t);
        },
        ExprView::Binary { lhs, rhs, .. } => {
            lemma_expr_code_appends(c, *lhs, pnames, fnames, locals);
            if let Ok(c1) = compile_expr_spec(c, *lhs, pnames, fnames) {
                lemma_expr_code_appends(c1, *rhs, pnames, fnames, locals);
                if let Ok(cr) = compile_expr_spec(c1, *rhs, pnames, fnames) {
                    assert forall|k: int| 0 <= k < c.ops.len() implies c.ops[k] == cr.ops[k] by {
                        assert(c.ops[k] == c1.ops[k]);
                    }
                    assert forall|k: int| 0 <= k < c.strings.len() implies c.strings[k] == cr.strings[k] by {
                        assert(c.strings[k] == c1.strings[k]);
                    }
                }
            }
        },
        _ => {},
    }
}

/// The code compiled for an expression computes its value: when the current frame is about
/// to run that code (and the function holds it), running it pushes the expression's value on
/// the stack and leaves the frame just after the code, with nothing else changed.
pub proof fn lemma_expr_code_computes(s: VmView, e: ExprView, c: ChunkView, pnames: Seq<Seq<char>>, fnames: Seq<Seq<char>>)
    requires
        s.frames.len() > 0,
        s.frames.last().func < s.program.chunks.len(),
        s.frames.last().ip == c.ops.len(),
        s.frames.last().locals.len() == pnames.len(),
        pnames.len() <= 256,
        s.program.chunks[s.frames.last().func as int].ops.len() < usize::MAX,
        s.program.chunks[s.frames.last().func as int].strings.len() <= usize::MAX,
        compile_expr_spec(c, e, pnames, fnames) matches Ok(c2) && c2.ops.is_prefix_of(
            s.program.chunks[s.frames.last().func as int].ops,
        ) && c2.strings.is_prefix_of(s.program.chunks[s.frames.last().func as int].strings),
        eval_expr(e, pnames, s.frames.last().locals) is Some,
    ensures
        compile_expr_spec(c, e, pnames, fnames) matches Ok(c2) && {
            &&& c.ops.is_prefix_of(c2.ops)
            &&& c.strings.is_prefix_of(c2.strings)
            &&& c.ops.len() < c2.ops.len()
            &&& after_steps(s, (c2.ops.len() - c.ops.len()) as nat) == pushed_at(
                s,
                eval_expr(e, pnames, s.frames.last().locals)->0,
                c2.ops.len() as usize,
            )
            &&& forall|f: nat|
                #![trigger run_spec(s, (c2.ops.len() - c.ops.len()) as nat + f)]
                run_spec(s, (c2.ops.len() - c.ops.len()) as nat + f) == run_spec(
                    pushed_at(s, eval_expr(e, pnames, s.frames.last().locals)->0, c2.ops.len() as usize),
                    f,
                )
        },
    decreases e,
{
    let fi = s.frames.len() - 1;
    let fr = s.frames[fi];
    let chunk = s.program.chunks[fr.func as int];
    let c2 = compile_expr_spec(c, e, pnames, fnames)->Ok_0;
    let v = eval_expr(e, pnames, fr.locals)->0;
    assert(after_steps(step_spec(s).0, 0) == step_spec(s).0);
    assert(after_steps(s, 1) == step_spec(s).0);
    assert(c.strings.is_prefix_of(c.strings));
    if !(e is Binary) && step_spec(s).1 == Ok::<StepView, DiagnosticView>(StepView::Continue) {
        assert forall|f: nat| run_spec(s, 1 + f) == run_spec(step_spec(s).0, f) by {
            assert((1 + f - 1) as nat == f);
        }
    }
    match e {
        ExprView::IntLit(n, _) => {
            assert(chunk.ops[c.ops.len() as int] == c2.ops[c.ops.len() as int]);
            assert(step_spec(s).0 =~~= pushed_at(s, v, c2.ops.len() as usize));
            assert(c.ops.is_prefix_of(c2.ops));
            assert(c.strings.is_prefix_of(c2.strings));
            assert(c.ops.len() < c2.ops.len());
            assert((c2.ops.len() - c.ops.len()) as nat == 1);
            assert(after_steps(s, (c2.ops.len() - c.ops.len()) as nat) == pushed_at(s, v, c2.ops.len() as usize));
        },
        ExprView::StringLit(t, _) => {
            lemma_intern_laws(c, t);
            let (ci, i) = intern_spec(c, t);
            assert(c2.strings == ci.strings);
            assert(i < c2.strings.len() <= chunk.strings.len());
            assert((i as usize) as int == i);
            assert(chunk.ops[c.ops.len() as int] == c2.ops[c.ops.len() as int]);
            assert(chunk.strings[i] == c2.strings[i]);
            assert(step_spec(s).0 =~~= pushed_at(s, v, c2.ops.len() as usize));
            assert(c.ops.is_prefix_of(c2.ops));
        },
        ExprView::Ident(name, _) => {
            lemma_last_index_bounds(pnames, name);
            let i = last_index(pnames, name)->0;
            assert((i as u8) as int == i);
            assert(chunk.ops[c.ops.len() as int] == c2.ops[c.ops.len() as int]);
            assert(step_spec(s).0 =~~= pushed_at(s, v, c2.ops.len() as usize));
            assert(c.ops.is_prefix_of(c2.ops));
        },
        ExprView::Binary { op, lhs, rhs, .. } => {
            let c1 = compile_expr_spec(c, *lhs, pnames, fnames)->Ok_0;
            let cr = compile_expr_spec(c1, *rhs, pnames, fnames)->Ok_0;
            assert(c2 == emit(cr, binop_code(op)));
            assert(cr.ops.is_prefix_of(c2.ops));
            assert(cr.ops.is_prefix_of(chunk.ops));
            assert(cr.strings == c2.strings);
            let a = eval_expr(*lhs, pnames, fr.locals)->0;
            let b = eval_expr(*rhs, pnames, fr.locals)->0;
            // The right operand's code comes after the left operand's, so the chunk holds both.
            lemma_expr_code_appends(c, *lhs, pnames, fnames, fr.locals);
            lemma_expr_code_appends(c1, *rhs, pnames, fnames, fr.locals);
            assert(c1.ops.is_prefix_of(chunk.ops)) by {
                assert forall|k: int| 0 <= k < c1.ops.len() implies c1.ops[k] == chunk.ops[k] by {
                    assert(c1.ops[k] == cr.ops[k]);
                }
            }
            assert(c1.strings.is_prefix_of(chunk.strings)) by {
                assert forall|k: int| 0 <= k < c1.strings.len() implies c1.strings[k] == chunk.strings[k] by {
                    assert(c1.strings[k] == cr.strings[k]);
                }
            }
            lemma_expr_code_computes(s, *lhs, c, pnames, fnames);
            let n1 = (c1.ops.len() - c.ops.len()) as nat;
            let s1 = after_steps(s, n1);
            assert(s1.frames.last() == FrameView { func: fr.func, ip: c1.ops.len() as usize, locals: fr.locals });
            lemma_expr_code_computes(s1, *rhs, c1, pnames, fnames);
            let n2 = (cr.ops.len() - c1.ops.len()) as nat;
            let s2 = after_steps(s1, n2);
            lemma_after_steps_add(s, n1, n2);
            lemma_after_steps_add(s, n1 + n2, 1);
            assert(after_steps(step_spec(s2).0, 0) == step_spec(s2).0);
            assert(after_steps(s2, 1) == step_spec(s2).0);
            assert(s2.stack == s.stack.push(a).push(b));
            assert(s2.frames.last() == FrameView { func: fr.func, ip: cr.ops.len() as usize, locals: fr.locals });
            assert(chunk.ops[cr.ops.len() as int] == c2.ops[cr.ops.len() as int]);
            assert(s2.stack.drop_last() == s.stack.push(a));
            assert(s2.stack.drop_last().drop_last() == s.stack);
            if b is Int && b->Int_0 != 0 {
                lemma_trunc_div(a->Int_0 as int, b->Int_0 as int);
            }
            assert(s2.frames.update(fi, FrameView { func: fr.func, ip: c2.ops.len() as usize, locals: fr.locals }) =~~= s.frames.update(fi, FrameView { func: fr.func, ip: c2.ops.len() as usize, locals: fr.locals }));
            assert(step_spec(s2).0 =~~= pushed_at(s, v, c2.ops.len() as usize));
            assert(step_spec(s2).1 == Ok::<StepView, DiagnosticView>(StepView::Continue));
            let s3 = pushed_at(s, v, c2.ops.len() as usize);
            assert forall|f: nat| #![trigger run_spec(s, n1 + n2 + 1 + f)] run_spec(s, n1 + n2 + 1 + f) == run_spec(s3, f) by {
                assert(run_spec(s, n1 + (n2 + 1 + f)) == run_spec(s1, n2 + 1 + f));
                assert(run_spec(s1, n2 + (1 + f)) == run_spec(s2, 1 + f));
                assert((1 + f - 1) as nat == f);
                assert(run_spec(s2, 1 + f) == run_spec(s3, f));
                assert(n1 + (n2 + 1 + f) == n1 + n2 + 1 + f);
                assert(n2 + (1 + f) == n2 + 1 + f);
            }
            assert((c2.ops.len() - c.ops.len()) as nat == n1 + n2 + 1);
            assert(c.ops.is_prefix_of(c2.ops)) by {
                assert forall|k: int| 0 <= k < c.ops.len() implies c.ops[k] == c2.ops[k] by {
                    assert(c.ops[k] == c1.ops[k]);
                    assert(c1.ops[k] == cr.ops[k]);
                }
            }
            assert(c.strings.is_prefix_of(c2.strings)) by {
                assert forall|k: int| 0 <= k < c.strings.len() implies c.strings[k] == c2.strings[k] by {
                    assert(c.strings[k] == c1.strings[k]);
                    assert(c1.strings[k] == cr.strings[k]);
                }
            }
        },
        ExprView::Call { .. } => {},
    }
}

/// The machine `s` with its current frame moved on to instruction `ip`.
pub open spec fn moved_to(s: VmView, ip: usize) -> VmView {
    let fi = s.frames.len() - 1;
    VmView {
        stack: s.stack,
        frames: s.frames.update(fi, FrameView { func: s.frames[fi].func, ip, locals: s.frames[fi].locals }),
        program: s.program,
    }
}

/// A `print(e);` statement prints the text that `e` evaluates to, once, and otherwise leaves
/// the machine as it found it: its code, run, asks for exactly that line and then goes on
/// after the statement with the stack unchanged.
pub proof fn lemma_print_statement_prints(
    s: VmView,
    e: ExprView,
    span: Span,
    c: ChunkView,
    pnames: Seq<Seq<char>>,
    fnames: Seq<Seq<char>>,
)
    requires
        s.frames.len() > 0,
        s.frames.last().func < s.program.chunks.len(),
        s.frames.last().ip == c.ops.len(),
        s.frames.last().locals.len() == pnames.len(),
        pnames.len() <= 256,
        s.program.chunks[s.frames.last().func as int].ops.len() < usize::MAX,
        s.program.chunks[s.frames.last().func as int].strings.len() <= usize::MAX,
        compile_stmt_spec(c, StmtView::Expr(ExprView::Call { callee: "print"@, args: seq![e], span }), pnames, fnames)
            matches Ok(c2) && c2.ops.is_prefix_of(s.program.chunks[s.frames.last().func as int].ops)
            && c2.strings.is_prefix_of(s.program.chunks[s.frames.last().func as int].strings),
        eval_expr(e, pnames, s.frames.last().locals) is Some,
        eval_expr(e, pnames, s.frames.last().locals)->0 is Str,
    ensures
        compile_stmt_spec(c, StmtView::Expr(ExprView::Call { callee: "print"@, args: seq![e], span }), pnames, fnames)
            matches Ok(c2) && forall|f: nat|
            #![trigger run_spec(s, (c2.ops.len() - c.ops.len()) as nat + f)]
            run_spec(s, (c2.ops.len() - c.ops.len()) as nat + f) == (
                seq![eval_expr(e, pnames, s.frames.last().locals)->0->Str_0] + run_spec(moved_to(s, c2.ops.len() as usize), f).0,
                run_spec(moved_to(s, c2.ops.len() as usize), f).1,
            ),
{
    reveal_strlit("print");
    let fi = s.frames.len() - 1;
    let fr = s.frames[fi];
    let chunk = s.program.chunks[fr.func as int];
    let call = ExprView::Call { callee: "print"@, args: seq![e], span };
    let c2 = compile_stmt_spec(c, StmtView::Expr(call), pnames, fnames)->Ok_0;
    let ce = compile_expr_spec(c, e, pnames, fnames)->Ok_0;
    let t = eval_expr(e, pnames, fr.locals)->0->Str_0;
    assert(seq![e][0] == e && seq![e].len() == 1);
    assert(compile_expr_spec(c, call, pnames, fnames) == compile_call_spec(c, "print"@, seq![e], span, pnames, fnames));
    assert(compile_call_spec(c, "print"@, seq![e], span, pnames, fnames) == Ok::<ChunkView, DiagnosticView>(
        emit(emit(ce, Op::BuiltinPrint), Op::PushUnit),
    ));
    assert(c2 == emit(emit(emit(ce, Op::BuiltinPrint), Op::PushUnit), Op::Pop));
    assert(ce.ops.is_prefix_of(chunk.ops)) by {
        assert forall|k: int| 0 <= k < ce.ops.len() implies ce.ops[k] == chunk.ops[k] by {
            assert(ce.ops[k] == c2.ops[k]);
        }
    }
    assert(ce.strings == c2.strings);
    lemma_expr_code_computes(s, e, c, pnames, fnames);
    let n = (ce.ops.len() - c.ops.len()) as nat;
    let s1 = pushed_at(s, ValueView::Str(t), ce.ops.len() as usize);
    let k = ce.ops.len() as int;
    assert(chunk.ops[k] == Op::BuiltinPrint && chunk.ops[k + 1] == Op::PushUnit && chunk.ops[k + 2] == Op::Pop) by {
        assert(chunk.ops[k] == c2.ops[k]);
        assert(chunk.ops[k + 1] == c2.ops[k + 1]);
        assert(chunk.ops[k + 2] == c2.ops[k + 2]);
    }
    let s2 = step_spec(s1).0;
    assert(step_spec(s1).1 == Ok::<StepView, DiagnosticView>(StepView::Print(t)));
    assert(s2.stack =~= s.stack);
    let s3 = step_spec(s2).0;
    assert(step_spec(s2).1 == Ok::<StepView, DiagnosticView>(StepView::Continue));
    let s4 = step_spec(s3).0;
    assert(step_spec(s3).1 == Ok::<StepView, DiagnosticView>(StepView::Continue));
    assert(s3.stack.drop_last() =~= s.stack);
    assert(c2.ops.len() == k + 3);
    assert(s1.frames.last().ip == k);
    assert(s2.frames.last().ip == k + 1);
    assert(s3.frames.last().ip == k + 2);
    assert(s4.frames.last().ip == k + 3);
    assert(s4.frames.len() == s.frames.len());
    assert(s4.stack =~= s.stack);
    assert(s4.frames =~~= moved_to(s, c2.ops.len() as usize).frames);
    assert(s4 =~~= moved_to(s, c2.ops.len() as usize));
    assert forall|f: nat| #![trigger run_spec(s, (c2.ops.len() - c.ops.len()) as nat + f)] run_spec(
        s,
        (c2.ops.len() - c.ops.len()) as nat + f,
    ) == (seq![t] + run_spec(s4, f).0, run_spec(s4, f).1) by {
        assert((c2.ops.len() - c.ops.len()) as nat + f == n + (3 + f));
        assert(run_spec(s, n + (3 + f)) == run_spec(s1, 3 + f));
        assert((3 + f - 1) as nat == 2 + f && (2 + f - 1) as nat == 1 + f && (1 + f - 1) as nat == f);
        assert(run_spec(s3, 1 + f) == run_spec(s4, f));
        assert(run_spec(s2, 2 + f) == run_spec(s3, 1 + f));
    }
}

/// Every compiled function ends by giving control back, so no frame runs past its code:
/// `main` ends with `Halt` and any other function with `Ret`; a function whose body does not
/// end with `return` returns `Unit` when it is declared `Void` or with no return type.
pub proof fn lemma_functions_end_in_return(f: FnDefView, fnames: Seq<Seq<char>>)
    ensures
        compile_fn_spec(f, fnames) matches Ok(c) ==> {
            let ends_return = f.body.stmts.len() > 0 && f.body.stmts.last() is Return;
            let void = f.ret_ty is None || f.ret_ty == Some(TypeExpr::Void);
            &&& c.ops.len() > 0
            &&& f.name == "main"@ ==> c.ops.last() == Op::Halt
            &&& f.name != "main"@ ==> c.ops.last() == Op::Ret
            &&& (f.name != "main"@ && !ends_return && void) ==> c.ops.len() >= 2 && c.ops[c.ops.len() - 2] == Op::PushUnit
        },
{
    let stmts = f.body.stmts;
    let empty = ChunkView { ops: Seq::empty(), strings: Seq::empty() };
    if stmts.len() > 0 && stmts.last() is Return {
        if let Ok(c1) = compile_stmts_spec(empty, stmts.drop_last(), param_names(f.params), fnames) {
            if let StmtView::Return { expr, .. } = stmts.last() {
                if let Ok(c2) = compile_expr_spec(c1, expr, param_names(f.params), fnames) {
                    assert(compile_stmts_spec(empty, stmts, param_names(f.params), fnames) == Ok::<ChunkView, DiagnosticView>(
                        emit(c2, Op::Ret),
                    ));
                }
            }
        }
    }
}

/// The values of the arguments from index `k` on, in order.
pub open spec fn arg_values(args: Seq<ExprView>, k: int, pnames: Seq<Seq<char>>, locals: Seq<ValueView>) -> Seq<ValueView> {
    Seq::new((args.len() - k) as nat, |j: int| eval_expr(args[k + j], pnames, locals)->0)
}

/// The machine `s` with `vs` pushed, in order, and its current frame moved on to `ip`.
pub open spec fn pushed_all_at(s: VmView, vs: Seq<ValueView>, ip: usize) -> VmView {
    let fi = s.frames.len() - 1;
    VmView {
        stack: s.stack + vs,
        frames: s.frames.update(fi, FrameView { func: s.frames[fi].func, ip, locals: s.frames[fi].locals }),
        program: s.program,
    }
}

/// Compiling arguments that have values only appends to the chunk.
proof fn lemma_args_code_appends(
    c: ChunkView,
    args: Seq<ExprView>,
    k: int,
    pnames: Seq<Seq<char>>,
    fnames: Seq<Seq<char>>,
    locals: Seq<ValueView>,
)
    requires
        0 <= k <= args.len(),
        forall|j: int| k <= j < args.len() ==> #[trigger] eval_expr(args[j], pnames, locals) is Some,
    ensures
        compile_args_spec(c, args, k, pnames, fnames) matches Ok(c2) ==> c.ops.is_prefix_of(c2.ops)
            && c.strings.is_prefix_of(c2.strings) && c2.ops.len() - c.ops.len() >= args.len() - k,
    decreases args.len() - k,
{
    assert(c.strings.is_prefix_of(c.strings));
    if k < args.len() {
        assert(eval_expr(args[k], pnames, locals) is Some);
        lemma_expr_code_appends(c, args[k], pnames, fnames, locals);
        if let Ok(c1) = compile_expr_spec(c, args[k], pnames, fnames) {
            lemma_args_code_appends(c1, args, k + 1, pnames, fnames, locals);
            if let Ok(c2) = compile_args_spec(c1, args, k + 1, pnames, fnames) {
                assert forall|m: int| 0 <= m < c.ops.len() implies c.ops[m] == c2.ops[m] by {
                    assert(c.ops[m] == c1.ops[m]);
                }
                assert forall|m: int| 0 <= m < c.strings.len() implies c.strings[m] == c2.strings[m] by {
                    assert(c.strings[m] == c1.strings[m]);
                }
            }
        }
    }
}

/// The code compiled for arguments computes their values: run, it pushes the value of each
/// argument from `k` on, in order, and leaves the frame just after the code.
pub proof fn lemma_args_code_computes(
    s: VmView,
    args: Seq<ExprView>,
    k: int,
    c: ChunkView,
    pnames: Seq<Seq<char>>,
    fnames: Seq<Seq<char>>,
)
    requires
        0 <= k <= args.len(),
        s.frames.len() > 0,
        s.frames.last().func < s.program.chunks.len(),
        s.frames.last().ip == c.ops.len(),
        s.frames.last().locals.len() == pnames.len(),
        pnames.len() <= 256,
        s.program.chunks[s.frames.last().func as int].ops.len() < usize::MAX,
        s.program.chunks[s.frames.last().func as int].strings.len() <= usize::MAX,
        compile_args_spec(c, args, k, pnames, fnames) matches Ok(c2) && c2.ops.is_prefix_of(
            s.program.chunks[s.frames.last().func as int].ops,
        ) && c2.strings.is_prefix_of(s.program.chunks[s.frames.last().func as int].strings),
        forall|j: int| k <= j < args.len() ==> #[trigger] eval_expr(args[j], pnames, s.frames.last().locals) is Some,
    ensures
        compile_args_spec(c, args, k, pnames, fnames) matches Ok(c2) && {
            let n = (c2.ops.len() - c.ops.len()) as nat;
            let t = pushed_all_at(s, arg_values(args, k, pnames, s.frames.last().locals), c2.ops.len() as usize);
            &&& after_steps(s, n) == t
            &&& forall|f: nat| #![trigger run_spec(s, n + f)] run_spec(s, n + f) == run_spec(t, f)
        },
    decreases args.len() - k,
{
    let fi = s.frames.len() - 1;
    let fr = s.frames[fi];
    let chunk = s.program.chunks[fr.func as int];
    let c2 = compile_args_spec(c, args, k, pnames, fnames)->Ok_0;
    lemma_args_code_appends(c, args, k, pnames, fnames, fr.locals);
    if k == args.len() {
        assert(c2 == c);
        assert(arg_values(args, k, pnames, fr.locals) =~= Seq::<ValueView>::empty());
        assert(s.stack + Seq::<ValueView>::empty() =~= s.stack);
        assert(s.frames.update(fi, FrameView { func: fr.func, ip: c2.ops.len() as usize, locals: fr.locals }) =~~= s.frames);
        assert(pushed_all_at(s, arg_values(args, k, pnames, fr.locals), c2.ops.len() as usize) =~~= s);
        assert(after_steps(s, 0) == s);
    } else {
        assert(eval_expr(args[k], pnames, fr.locals) is Some);
        let ce = compile_expr_spec(c, args[k], pnames, fnames)->Ok_0;
        lemma_args_code_appends(ce, args, k + 1, pnames, fnames, fr.locals);
        assert(ce.ops.is_prefix_of(chunk.ops)) by {
            assert forall|m: int| 0 <= m < ce.ops.len() implies ce.ops[m] == chunk.ops[m] by {
                assert(ce.ops[m] == c2.ops[m]);
            }
        }
        assert(ce.strings.is_prefix_of(chunk.strings)) by {
            assert forall|m: int| 0 <= m < ce.strings.len() implies ce.strings[m] == chunk.strings[m] by {
                assert(ce.strings[m] == c2.strings[m]);
            }
        }
        lemma_expr_code_computes(s, args[k], c, pnames, fnames);
        let v = eval_expr(args[k], pnames, fr.locals)->0;
        let n1 = (ce.ops.len() - c.ops.len()) as nat;
        let s1 = pushed_at(s, v, ce.ops.len() as usize);
        assert(s1.frames.last() == FrameView { func: fr.func, ip: ce.ops.len() as usize, locals: fr.locals });
        assert(s1.frames.len() == s.frames.len());
        lemma_args_code_computes(s1, args, k + 1, ce, pnames, fnames);
        let n2 = (c2.ops.len() - ce.ops.len()) as nat;
        let vs = arg_values(args, k + 1, pnames, fr.locals);
        let t = pushed_all_at(s1, vs, c2.ops.len() as usize);
        lemma_after_steps_add(s, n1, n2);
        assert(arg_values(args, k, pnames, fr.locals) =~= seq![v] + vs);
        assert(s.stack.push(v) + vs =~= s.stack + (seq![v] + vs));
        assert(s1.frames[fi] == FrameView { func: fr.func, ip: ce.ops.len() as usize, locals: fr.locals });
        assert(t.stack =~= s.stack + arg_values(args, k, pnames, fr.locals));
        assert(t.frames =~~= s.frames.update(fi, FrameView { func: fr.func, ip: c2.ops.len() as usize, locals: fr.locals }));
        assert(t =~~= pushed_all_at(s, arg_values(args, k, pnames, fr.locals), c2.ops.len() as usize));
        assert((c2.ops.len() - c.ops.len()) as nat == n1 + n2);
        assert forall|f: nat| #![trigger run_spec(s, n1 + n2 + f)] run_spec(s, n1 + n2 + f) == run_spec(t, f) by {
            assert(run_spec(s, n1 + (n2 + f)) == run_spec(s1, n2 + f));
            assert(n1 + (n2 + f) == n1 + n2 + f);
        }
    }
}

/// A call of a function of the program evaluates its arguments in order and enters the last
/// function with that name, handing it the argument values as its locals: after the call's
/// code the caller's stack is as before, the caller's frame waits just after the call, and the
/// new frame starts at the callee's first instruction.
pub proof fn lemma_call_code_enters_callee(
    s: VmView,
    callee: Seq<char>,
    args: Seq<ExprView>,
    span: Span,
    c: ChunkView,
    pnames: Seq<Seq<char>>,
    fnames: Seq<Seq<char>>,
)
    requires
        callee != "print"@,
        args.len() < 255,
        fnames.len() <= 65536,
        s.frames.len() > 0,
        s.frames.last().func < s.program.chunks.len(),
        s.frames.last().ip == c.ops.len(),
        s.frames.last().locals.len() == pnames.len(),
        pnames.len() <= 256,
        s.program.chunks[s.frames.last().func as int].ops.len() < usize::MAX,
        s.program.chunks[s.frames.last().func as int].strings.len() <= usize::MAX,
        compile_call_spec(c, callee, args, span, pnames, fnames) matches Ok(c2) && c2.ops.is_prefix_of(
            s.program.chunks[s.frames.last().func as int].ops,
        ) && c2.strings.is_prefix_of(s.program.chunks[s.frames.last().func as int].strings),
        forall|j: int| 0 <= j < args.len() ==> #[trigger] eval_expr(args[j], pnames, s.frames.last().locals) is Some,
    ensures
        compile_call_spec(c, callee, args, span, pnames, fnames) matches Ok(c2) && last_index(fnames, callee) matches Some(
            fid,
        ) && {
            let n = (c2.ops.len() - c.ops.len()) as nat;
            let t = after_steps(s, n);
            &&& 0 <= fid < fnames.len() && fnames[fid] == callee
            &&& forall|j: int| fid < j < fnames.len() ==> fnames[j] != callee
            &&& t.stack == s.stack
            &&& t.frames == moved_to(s, c2.ops.len() as usize).frames.push(
                FrameView { func: fid as usize, ip: 0, locals: arg_values(args, 0, pnames, s.frames.last().locals) },
            )
            &&& t.program == s.program
            &&& forall|f: nat| #![trigger run_spec(s, n + f)] run_spec(s, n + f) == run_spec(t, f)
        },
{
    let fi = s.frames.len() - 1;
    let fr = s.frames[fi];
    let chunk = s.program.chunks[fr.func as int];
    let c2 = compile_call_spec(c, callee, args, span, pnames, fnames)->Ok_0;
    lemma_last_index_bounds(fnames, callee);
    lemma_last_index_is_last(fnames, callee);
    let fid = last_index(fnames, callee)->0;
    let ca = compile_args_spec(c, args, 0, pnames, fnames)->Ok_0;
    let argc: u8 = args.len() as u8;
    assert(c2 == emit(ca, Op::Call { func: fid as u16, argc }));
    assert((fid as u16) as usize == fid);
    assert(ca.ops.is_prefix_of(chunk.ops)) by {
        assert forall|m: int| 0 <= m < ca.ops.len() implies ca.ops[m] == chunk.ops[m] by {
            assert(ca.ops[m] == c2.ops[m]);
        }
    }
    assert(ca.strings == c2.strings);
    lemma_args_code_computes(s, args, 0, c, pnames, fnames);
    lemma_args_code_appends(c, args, 0, pnames, fnames, fr.locals);
    let n1 = (ca.ops.len() - c.ops.len()) as nat;
    let vs = arg_values(args, 0, pnames, fr.locals);
    let s1 = pushed_all_at(s, vs, ca.ops.len() as usize);
    assert(chunk.ops[ca.ops.len() as int] == c2.ops[ca.ops.len() as int]);
    assert(s1.frames.last() == FrameView { func: fr.func, ip: ca.ops.len() as usize, locals: fr.locals });
    let s2 = step_spec(s1).0;
    assert(vs.len() == args.len());
    assert(s1.stack.len() == s.stack.len() + args.len());
    assert(step_spec(s1).1 == Ok::<StepView, DiagnosticView>(StepView::Continue));
    assert(s1.stack.take(s.stack.len() as int) =~= s.stack);
    assert(s1.stack.skip(s.stack.len() as int) =~= vs);
    assert(s2.stack =~= s.stack);
    assert(s2.frames =~~= moved_to(s, c2.ops.len() as usize).frames.push(FrameView { func: fid as usize, ip: 0, locals: vs }));
    lemma_after_steps_add(s, n1, 1);
    assert(after_steps(step_spec(s1).0, 0) == step_spec(s1).0);
    assert(after_steps(s1, 1) == s2);
    assert((c2.ops.len() - c.ops.len()) as nat == n1 + 1);
    assert forall|f: nat| #![trigger run_spec(s, n1 + 1 + f)] run_spec(s, n1 + 1 + f) == run_spec(s2, f) by {
        assert(run_spec(s, n1 + (1 + f)) == run_spec(s1, 1 + f));
        assert((1 + f - 1) as nat == f);
        assert(n1 + (1 + f) == n1 + 1 + f);
    }
}

/// `last_index` finds the last position holding the name.
proof fn lemma_last_index_is_last(names: Seq<Seq<char>>, name: Seq<char>)
    ensures
        last_index(names, name) matches Some(i) ==> forall|j: int| i < j < names.len() ==> names[j] != name,
    decreases names.len(),
{
    if names.len() > 0 && names.last() != name {
        lemma_last_index_is_last(names.drop_last(), name);
        lemma_last_index_bounds(names.drop_last(), name);
        if let Some(i) = last_index(names, name) {
            assert forall|j: int| i < j < names.len() implies names[j] != name by {
                if j < names.len() - 1 {
                    assert(names[j] == names.drop_last()[j]);
                }
            }
        }
    }
}

/// A `return e;` statement leaves the value of `e` on top of the stack and resumes the caller
/// (or finishes the program from the last frame).
pub proof fn lemma_return_statement_returns(
    s: VmView,
    e: ExprView,
    span: Span,
    c: ChunkView,
    pnames: Seq<Seq<char>>,
    fnames: Seq<Seq<char>>,
)
    requires
        s.frames.len() > 0,
        s.frames.last().func < s.program.chunks.len(),
        s.frames.last().ip == c.ops.len(),
        s.frames.last().locals.len() == pnames.len(),
        pnames.len() <= 256,
        s.program.chunks[s.frames.last().func as int].ops.len() < usize::MAX,
        s.program.chunks[s.frames.last().func as int].strings.len() <= usize::MAX,
        compile_stmt_spec(c, StmtView::Return { expr: e, span }, pnames, fnames) matches Ok(c2) && c2.ops.is_prefix_of(
            s.program.chunks[s.frames.last().func as int].ops,
        ) && c2.strings.is_prefix_of(s.program.chunks[s.frames.last().func as int].strings),
        eval_expr(e, pnames, s.frames.last().locals) is Some,
    ensures
        compile_stmt_spec(c, StmtView::Return { expr: e, span }, pnames, fnames) matches Ok(c2) && {
            let n = (c2.ops.len() - c.ops.len()) as nat;
            let t = after_steps(s, (n - 1) as nat);
            &&& n >= 2
            &&& step_spec(t).0.stack == s.stack.push(eval_expr(e, pnames, s.frames.last().locals)->0)
            &&& step_spec(t).0.frames == s.frames.drop_last()
            &&& step_spec(t).1 == Ok::<StepView, DiagnosticView>(
                if s.frames.len() == 1 { StepView::Finished } else { StepView::Continue },
            )
        },
{
    let fi = s.frames.len() - 1;
    let fr = s.frames[fi];
    let chunk = s.program.chunks[fr.func as int];
    let c2 = compile_stmt_spec(c, StmtView::Return { expr: e, span }, pnames, fnames)->Ok_0;
    let ce = compile_expr_spec(c, e, pnames, fnames)->Ok_0;
    assert(c2 == emit(ce, Op::Ret));
    assert(ce.ops.is_prefix_of(chunk.ops)) by {
        assert forall|m: int| 0 <= m < ce.ops.len() implies ce.ops[m] == chunk.ops[m] by {
            assert(ce.ops[m] == c2.ops[m]);
        }
    }
    assert(ce.strings == c2.strings);
    lemma_expr_code_computes(s, e, c, pnames, fnames);
    let v = eval_expr(e, pnames, fr.locals)->0;
    let t = pushed_at(s, v, ce.ops.len() as usize);
    assert((((c2.ops.len() - c.ops.len()) as nat) - 1) as nat == (ce.ops.len() - c.ops.len()) as nat);
    assert(chunk.ops[ce.ops.len() as int] == c2.ops[ce.ops.len() as int]);
    let nf = FrameView { func: fr.func, ip: (ce.ops.len() + 1) as usize, locals: fr.locals };
    assert(t.frames.update(fi, nf).drop_last() =~= s.frames.drop_last());
}

} // verus!
