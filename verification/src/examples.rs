//! A worked program, taken through the models of the type checker, the compiler and the
//! machine.

use vstd::prelude::*;

use crate::ast::{BlockView, ExprView, FnDefView, ParamView, ProgramView, StmtView, TypeExpr};
use crate::compile::{
    compile_args_spec, compile_call_spec, compile_expr_spec, compile_fn_spec, compile_fns_spec, compile_spec,
    compile_stmts_spec, fn_names, last_index, param_names,
};
use crate::errors::{DiagnosticView, Span};
use crate::types::{
    check_args_spec, check_call_spec, check_fn_spec, check_fns_spec, check_program_spec, check_stmts_spec, env_lookup,
    check_expr_spec, env_of, find_fn, first_dup, ret_ty_of, ty_of, Ty,
};
use crate::vm::{run_spec, started, step_spec, BytecodeView, ChunkView, FrameView, Op, StepView, ValueView, VmView};

verus! {

/// The bytecode of
/// `fn g() { } fn h() -> String { g(); return "ok"; }
///  fn p(a: String, b: String) { print(a); print(b); } fn main() { p("x", h()); }`.
pub open spec fn void_call_bytecode() -> BytecodeView {
    BytecodeView {
        chunks: seq![
            ChunkView { ops: seq![Op::PushUnit, Op::Ret], strings: seq![] },
            ChunkView {
                ops: seq![Op::Call { func: 0, argc: 0 }, Op::Pop, Op::PushStr(0), Op::Ret],
                strings: seq![seq!['o', 'k']],
            },
            ChunkView {
                ops: seq![
                    Op::LoadParam(0),
                    Op::BuiltinPrint,
                    Op::PushUnit,
                    Op::Pop,
                    Op::LoadParam(1),
                    Op::BuiltinPrint,
                    Op::PushUnit,
                    Op::Pop,
                    Op::PushUnit,
                    Op::Ret,
                ],
                strings: seq![],
            },
            ChunkView {
                ops: seq![Op::PushStr(0), Op::Call { func: 1, argc: 0 }, Op::Call { func: 2, argc: 2 }, Op::Pop, Op::Halt],
                strings: seq![seq!['x']],
            },
        ],
        entry: 3,
        func_names: seq![seq!['g'], seq!['h'], seq!['p'], seq!['m', 'a', 'i', 'n']],
    }
}

/// No source position: spans play no part in type checking verdicts or code generation.
pub open spec fn nowhere() -> Span {
    Span { start: 0, end: 0 }
}

/// A function definition, at no source position.
pub open spec fn fn_def(name: Seq<char>, params: Seq<ParamView>, ret_ty: Option<TypeExpr>, stmts: Seq<StmtView>) -> FnDefView {
    FnDefView { name, params, ret_ty, body: BlockView { stmts, span: nowhere() }, span: nowhere() }
}

/// A call expression.
pub open spec fn call(callee: Seq<char>, args: Seq<ExprView>) -> ExprView {
    ExprView::Call { callee, args, span: nowhere() }
}

/// A `String` parameter.
pub open spec fn string_param(name: Seq<char>) -> ParamView {
    ParamView { name, ty: TypeExpr::String, span: nowhere() }
}

/// The syntax tree of
/// `fn g() { } fn h() -> String { g(); return "ok"; }
///  fn p(a: String, b: String) { print(a); print(b); } fn main() { p("x", h()); }`.
pub open spec fn void_call_program() -> ProgramView {
    ProgramView {
        items: seq![
            fn_def(seq!['g'], seq![], None, seq![]),
            fn_def(
                seq!['h'],
                seq![],
                Some(TypeExpr::String),
                seq![
                    StmtView::Expr(call(seq!['g'], seq![])),
                    StmtView::Return { expr: ExprView::StringLit(seq!['o', 'k'], nowhere()), span: nowhere() },
                ],
            ),
            fn_def(
                seq!['p'],
                seq![string_param(seq!['a']), string_param(seq!['b'])],
                None,
                seq![
                    StmtView::Expr(call("print"@, seq![ExprView::Ident(seq!['a'], nowhere())])),
                    StmtView::Expr(call("print"@, seq![ExprView::Ident(seq!['b'], nowhere())])),
                ],
            ),
            fn_def(
                "main"@,
                seq![],
                None,
                seq![StmtView::Expr(call(seq!['p'], seq![ExprView::StringLit(seq!['x'], nowhere()), call(seq!['h'], seq![])]))],
            ),
        ],
    }
}

/// The function names of `void_call_program`, and where each is found.
proof fn lemma_void_call_names()
    ensures
        fn_names(void_call_program().items) =~= seq![seq!['g'], seq!['h'], seq!['p'], "main"@],
        last_index(fn_names(void_call_program().items), "main"@) == Some(3int),
        last_index(fn_names(void_call_program().items), seq!['g']) == Some(0int),
        last_index(fn_names(void_call_program().items), seq!['h']) == Some(1int),
        last_index(fn_names(void_call_program().items), seq!['p']) == Some(2int),
        seq!['g'] != "print"@ && seq!['h'] != "print"@ && seq!['p'] != "print"@ && "main"@ != "print"@,
        seq!['g'] != "main"@ && seq!['h'] != "main"@ && seq!['p'] != "main"@,
{
    reveal_strlit("main");
    reveal_strlit("print");
    let fnames = fn_names(void_call_program().items);
    let (g, h, q, m) = (seq!['g'], seq!['h'], seq!['p'], "main"@);
    assert(g[0] != h[0] && g[0] != q[0] && h[0] != q[0] && g.len() != m.len());
    assert("print"@.len() == 5 && m.len() == 4 && g.len() == 1 && h.len() == 1 && q.len() == 1);
    assert(fnames =~= seq![g, h, q, m]);
    let n3 = fnames.drop_last();
    let n2 = n3.drop_last();
    let n1 = n2.drop_last();
    assert(n3 =~= seq![g, h, q]);
    assert(n2 =~= seq![g, h]);
    assert(n1 =~= seq![g]);
    assert(n1.drop_last() =~= Seq::<Seq<char>>::empty());
    assert(last_index(n1, g) == Some(0int));
    assert(last_index(n2, g) == Some(0int));
    assert(last_index(n3, g) == Some(0int));
    assert(last_index(n2, h) == Some(1int));
    assert(last_index(n3, h) == Some(1int));
    assert(last_index(n3, q) == Some(2int));
}

/// The chunk of `g`: an implicit unit return.
proof fn lemma_void_call_chunk_g()
    ensures
        compile_fn_spec(void_call_program().items[0], fn_names(void_call_program().items)) == Ok::<ChunkView, DiagnosticView>(
            void_call_bytecode().chunks[0],
        ),
{
    lemma_void_call_names();
    let r = compile_fn_spec(void_call_program().items[0], fn_names(void_call_program().items));
    assert(r is Ok);
    assert(r->Ok_0 =~~= void_call_bytecode().chunks[0]);
}

/// The chunk of `h`: the call of `g` as a statement, then the return of a constant.
proof fn lemma_void_call_chunk_h()
    ensures
        compile_fn_spec(void_call_program().items[1], fn_names(void_call_program().items)) == Ok::<ChunkView, DiagnosticView>(
            void_call_bytecode().chunks[1],
        ),
{
    lemma_void_call_names();
    let f = void_call_program().items[1];
    let fnames = fn_names(void_call_program().items);
    let pn = param_names(f.params);
    let stmts = f.body.stmts;
    let empty = ChunkView { ops: Seq::empty(), strings: Seq::empty() };
    assert(stmts.drop_last().drop_last() =~= Seq::<StmtView>::empty());
    let c1 = ChunkView { ops: seq![Op::Call { func: 0, argc: 0 }], strings: Seq::empty() };
    assert(compile_args_spec(empty, seq![], 0, pn, fnames) == Ok::<ChunkView, DiagnosticView>(empty));
    assert(compile_call_spec(empty, seq!['g'], seq![], nowhere(), pn, fnames) is Ok && compile_call_spec(empty, seq!['g'], seq![], nowhere(), pn, fnames)->Ok_0 =~~= c1);
    let c2 = ChunkView { ops: seq![Op::Call { func: 0, argc: 0 }, Op::Pop], strings: Seq::empty() };
    assert(compile_stmts_spec(empty, stmts.drop_last().drop_last(), pn, fnames) == Ok::<ChunkView, DiagnosticView>(empty));
    assert(stmts.drop_last().last() == StmtView::Expr(call(seq!['g'], seq![])));
    assert(compile_expr_spec(empty, call(seq!['g'], seq![]), pn, fnames) is Ok && compile_expr_spec(empty, call(seq!['g'], seq![]), pn, fnames)->Ok_0 =~~= c1);
    assert(compile_stmts_spec(empty, stmts.drop_last(), pn, fnames) is Ok && compile_stmts_spec(empty, stmts.drop_last(), pn, fnames)->Ok_0 =~~= c2);
    let c3 = ChunkView { ops: seq![Op::Call { func: 0, argc: 0 }, Op::Pop, Op::PushStr(0), Op::Ret], strings: seq![seq!['o', 'k']] };
    assert(compile_stmts_spec(empty, stmts, pn, fnames) is Ok && compile_stmts_spec(empty, stmts, pn, fnames)->Ok_0 =~~= c3);
    let r = compile_fn_spec(f, fnames);
    assert(r is Ok);
    assert(r->Ok_0 =~~= void_call_bytecode().chunks[1]);
}

/// The chunk of `p`: two prints of its parameters, then an implicit unit return.
proof fn lemma_void_call_chunk_p()
    ensures
        compile_fn_spec(void_call_program().items[2], fn_names(void_call_program().items)) == Ok::<ChunkView, DiagnosticView>(
            void_call_bytecode().chunks[2],
        ),
{
    lemma_void_call_names();
    let f = void_call_program().items[2];
    let fnames = fn_names(void_call_program().items);
    let pn = param_names(f.params);
    let (a, bn) = (seq!['a'], seq!['b']);
    assert(a[0] != bn[0]);
    assert(pn =~= seq![a, bn]);
    assert(pn.drop_last() =~= seq![a]);
    assert(last_index(pn.drop_last(), a) == Some(0int));
    assert(last_index(pn, a) == Some(0int));
    assert(last_index(pn, bn) == Some(1int));
    let stmts = f.body.stmts;
    let empty = ChunkView { ops: Seq::empty(), strings: Seq::empty() };
    assert(stmts.drop_last().drop_last() =~= Seq::<StmtView>::empty());
    let c1 = ChunkView { ops: seq![Op::LoadParam(0), Op::BuiltinPrint, Op::PushUnit, Op::Pop], strings: Seq::empty() };
    let ia = ExprView::Ident(a, nowhere());
    let ib = ExprView::Ident(bn, nowhere());
    assert(stmts.drop_last().last() == StmtView::Expr(call("print"@, seq![ia])));
    assert(stmts.last() == StmtView::Expr(call("print"@, seq![ib])));
    assert(compile_stmts_spec(empty, stmts.drop_last().drop_last(), pn, fnames) == Ok::<ChunkView, DiagnosticView>(empty));
    let c0 = ChunkView { ops: seq![Op::LoadParam(0), Op::BuiltinPrint, Op::PushUnit], strings: Seq::empty() };
    assert(compile_expr_spec(empty, ia, pn, fnames) is Ok && compile_expr_spec(empty, ia, pn, fnames)->Ok_0 =~~= ChunkView { ops: seq![Op::LoadParam(0)], strings: Seq::empty() });
    assert(compile_call_spec(empty, "print"@, seq![ia], nowhere(), pn, fnames) is Ok && compile_call_spec(empty, "print"@, seq![ia], nowhere(), pn, fnames)->Ok_0 =~~= c0);
    assert(compile_stmts_spec(empty, stmts.drop_last(), pn, fnames) is Ok && compile_stmts_spec(empty, stmts.drop_last(), pn, fnames)->Ok_0 =~~= c1);
    assert(compile_expr_spec(c1, ib, pn, fnames) is Ok && compile_expr_spec(c1, ib, pn, fnames)->Ok_0 =~~= ChunkView {
        ops: seq![Op::LoadParam(0), Op::BuiltinPrint, Op::PushUnit, Op::Pop, Op::LoadParam(1)],
        strings: Seq::empty(),
    });
    let c2 = ChunkView {
        ops: seq![Op::LoadParam(0), Op::BuiltinPrint, Op::PushUnit, Op::Pop, Op::LoadParam(1), Op::BuiltinPrint, Op::PushUnit, Op::Pop],
        strings: Seq::empty(),
    };
    let c15 = ChunkView {
        ops: seq![Op::LoadParam(0), Op::BuiltinPrint, Op::PushUnit, Op::Pop, Op::LoadParam(1), Op::BuiltinPrint, Op::PushUnit],
        strings: Seq::empty(),
    };
    assert(compile_call_spec(c1, "print"@, seq![ib], nowhere(), pn, fnames) is Ok && compile_call_spec(c1, "print"@, seq![ib], nowhere(), pn, fnames)->Ok_0 =~~= c15);
    assert(compile_stmts_spec(empty, stmts, pn, fnames) is Ok && compile_stmts_spec(empty, stmts, pn, fnames)->Ok_0 =~~= c2);
    let r = compile_fn_spec(f, fnames);
    assert(r is Ok);
    assert(r->Ok_0 =~~= void_call_bytecode().chunks[2]);
}

/// The chunk of `main`: the arguments in order, the call, and `Halt`.
proof fn lemma_void_call_chunk_main()
    ensures
        compile_fn_spec(void_call_program().items[3], fn_names(void_call_program().items)) == Ok::<ChunkView, DiagnosticView>(
            void_call_bytecode().chunks[3],
        ),
{
    lemma_void_call_names();
    let f = void_call_program().items[3];
    let fnames = fn_names(void_call_program().items);
    let pn = param_names(f.params);
    let args = seq![ExprView::StringLit(seq!['x'], nowhere()), call(seq!['h'], seq![])];
    let empty = ChunkView { ops: Seq::empty(), strings: Seq::empty() };
    let c1 = ChunkView { ops: seq![Op::PushStr(0)], strings: seq![seq!['x']] };
    assert(compile_expr_spec(empty, args[0], pn, fnames) is Ok && compile_expr_spec(empty, args[0], pn, fnames)->Ok_0 =~~= c1);
    assert(compile_args_spec(c1, seq![], 0, pn, fnames) == Ok::<ChunkView, DiagnosticView>(c1));
    let c2 = ChunkView { ops: seq![Op::PushStr(0), Op::Call { func: 1, argc: 0 }], strings: seq![seq!['x']] };
    assert(compile_args_spec(c1, seq![], 0, pn, fnames) == Ok::<ChunkView, DiagnosticView>(c1));
    assert(compile_call_spec(c1, seq!['h'], seq![], nowhere(), pn, fnames) is Ok && compile_call_spec(c1, seq!['h'], seq![], nowhere(), pn, fnames)->Ok_0 =~~= c2);
    assert(compile_expr_spec(c1, args[1], pn, fnames) is Ok && compile_expr_spec(c1, args[1], pn, fnames)->Ok_0 =~~= c2);
    assert(compile_args_spec(c2, args, 2, pn, fnames) == Ok::<ChunkView, DiagnosticView>(c2));
    assert(compile_args_spec(c1, args, 1, pn, fnames) == Ok::<ChunkView, DiagnosticView>(c2));
    assert(compile_args_spec(empty, args, 0, pn, fnames) == Ok::<ChunkView, DiagnosticView>(c2));
    let c3 = ChunkView {
        ops: seq![Op::PushStr(0), Op::Call { func: 1, argc: 0 }, Op::Call { func: 2, argc: 2 }],
        strings: seq![seq!['x']],
    };
    assert(compile_call_spec(empty, seq!['p'], args, nowhere(), pn, fnames) is Ok && compile_call_spec(empty, seq!['p'], args, nowhere(), pn, fnames)->Ok_0 =~~= c3);
    assert(f.body.stmts.drop_last() =~= Seq::<StmtView>::empty());
    assert(compile_stmts_spec(empty, f.body.stmts.drop_last(), pn, fnames) == Ok::<ChunkView, DiagnosticView>(empty));
    assert(f.body.stmts.last() == StmtView::Expr(call(seq!['p'], args)));
    assert(compile_expr_spec(empty, call(seq!['p'], args), pn, fnames) == compile_call_spec(empty, seq!['p'], args, nowhere(), pn, fnames));
    let c4 = ChunkView {
        ops: seq![Op::PushStr(0), Op::Call { func: 1, argc: 0 }, Op::Call { func: 2, argc: 2 }, Op::Pop],
        strings: seq![seq!['x']],
    };
    assert(compile_stmts_spec(empty, f.body.stmts, pn, fnames) is Ok && compile_stmts_spec(empty, f.body.stmts, pn, fnames)->Ok_0 =~~= c4);
    let r = compile_fn_spec(f, fnames);
    assert(r is Ok);
    assert(r->Ok_0 =~~= void_call_bytecode().chunks[3]);
}

/// The program above compiles to `void_call_bytecode`.
proof fn lemma_void_call_compiles()
    ensures
        compile_spec(void_call_program()) == Ok::<BytecodeView, DiagnosticView>(void_call_bytecode()),
{
    lemma_void_call_names();
    lemma_void_call_chunk_g();
    lemma_void_call_chunk_h();
    lemma_void_call_chunk_p();
    lemma_void_call_chunk_main();
    let fs = void_call_program().items;
    let fnames = fn_names(fs);
    let b = void_call_bytecode();
    assert(fs.take(1).drop_last() =~= fs.take(0));
    assert(fs.take(2).drop_last() =~= fs.take(1));
    assert(fs.take(3).drop_last() =~= fs.take(2));
    assert(fs.drop_last() =~= fs.take(3));
    assert(compile_fns_spec(fs.take(0), fnames) is Ok && compile_fns_spec(fs.take(0), fnames)->Ok_0 =~~= b.chunks.take(0));
    assert(compile_fns_spec(fs.take(1), fnames) is Ok && compile_fns_spec(fs.take(1), fnames)->Ok_0 =~~= b.chunks.take(1));
    assert(compile_fns_spec(fs.take(2), fnames) is Ok && compile_fns_spec(fs.take(2), fnames)->Ok_0 =~~= b.chunks.take(2));
    assert(compile_fns_spec(fs.take(3), fnames) is Ok && compile_fns_spec(fs.take(3), fnames)->Ok_0 =~~= b.chunks.take(3));
    assert(compile_fns_spec(fs, fnames) is Ok && compile_fns_spec(fs, fnames)->Ok_0 =~~= b.chunks);
    reveal_strlit("main");
    assert("main"@ =~= seq!['m', 'a', 'i', 'n']);
    assert(fnames =~~= b.func_names);
    assert(compile_spec(void_call_program()) is Ok && compile_spec(void_call_program())->Ok_0 =~~= b);
}

/// Where each function of `void_call_program` is found by the type checker.
proof fn lemma_void_call_lookups()
    ensures
        find_fn(void_call_program().items, seq!['g']) == Some(0int),
        find_fn(void_call_program().items, seq!['h']) == Some(1int),
        find_fn(void_call_program().items, seq!['p']) == Some(2int),
        find_fn(void_call_program().items, "main"@) == Some(3int),
        first_dup(void_call_program().items, 0) is None,
{
    lemma_void_call_names();
    let fs = void_call_program().items;
    let (g, h, q, m) = (seq!['g'], seq!['h'], seq!['p'], "main"@);
    reveal_strlit("main");
    assert(g[0] != h[0] && g[0] != q[0] && h[0] != q[0] && g.len() != m.len());
    assert(m.len() == 4 && g.len() == 1 && h.len() == 1 && q.len() == 1);
    let f1 = fs.drop_first();
    let f2 = f1.drop_first();
    let f3 = f2.drop_first();
    assert(f3.drop_first() =~= Seq::<FnDefView>::empty());
    assert(find_fn(f3, m) == Some(0int));
    assert(find_fn(f2, m) == Some(1int));
    assert(find_fn(f1, m) == Some(2int));
    assert(find_fn(f2, q) == Some(0int));
    assert(find_fn(f1, q) == Some(1int));
    assert(find_fn(f1, h) == Some(0int));
    // No earlier function shares a name.
    assert(fs.take(0) =~= Seq::<FnDefView>::empty());
    assert(fs.take(1) =~= seq![fs[0]]);
    assert(fs.take(1).drop_first() =~= Seq::<FnDefView>::empty());
    assert(fs.take(2).drop_first() =~= seq![fs[1]]);
    assert(fs.take(2).drop_first().drop_first() =~= Seq::<FnDefView>::empty());
    assert(fs.take(3).drop_first() =~= seq![fs[1], fs[2]]);
    assert(fs.take(3).drop_first().drop_first() =~= seq![fs[2]]);
    assert(fs.take(3).drop_first().drop_first().drop_first() =~= Seq::<FnDefView>::empty());
    assert(find_fn(fs.take(0), g) is None);
    assert(find_fn(fs.take(1).drop_first(), h) is None);
    assert(find_fn(fs.take(1), h) is None);
    assert(find_fn(fs.take(2).drop_first().drop_first(), q) is None);
    assert(find_fn(fs.take(2).drop_first(), q) is None);
    assert(find_fn(fs.take(2), q) is None);
    assert(find_fn(fs.take(3).drop_first().drop_first().drop_first(), m) is None);
    assert(find_fn(fs.take(3).drop_first().drop_first(), m) is None);
    assert(find_fn(fs.take(3).drop_first(), m) is None);
    assert(find_fn(fs.take(3), m) is None);
    assert(first_dup(fs, 4) is None);
    assert(first_dup(fs, 3) is None);
    assert(first_dup(fs, 2) is None);
    assert(first_dup(fs, 1) is None);
}

/// `void_call_program` type-checks.
proof fn lemma_void_call_checks()
    ensures
        check_program_spec(void_call_program()).0,
{
    reveal_strlit("main");
    reveal_strlit("print");
    lemma_void_call_names();
    lemma_void_call_lookups();
    let fs = void_call_program().items;
    let none = Seq::<(Seq<char>, Ty)>::empty();
    // h: `g();` has type Void, and `"ok"` is a String.
    let eh = env_of(fs[1].params);
    assert(eh =~= none);
    assert(check_args_spec(seq![], fs[0].params, 0, nowhere(), eh, fs).0);
    assert(check_call_spec(seq!['g'], seq![], nowhere(), eh, fs).0 == Some(Ty::Void));
    assert(fs[1].body.stmts.drop_last().drop_last() =~= Seq::<StmtView>::empty());
    assert(fs[1].body.stmts.drop_last().last() == StmtView::Expr(call(seq!['g'], seq![])));
    assert(check_expr_spec(call(seq!['g'], seq![]), eh, fs).0 == Some(Ty::Void));
    assert(check_stmts_spec(fs[1].body.stmts.drop_last().drop_last(), ret_ty_of(fs[1]), eh, fs).0);
    assert(check_stmts_spec(fs[1].body.stmts.drop_last(), ret_ty_of(fs[1]), eh, fs).0);
    assert(check_fn_spec(fs[1], fs).0);
    // p: both parameters are Strings.
    let ep = env_of(fs[2].params);
    let (a, bn) = (seq!['a'], seq!['b']);
    assert(a[0] != bn[0]);
    assert(ep =~= seq![(a, Ty::String), (bn, Ty::String)]);
    assert(ep.drop_last() =~= seq![(a, Ty::String)]);
    assert(env_lookup(ep.drop_last(), a) == Some(Ty::String));
    assert(env_lookup(ep, a) == Some(Ty::String));
    assert(env_lookup(ep, bn) == Some(Ty::String));
    let ia = ExprView::Ident(a, nowhere());
    let ib = ExprView::Ident(bn, nowhere());
    assert(check_call_spec("print"@, seq![ia], nowhere(), ep, fs).0 == Some(Ty::Void));
    assert(check_call_spec("print"@, seq![ib], nowhere(), ep, fs).0 == Some(Ty::Void));
    assert(fs[2].body.stmts.drop_last().drop_last() =~= Seq::<StmtView>::empty());
    assert(fs[2].body.stmts.drop_last().last() == StmtView::Expr(call("print"@, seq![ia])));
    assert(fs[2].body.stmts.last() == StmtView::Expr(call("print"@, seq![ib])));
    assert(check_expr_spec(call("print"@, seq![ia]), ep, fs).0 == Some(Ty::Void));
    assert(check_expr_spec(call("print"@, seq![ib]), ep, fs).0 == Some(Ty::Void));
    assert(check_stmts_spec(fs[2].body.stmts.drop_last().drop_last(), ret_ty_of(fs[2]), ep, fs).0);
    assert(check_stmts_spec(fs[2].body.stmts.drop_last(), ret_ty_of(fs[2]), ep, fs).0);
    assert(check_fn_spec(fs[2], fs).0);
    // main: `p("x", h())` passes two Strings.
    let em = env_of(fs[3].params);
    assert(em =~= none);
    let args = seq![ExprView::StringLit(seq!['x'], nowhere()), call(seq!['h'], seq![])];
    assert(check_args_spec(seq![], fs[1].params, 0, nowhere(), em, fs).0);
    assert(check_call_spec(seq!['h'], seq![], nowhere(), em, fs).0 == Some(Ty::String));
    assert(check_args_spec(args, fs[2].params, 2, nowhere(), em, fs).0);
    assert(check_expr_spec(args[1], em, fs).0 == Some(Ty::String));
    assert(check_expr_spec(args[0], em, fs).0 == Some(Ty::String));
    assert(ty_of(fs[2].params[0].ty) == Ty::String && ty_of(fs[2].params[1].ty) == Ty::String);
    assert(check_args_spec(args, fs[2].params, 1, nowhere(), em, fs).0);
    assert(check_args_spec(args, fs[2].params, 0, nowhere(), em, fs).0);
    assert(check_call_spec(seq!['p'], args, nowhere(), em, fs).0 == Some(Ty::Void));
    assert(fs[3].body.stmts.drop_last() =~= Seq::<StmtView>::empty());
    assert(fs[3].body.stmts.last() == StmtView::Expr(call(seq!['p'], args)));
    assert(check_expr_spec(call(seq!['p'], args), em, fs).0 == Some(Ty::Void));
    assert(check_stmts_spec(fs[3].body.stmts.drop_last(), ret_ty_of(fs[3]), em, fs).0);
    assert(check_fn_spec(fs[3], fs).0);
    assert(check_fn_spec(fs[0], fs).0);
    assert(fs.take(1).drop_last() =~= fs.take(0));
    assert(fs.take(2).drop_last() =~= fs.take(1));
    assert(fs.take(3).drop_last() =~= fs.take(2));
    assert(fs.drop_last() =~= fs.take(3));
    assert(fs.take(0) =~= Seq::<FnDefView>::empty());
    assert(fs.take(1).last() == fs[0] && fs.take(2).last() == fs[1] && fs.take(3).last() == fs[2]);
    assert(check_fns_spec(fs.take(0), fs).0);
    assert(check_fns_spec(fs.take(1), fs).0);
    assert(check_fns_spec(fs.take(2), fs).0);
    assert(check_fns_spec(fs.take(3), fs).0);
    assert(check_fns_spec(fs, fs).0);
}

/// Calling a `Void` function as a statement leaves the caller's pending arguments alone:
/// `void_call_program` type-checks and compiles to `void_call_bytecode`, which prints `x`,
/// then `ok`, and finishes.
pub proof fn example_void_call_statement()
    ensures
        check_program_spec(void_call_program()).0,
        compile_spec(void_call_program()) == Ok::<BytecodeView, DiagnosticView>(void_call_bytecode()),
        run_spec(started(void_call_bytecode()), 21) == (
        seq![seq!['x'], seq!['o', 'k']],
        Some(Ok::<(), DiagnosticView>(())),
        ),
{
    lemma_void_call_checks();
    lemma_void_call_compiles();
    lemma_void_call_runs();
}

/// The run of `void_call_bytecode`, one step at a time.
proof fn lemma_void_call_runs()
    ensures
        run_spec(started(void_call_bytecode()), 21) == (
        seq![seq!['x'], seq!['o', 'k']],
        Some(Ok::<(), DiagnosticView>(())),
        ),
{
    let b = void_call_bytecode();
    let s0 = VmView { stack: Seq::<ValueView>::empty(), frames: seq![FrameView { func: 3, ip: 0, locals: Seq::<ValueView>::empty() }], program: b };
    let s1 = VmView { stack: seq![ValueView::Str(seq!['x'])], frames: seq![FrameView { func: 3, ip: 1, locals: Seq::<ValueView>::empty() }], program: b };
    let s2 = VmView { stack: seq![ValueView::Str(seq!['x'])], frames: seq![FrameView { func: 3, ip: 2, locals: Seq::<ValueView>::empty() }, FrameView { func: 1, ip: 0, locals: Seq::<ValueView>::empty() }], program: b };
    let s3 = VmView { stack: seq![ValueView::Str(seq!['x'])], frames: seq![FrameView { func: 3, ip: 2, locals: Seq::<ValueView>::empty() }, FrameView { func: 1, ip: 1, locals: Seq::<ValueView>::empty() }, FrameView { func: 0, ip: 0, locals: Seq::<ValueView>::empty() }], program: b };
    let s4 = VmView { stack: seq![ValueView::Str(seq!['x']), ValueView::Unit], frames: seq![FrameView { func: 3, ip: 2, locals: Seq::<ValueView>::empty() }, FrameView { func: 1, ip: 1, locals: Seq::<ValueView>::empty() }, FrameView { func: 0, ip: 1, locals: Seq::<ValueView>::empty() }], program: b };
    let s5 = VmView { stack: seq![ValueView::Str(seq!['x']), ValueView::Unit], frames: seq![FrameView { func: 3, ip: 2, locals: Seq::<ValueView>::empty() }, FrameView { func: 1, ip: 1, locals: Seq::<ValueView>::empty() }], program: b };
    let s6 = VmView { stack: seq![ValueView::Str(seq!['x'])], frames: seq![FrameView { func: 3, ip: 2, locals: Seq::<ValueView>::empty() }, FrameView { func: 1, ip: 2, locals: Seq::<ValueView>::empty() }], program: b };
    let s7 = VmView { stack: seq![ValueView::Str(seq!['x']), ValueView::Str(seq!['o', 'k'])], frames: seq![FrameView { func: 3, ip: 2, locals: Seq::<ValueView>::empty() }, FrameView { func: 1, ip: 3, locals: Seq::<ValueView>::empty() }], program: b };
    let s8 = VmView { stack: seq![ValueView::Str(seq!['x']), ValueView::Str(seq!['o', 'k'])], frames: seq![FrameView { func: 3, ip: 2, locals: Seq::<ValueView>::empty() }], program: b };
    let s9 = VmView { stack: Seq::<ValueView>::empty(), frames: seq![FrameView { func: 3, ip: 3, locals: Seq::<ValueView>::empty() }, FrameView { func: 2, ip: 0, locals: seq![ValueView::Str(seq!['x']), ValueView::Str(seq!['o', 'k'])] }], program: b };
    let s10 = VmView { stack: seq![ValueView::Str(seq!['x'])], frames: seq![FrameView { func: 3, ip: 3, locals: Seq::<ValueView>::empty() }, FrameView { func: 2, ip: 1, locals: seq![ValueView::Str(seq!['x']), ValueView::Str(seq!['o', 'k'])] }], program: b };
    let s11 = VmView { stack: Seq::<ValueView>::empty(), frames: seq![FrameView { func: 3, ip: 3, locals: Seq::<ValueView>::empty() }, FrameView { func: 2, ip: 2, locals: seq![ValueView::Str(seq!['x']), ValueView::Str(seq!['o', 'k'])] }], program: b };
    let s12 = VmView { stack: seq![ValueView::Unit], frames: seq![FrameView { func: 3, ip: 3, locals: Seq::<ValueView>::empty() }, FrameView { func: 2, ip: 3, locals: seq![ValueView::Str(seq!['x']), ValueView::Str(seq!['o', 'k'])] }], program: b };
    let s13 = VmView { stack: Seq::<ValueView>::empty(), frames: seq![FrameView { func: 3, ip: 3, locals: Seq::<ValueView>::empty() }, FrameView { func: 2, ip: 4, locals: seq![ValueView::Str(seq!['x']), ValueView::Str(seq!['o', 'k'])] }], program: b };
    let s14 = VmView { stack: seq![ValueView::Str(seq!['o', 'k'])], frames: seq![FrameView { func: 3, ip: 3, locals: Seq::<ValueView>::empty() }, FrameView { func: 2, ip: 5, locals: seq![ValueView::Str(seq!['x']), ValueView::Str(seq!['o', 'k'])] }], program: b };
    let s15 = VmView { stack: Seq::<ValueView>::empty(), frames: seq![FrameView { func: 3, ip: 3, locals: Seq::<ValueView>::empty() }, FrameView { func: 2, ip: 6, locals: seq![ValueView::Str(seq!['x']), ValueView::Str(seq!['o', 'k'])] }], program: b };
    let s16 = VmView { stack: seq![ValueView::Unit], frames: seq![FrameView { func: 3, ip: 3, locals: Seq::<ValueView>::empty() }, FrameView { func: 2, ip: 7, locals: seq![ValueView::Str(seq!['x']), ValueView::Str(seq!['o', 'k'])] }], program: b };
    let s17 = VmView { stack: Seq::<ValueView>::empty(), frames: seq![FrameView { func: 3, ip: 3, locals: Seq::<ValueView>::empty() }, FrameView { func: 2, ip: 8, locals: seq![ValueView::Str(seq!['x']), ValueView::Str(seq!['o', 'k'])] }], program: b };
    let s18 = VmView { stack: seq![ValueView::Unit], frames: seq![FrameView { func: 3, ip: 3, locals: Seq::<ValueView>::empty() }, FrameView { func: 2, ip: 9, locals: seq![ValueView::Str(seq!['x']), ValueView::Str(seq!['o', 'k'])] }], program: b };
    let s19 = VmView { stack: seq![ValueView::Unit], frames: seq![FrameView { func: 3, ip: 3, locals: Seq::<ValueView>::empty() }], program: b };
    let s20 = VmView { stack: Seq::<ValueView>::empty(), frames: seq![FrameView { func: 3, ip: 4, locals: Seq::<ValueView>::empty() }], program: b };
    let s21 = VmView { stack: Seq::<ValueView>::empty(), frames: seq![FrameView { func: 3, ip: 5, locals: Seq::<ValueView>::empty() }], program: b };
    assert(s0.frames =~~= started(b).frames);
    assert(s0 == started(b));
    assert(step_spec(s0).0.stack =~~= s1.stack);
    assert(step_spec(s0).0.frames =~~= s1.frames);
    assert(step_spec(s0) == (s1, Ok::<StepView, DiagnosticView>(StepView::Continue)));
    assert(step_spec(s1).0.stack =~~= s2.stack);
    assert(step_spec(s1).0.frames =~~= s2.frames);
    assert(step_spec(s1) == (s2, Ok::<StepView, DiagnosticView>(StepView::Continue)));
    assert(step_spec(s2).0.stack =~~= s3.stack);
    assert(step_spec(s2).0.frames =~~= s3.frames);
    assert(step_spec(s2) == (s3, Ok::<StepView, DiagnosticView>(StepView::Continue)));
    assert(step_spec(s3).0.stack =~~= s4.stack);
    assert(step_spec(s3).0.frames =~~= s4.frames);
    assert(step_spec(s3) == (s4, Ok::<StepView, DiagnosticView>(StepView::Continue)));
    assert(step_spec(s4).0.stack =~~= s5.stack);
    assert(step_spec(s4).0.frames =~~= s5.frames);
    assert(step_spec(s4) == (s5, Ok::<StepView, DiagnosticView>(StepView::Continue)));
    assert(step_spec(s5).0.stack =~~= s6.stack);
    assert(step_spec(s5).0.frames =~~= s6.frames);
    assert(step_spec(s5) == (s6, Ok::<StepView, DiagnosticView>(StepView::Continue)));
    assert(step_spec(s6).0.stack =~~= s7.stack);
    assert(step_spec(s6).0.frames =~~= s7.frames);
    assert(step_spec(s6) == (s7, Ok::<StepView, DiagnosticView>(StepView::Continue)));
    assert(step_spec(s7).0.stack =~~= s8.stack);
    assert(step_spec(s7).0.frames =~~= s8.frames);
    assert(step_spec(s7) == (s8, Ok::<StepView, DiagnosticView>(StepView::Continue)));
    assert(step_spec(s8).0.stack =~~= s9.stack);
    assert(step_spec(s8).0.frames =~~= s9.frames);
    assert(step_spec(s8) == (s9, Ok::<StepView, DiagnosticView>(StepView::Continue)));
    assert(step_spec(s9).0.stack =~~= s10.stack);
    assert(step_spec(s9).0.frames =~~= s10.frames);
    assert(step_spec(s9) == (s10, Ok::<StepView, DiagnosticView>(StepView::Continue)));
    assert(step_spec(s10).0.stack =~~= s11.stack);
    assert(step_spec(s10).0.frames =~~= s11.frames);
    assert(step_spec(s10) == (s11, Ok::<StepView, DiagnosticView>(StepView::Print(seq!['x']))));
    assert(step_spec(s11).0.stack =~~= s12.stack);
    assert(step_spec(s11).0.frames =~~= s12.frames);
    assert(step_spec(s11) == (s12, Ok::<StepView, DiagnosticView>(StepView::Continue)));
    assert(step_spec(s12).0.stack =~~= s13.stack);
    assert(step_spec(s12).0.frames =~~= s13.frames);
    assert(step_spec(s12) == (s13, Ok::<StepView, DiagnosticView>(StepView::Continue)));
    assert(step_spec(s13).0.stack =~~= s14.stack);
    assert(step_spec(s13).0.frames =~~= s14.frames);
    assert(step_spec(s13) == (s14, Ok::<StepView, DiagnosticView>(StepView::Continue)));
    assert(step_spec(s14).0.stack =~~= s15.stack);
    assert(step_spec(s14).0.frames =~~= s15.frames);
    assert(step_spec(s14) == (s15, Ok::<StepView, DiagnosticView>(StepView::Print(seq!['o', 'k']))));
    assert(step_spec(s15).0.stack =~~= s16.stack);
    assert(step_spec(s15).0.frames =~~= s16.frames);
    assert(step_spec(s15) == (s16, Ok::<StepView, DiagnosticView>(StepView::Continue)));
    assert(step_spec(s16).0.stack =~~= s17.stack);
    assert(step_spec(s16).0.frames =~~= s17.frames);
    assert(step_spec(s16) == (s17, Ok::<StepView, DiagnosticView>(StepView::Continue)));
    assert(step_spec(s17).0.stack =~~= s18.stack);
    assert(step_spec(s17).0.frames =~~= s18.frames);
    assert(step_spec(s17) == (s18, Ok::<StepView, DiagnosticView>(StepView::Continue)));
    assert(step_spec(s18).0.stack =~~= s19.stack);
    assert(step_spec(s18).0.frames =~~= s19.frames);
    assert(step_spec(s18) == (s19, Ok::<StepView, DiagnosticView>(StepView::Continue)));
    assert(step_spec(s19).0.stack =~~= s20.stack);
    assert(step_spec(s19).0.frames =~~= s20.frames);
    assert(step_spec(s19) == (s20, Ok::<StepView, DiagnosticView>(StepView::Continue)));
    assert(step_spec(s20).0.stack =~~= s21.stack);
    assert(step_spec(s20).0.frames =~~= s21.frames);
    assert(step_spec(s20) == (s21, Ok::<StepView, DiagnosticView>(StepView::Finished)));
    assert(run_spec(s20, 1nat) =~~= (Seq::<Seq<char>>::empty(), Some(Ok::<(), DiagnosticView>(()))));
    assert(run_spec(s19, 2nat) =~~= (Seq::<Seq<char>>::empty(), Some(Ok::<(), DiagnosticView>(()))));
    assert(run_spec(s18, 3nat) =~~= (Seq::<Seq<char>>::empty(), Some(Ok::<(), DiagnosticView>(()))));
    assert(run_spec(s17, 4nat) =~~= (Seq::<Seq<char>>::empty(), Some(Ok::<(), DiagnosticView>(()))));
    assert(run_spec(s16, 5nat) =~~= (Seq::<Seq<char>>::empty(), Some(Ok::<(), DiagnosticView>(()))));
    assert(run_spec(s15, 6nat) =~~= (Seq::<Seq<char>>::empty(), Some(Ok::<(), DiagnosticView>(()))));
    assert(run_spec(s14, 7nat) =~~= (seq![seq!['o', 'k']], Some(Ok::<(), DiagnosticView>(()))));
    assert(run_spec(s13, 8nat) =~~= (seq![seq!['o', 'k']], Some(Ok::<(), DiagnosticView>(()))));
    assert(run_spec(s12, 9nat) =~~= (seq![seq!['o', 'k']], Some(Ok::<(), DiagnosticView>(()))));
    assert(run_spec(s11, 10nat) =~~= (seq![seq!['o', 'k']], Some(Ok::<(), DiagnosticView>(()))));
    assert(run_spec(s10, 11nat) =~~= (seq![seq!['x'], seq!['o', 'k']], Some(Ok::<(), DiagnosticView>(()))));
    assert(run_spec(s9, 12nat) =~~= (seq![seq!['x'], seq!['o', 'k']], Some(Ok::<(), DiagnosticView>(()))));
    assert(run_spec(s8, 13nat) =~~= (seq![seq!['x'], seq!['o', 'k']], Some(Ok::<(), DiagnosticView>(()))));
    assert(run_spec(s7, 14nat) =~~= (seq![seq!['x'], seq!['o', 'k']], Some(Ok::<(), DiagnosticView>(()))));
    assert(run_spec(s6, 15nat) =~~= (seq![seq!['x'], seq!['o', 'k']], Some(Ok::<(), DiagnosticView>(()))));
    assert(run_spec(s5, 16nat) =~~= (seq![seq!['x'], seq!['o', 'k']], Some(Ok::<(), DiagnosticView>(()))));
    assert(run_spec(s4, 17nat) =~~= (seq![seq!['x'], seq!['o', 'k']], Some(Ok::<(), DiagnosticView>(()))));
    assert(run_spec(s3, 18nat) =~~= (seq![seq!['x'], seq!['o', 'k']], Some(Ok::<(), DiagnosticView>(()))));
    assert(run_spec(s2, 19nat) =~~= (seq![seq!['x'], seq!['o', 'k']], Some(Ok::<(), DiagnosticView>(()))));
    assert(run_spec(s1, 20nat) =~~= (seq![seq!['x'], seq!['o', 'k']], Some(Ok::<(), DiagnosticView>(()))));
    assert(run_spec(s0, 21nat) =~~= (seq![seq!['x'], seq!['o', 'k']], Some(Ok::<(), DiagnosticView>(()))));
}

} // verus!
